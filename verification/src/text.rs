//! Small operations on text, as sequences of characters.

use vstd::prelude::*;
use vstd::string::*;

verus! {

/// `String::push` adds one character at the end.
pub assume_specification[ String::push ](s: &mut String, c: char)
    ensures
        final(s)@ == old(s)@.push(c),
;

/// The characters of `s`, in order.
pub fn chars_of(s: &str) -> (chars: Vec<char>)
    ensures
        chars@ == s@,
{
    let mut chars: Vec<char> = Vec::new();
    for c in it: s.chars()
        invariant
            it.seq() == s@,
            chars@ == s@.take(it.index() as int),
    {
        chars.push(c);
        assert(chars@ =~= s@.take(it.index() + 1));
    }
    assert(chars@ =~= s@);
    chars
}

/// The text made of `chars`.
pub fn string_of(chars: &Vec<char>) -> (s: String)
    ensures
        s@ == chars@,
{
    let mut s = String::new();
    let mut i: usize = 0;
    while i < chars.len()
        invariant
            i <= chars@.len(),
            s@ == chars@.take(i as int),
        decreases chars@.len() - i,
    {
        s.push(chars[i]);
        i = i + 1;
        assert(s@ =~= chars@.take(i as int));
    }
    assert(s@ =~= chars@);
    s
}

/// The character for a digit below ten.
pub open spec fn digit(d: nat) -> char {
    ('0' as u32 + d) as char
}

/// `n` in decimal, without leading zeros.
pub open spec fn decimal(n: nat) -> Seq<char>
    decreases n,
{
    if n < 10 {
        seq![digit(n)]
    } else {
        decimal(n / 10).push(digit(n % 10))
    }
}

/// `n` in decimal, without leading zeros.
pub fn decimal_text(n: u32) -> (s: String)
    ensures
        s@ == decimal(n as nat),
{
    decimal_text_u64(n as u64)
}

/// `n` in decimal, with a minus sign where it is negative.
pub open spec fn signed_decimal(n: int) -> Seq<char> {
    if n < 0 {
        seq!['-'] + decimal((-n) as nat)
    } else {
        decimal(n as nat)
    }
}

/// `n` in decimal, without leading zeros.
pub fn decimal_text_u64(n: u64) -> (s: String)
    ensures
        s@ == decimal(n as nat),
    decreases n,
{
    let d: u8 = (n % 10) as u8;
    let c: char = (48u8 + d) as char;
    let mut s = if n < 10 {
        String::new()
    } else {
        decimal_text_u64(n / 10)
    };
    s.push(c);
    assert(s@ =~= decimal(n as nat));
    s
}

/// `n` in decimal, with a minus sign where it is negative.
pub fn signed_decimal_text(n: i64) -> (s: String)
    ensures
        s@ == signed_decimal(n as int),
{
    if n >= 0 {
        return decimal_text_u64(n as u64);
    }
    let size: u64 = if n == i64::MIN {
        9_223_372_036_854_775_808
    } else {
        (-n) as u64
    };
    let mut s = String::new();
    s.push('-');
    s.append(decimal_text_u64(size).as_str());
    assert(s@ =~= signed_decimal(n as int));
    s
}

/// The first `n` of `shape`, separated by commas.
pub open spec fn listed(shape: Seq<i64>, n: int) -> Seq<char>
    decreases n,
{
    if n <= 0 {
        seq![]
    } else if n == 1 {
        signed_decimal(shape[0] as int)
    } else {
        listed(shape, n - 1) + ", "@ + signed_decimal(shape[n - 1] as int)
    }
}

/// A tensor shape as it is shown, in square brackets.
pub open spec fn shape_shown(shape: Seq<i64>) -> Seq<char> {
    "["@ + listed(shape, shape.len() as int) + "]"@
}

/// A tensor shape as it is shown, in square brackets.
pub fn shape_text(shape: &[i64]) -> (s: String)
    ensures
        s@ == shape_shown(shape@),
{
    let mut inner = String::new();
    let mut i: usize = 0;
    while i < shape.len()
        invariant
            i <= shape@.len(),
            inner@ == listed(shape@, i as int),
        decreases shape@.len() - i,
    {
        let part = signed_decimal_text(shape[i]);
        if i > 0 {
            inner.append(", ");
        }
        inner.append(part.as_str());
        i = i + 1;
        assert(inner@ =~= listed(shape@, i as int));
    }
    let mut s = String::new();
    s.append("[");
    s.append(inner.as_str());
    s.append("]");
    assert(s@ =~= shape_shown(shape@));
    s
}

/// `c`, or its lower-case form where it is an upper-case ASCII letter.
pub open spec fn lower(c: char) -> char {
    if 'A' <= c <= 'Z' {
        (c as u32 + 32) as char
    } else {
        c
    }
}

/// `c`, or its upper-case form where it is a lower-case ASCII letter.
pub open spec fn upper(c: char) -> char {
    if 'a' <= c <= 'z' {
        (c as u32 - 32) as char
    } else {
        c
    }
}

/// Text with its ASCII letters in lower case.
pub open spec fn lowered(s: Seq<char>) -> Seq<char> {
    s.map_values(|c: char| lower(c))
}

/// Text with its ASCII letters in upper case.
pub open spec fn uppered(s: Seq<char>) -> Seq<char> {
    s.map_values(|c: char| upper(c))
}

fn lower_char(c: char) -> (l: char)
    ensures
        l == lower(c),
{
    if 'A' <= c && c <= 'Z' {
        (c as u8 + 32) as char
    } else {
        c
    }
}

fn upper_char(c: char) -> (u: char)
    ensures
        u == upper(c),
{
    if 'a' <= c && c <= 'z' {
        (c as u8 - 32) as char
    } else {
        c
    }
}

/// The characters of `s`, ASCII letters in lower case.
pub fn lower_chars(s: &str) -> (l: Vec<char>)
    ensures
        l@ == lowered(s@),
{
    let chars = chars_of(s);
    let mut l: Vec<char> = Vec::new();
    let mut i: usize = 0;
    while i < chars.len()
        invariant
            i <= chars@.len(),
            l@ == lowered(chars@).take(i as int),
        decreases chars@.len() - i,
    {
        l.push(lower_char(chars[i]));
        i = i + 1;
        assert(l@ =~= lowered(chars@).take(i as int));
    }
    assert(l@ =~= lowered(s@));
    l
}

/// `chars` with ASCII letters in upper case.
pub fn upper_chars(chars: &Vec<char>) -> (u: Vec<char>)
    ensures
        u@ == uppered(chars@),
{
    let mut u: Vec<char> = Vec::new();
    let mut i: usize = 0;
    while i < chars.len()
        invariant
            i <= chars@.len(),
            u@ == uppered(chars@).take(i as int),
        decreases chars@.len() - i,
    {
        u.push(upper_char(chars[i]));
        i = i + 1;
        assert(u@ =~= uppered(chars@).take(i as int));
    }
    assert(u@ =~= uppered(chars@));
    u
}

/// Whether two sequences of characters are equal.
pub fn same_chars(a: &Vec<char>, b: &Vec<char>) -> (same: bool)
    ensures
        same == (a@ == b@),
{
    if a.len() != b.len() {
        return false;
    }
    let mut i: usize = 0;
    while i < a.len()
        invariant
            i <= a@.len(),
            a@.len() == b@.len(),
            forall|k: int| 0 <= k < i ==> a@[k] == b@[k],
        decreases a@.len() - i,
    {
        if a[i] != b[i] {
            return false;
        }
        i = i + 1;
    }
    assert(a@ =~= b@);
    true
}

/// Whether two texts are equal but for the case of ASCII letters.
pub fn same_ignoring_case(a: &str, b: &str) -> (same: bool)
    ensures
        same == (lowered(a@) == lowered(b@)),
{
    let x = lower_chars(a);
    let y = lower_chars(b);
    same_chars(&x, &y)
}

/// Whether `part` occurs in `whole` at `at`.
pub open spec fn occurs_at(whole: Seq<char>, part: Seq<char>, at: int) -> bool {
    &&& 0 <= at <= whole.len() - part.len()
    &&& whole.subrange(at, at + part.len()) == part
}

/// Whether `c` occurs in `s`.
pub fn has_char(s: &str, c: char) -> (found: bool)
    ensures
        found == s@.contains(c),
{
    let chars = chars_of(s);
    let mut i: usize = 0;
    while i < chars.len()
        invariant
            i <= chars@.len(),
            chars@ == s@,
            forall|k: int| 0 <= k < i ==> chars@[k] != c,
        decreases chars@.len() - i,
    {
        if chars[i] == c {
            assert(s@[i as int] == c);
            return true;
        }
        i = i + 1;
    }
    false
}

/// Whether `part` occurs somewhere in `whole`.
pub open spec fn occurs_in(whole: Seq<char>, part: Seq<char>) -> bool {
    exists|at: int| occurs_at(whole, part, at)
}

/// Whether `part` occurs somewhere in `whole`.
pub fn contains(whole: &Vec<char>, part: &Vec<char>) -> (found: bool)
    ensures
        found == occurs_in(whole@, part@),
{
    let n: usize = whole.len();
    if part.len() > n {
        return false;
    }
    let last: usize = n - part.len();
    let mut at: usize = 0;
    loop
        invariant
            n == whole@.len(),
            at <= last,
            last == n - part@.len(),
            forall|k: int| 0 <= k < at ==> !occurs_at(whole@, part@, k),
        decreases last - at,
    {
        let mut i: usize = 0;
        let mut same = true;
        while i < part.len() && same
            invariant
                n == whole@.len(),
                at <= last,
                last == n - part@.len(),
                i <= part@.len(),
                same ==> forall|k: int| 0 <= k < i ==> whole@[at + k] == part@[k],
                !same ==> exists|k: int|
                    0 <= k < part@.len() && #[trigger] whole@[at + k] != part@[k],
            decreases part@.len() - i,
        {
            if whole[at + i] != part[i] {
                same = false;
                assert(whole@[at + i] != part@[i as int]);
            }
            i = i + 1;
        }
        if same {
            assert(whole@.subrange(at as int, at + part@.len()) =~= part@);
            assert(occurs_at(whole@, part@, at as int));
            return true;
        }
        proof {
            let k = choose|k: int| 0 <= k < part@.len() && #[trigger] whole@[at + k] != part@[k];
            assert(whole@.subrange(at as int, at + part@.len())[k] != part@[k]);
            assert(!occurs_at(whole@, part@, at as int));
        }
        if at == last {
            return false;
        }
        at = at + 1;
    }
}

/// Whether `a` comes before `b`: at the first place where they differ `a` has the
/// lower code point, or `a` ends first.
pub open spec fn before(a: Seq<char>, b: Seq<char>) -> bool
    decreases a.len(),
{
    if b.len() == 0 {
        false
    } else if a.len() == 0 {
        true
    } else if a[0] != b[0] {
        a[0] < b[0]
    } else {
        before(a.drop_first(), b.drop_first())
    }
}

/// Whether `a` comes before `b` by code points.
pub fn chars_before(a: &Vec<char>, b: &Vec<char>) -> (r: bool)
    ensures
        r == before(a@, b@),
{
    let mut i: usize = 0;
    assert(a@.skip(0) =~= a@);
    assert(b@.skip(0) =~= b@);
    loop
        invariant
            i <= a@.len(),
            i <= b@.len(),
            before(a@, b@) == before(a@.skip(i as int), b@.skip(i as int)),
        decreases a@.len() - i,
    {
        if i == b.len() {
            return false;
        }
        if i == a.len() {
            return true;
        }
        if a[i] != b[i] {
            return a[i] < b[i];
        }
        assert(a@.skip(i as int).drop_first() =~= a@.skip(i + 1));
        assert(b@.skip(i as int).drop_first() =~= b@.skip(i + 1));
        i = i + 1;
    }
}

/// The order of texts is total, and no text comes before itself.
pub proof fn lemma_before_total(a: Seq<char>, b: Seq<char>)
    ensures
        a == b ==> !before(a, b),
        a != b ==> (before(a, b) <==> !before(b, a)),
    decreases a.len(),
{
    if a.len() > 0 && b.len() > 0 {
        lemma_before_total(a.drop_first(), b.drop_first());
        if a.drop_first() == b.drop_first() && a[0] == b[0] {
            assert(a =~= seq![a[0]] + a.drop_first());
            assert(b =~= seq![b[0]] + b.drop_first());
        }
    } else if a.len() == 0 && b.len() == 0 {
        assert(a =~= b);
    }
}

/// The order of texts is transitive.
pub proof fn lemma_before_transitive(a: Seq<char>, b: Seq<char>, c: Seq<char>)
    requires
        before(a, b),
        before(b, c),
    ensures
        before(a, c),
    decreases a.len(),
{
    if a.len() > 0 && a[0] == b[0] && b[0] == c[0] {
        lemma_before_transitive(a.drop_first(), b.drop_first(), c.drop_first());
    }
}

/// Changing case changes ASCII letters and nothing else, each to the letter it belongs
/// to.
pub proof fn law_case_of_letters(s: Seq<char>, i: int)
    requires
        0 <= i < s.len(),
    ensures
        lowered(s).len() == s.len(),
        uppered(s).len() == s.len(),
        65 <= s[i] as u32 <= 90 ==> lowered(s)[i] as u32 == s[i] as u32 + 32,
        !(65 <= s[i] as u32 <= 90) ==> lowered(s)[i] == s[i],
        97 <= s[i] as u32 <= 122 ==> uppered(s)[i] as u32 == s[i] as u32 - 32,
        !(97 <= s[i] as u32 <= 122) ==> uppered(s)[i] == s[i],
{
    let n = s[i] as u32;
    if 65 <= n <= 90 {
        assert(((n + 32) as char) as u32 == n + 32);
    }
    if 97 <= n <= 122 {
        assert(((n - 32) as char) as u32 == n - 32);
    }
}

/// The number that decimal digits stand for.
pub open spec fn number_in(s: Seq<char>) -> int
    decreases s.len(),
{
    if s.len() == 0 {
        0
    } else {
        10 * number_in(s.drop_last()) + (s.last() as u32 - 48)
    }
}

/// A number in decimal reads back as that number; it is made of digits, and does not
/// start with a zero unless it is zero.
pub proof fn law_decimals_read_back(n: nat)
    ensures
        number_in(decimal(n)) == n,
        decimal(n).len() >= 1,
        forall|i: int| 0 <= i < decimal(n).len() ==> 48 <= #[trigger] decimal(n)[i] as u32 <= 57,
        n > 0 ==> decimal(n)[0] as u32 != 48,
    decreases n,
{
    let d: nat = n % 10;
    assert(digit(d) as u32 == 48 + d) by {
        assert(((48 + d) as char) as u32 == 48 + d);
    }
    if n < 10 {
        assert(digit(n) as u32 == 48 + n);
        assert(decimal(n).drop_last() =~= Seq::empty());
        assert(decimal(n).last() == digit(n));
        assert(number_in(Seq::empty()) == 0);
    } else {
        law_decimals_read_back(n / 10);
        assert(decimal(n).drop_last() =~= decimal(n / 10));
        assert(decimal(n).last() == digit(d));
    }
}

/// A negative number is shown with a minus in front.
pub proof fn law_signs_are_shown(n: int)
    ensures
        n >= 0 ==> signed_decimal(n) == decimal(n as nat),
        n < 0 ==> signed_decimal(n).len() >= 2 && signed_decimal(n)[0] == '-' && signed_decimal(
            n,
        ).skip(1) == decimal((-n) as nat),
{
    if n < 0 {
        law_decimals_read_back((-n) as nat);
        assert(signed_decimal(n).skip(1) =~= decimal((-n) as nat));
    }
}

/// A text occurs in another exactly where all of its characters stand there in a row.
pub proof fn law_occurring_is_standing_in_a_row(whole: Seq<char>, part: Seq<char>)
    ensures
        occurs_in(whole, part) <==> exists|before: Seq<char>, after: Seq<char>|
            whole == #[trigger] (before + part + after),
{
    if occurs_in(whole, part) {
        let at = choose|at: int| occurs_at(whole, part, at);
        let before = whole.take(at);
        let after = whole.skip(at + part.len());
        assert(whole =~= before + whole.subrange(at, at + part.len()) + after);
        assert(whole == before + part + after);
    }
    if exists|before: Seq<char>, after: Seq<char>| whole == #[trigger] (before + part + after) {
        let (before, after) = choose|before: Seq<char>, after: Seq<char>|
            whole == #[trigger] (before + part + after);
        let at: int = before.len() as int;
        assert(whole.subrange(at, at + part.len()) =~= part);
        assert(occurs_at(whole, part, at));
    }
}

/// A text comes before another where it is the start of it, or has the lower character
/// at the first place where they differ.
pub proof fn law_order_is_by_the_first_difference(a: Seq<char>, b: Seq<char>)
    ensures
        before(a, b) <==> exists|k: int|
            {
                &&& 0 <= k <= a.len()
                &&& k < b.len()
                &&& #[trigger] a.take(k) == b.take(k)
                &&& k == a.len() || a[k] < b[k]
            },
    decreases a.len(),
{
    if b.len() > 0 && a.len() == 0 {
        assert(a.take(0) =~= b.take(0));
    } else if b.len() > 0 && a[0] != b[0] {
        if a[0] < b[0] {
            assert(a.take(0) =~= b.take(0));
        }
        assert forall|k: int| 0 < k <= a.len() && k < b.len() implies #[trigger] a.take(k)
            != b.take(k) by {
            assert(a.take(k)[0] == a[0] && b.take(k)[0] == b[0]);
        }
    } else if b.len() > 0 {
        let (p, q) = (a.drop_first(), b.drop_first());
        law_order_is_by_the_first_difference(p, q);
        if before(p, q) {
            let k = choose|k: int|
                {
                    &&& 0 <= k <= p.len()
                    &&& k < q.len()
                    &&& #[trigger] p.take(k) == q.take(k)
                    &&& k == p.len() || p[k] < q[k]
                };
            assert forall|i: int| 0 <= i < k + 1 implies #[trigger] a.take(k + 1)[i]
                == b.take(k + 1)[i] by {
                if i > 0 {
                    assert(p.take(k)[i - 1] == q.take(k)[i - 1]);
                }
            }
            assert(a.take(k + 1) =~= b.take(k + 1));
        }
        if exists|k: int|
            {
                &&& 0 <= k <= a.len()
                &&& k < b.len()
                &&& #[trigger] a.take(k) == b.take(k)
                &&& k == a.len() || a[k] < b[k]
            } {
            let k = choose|k: int|
                {
                    &&& 0 <= k <= a.len()
                    &&& k < b.len()
                    &&& #[trigger] a.take(k) == b.take(k)
                    &&& k == a.len() || a[k] < b[k]
                };
            assert(k > 0);
            assert forall|i: int| 0 <= i < k - 1 implies #[trigger] p.take(k - 1)[i]
                == q.take(k - 1)[i] by {
                assert(a.take(k)[i + 1] == b.take(k)[i + 1]);
            }
            assert(p.take(k - 1) =~= q.take(k - 1));
        }
    }
}

/// A shape is shown in square brackets, its numbers in order with a comma and a blank
/// between them.
pub proof fn law_shapes_are_listed(shape: Seq<i64>, n: int)
    requires
        1 <= n < shape.len(),
    ensures
        shape_shown(shape) == "["@ + listed(shape, shape.len() as int) + "]"@,
        listed(shape, 0) == Seq::<char>::empty(),
        listed(shape, 1) == signed_decimal(shape[0] as int),
        listed(shape, n + 1) == listed(shape, n) + ", "@ + signed_decimal(shape[n] as int),
{
}

} // verus!

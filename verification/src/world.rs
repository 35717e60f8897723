//! World files: the georeferencing sidecar that upscalers normally throw away.
//!
//! A world file pins an image to map coordinates with six affine coefficients.
//! Upscaling changes the pixel size, so carrying the sidecar across unchanged
//! would misplace the map. Rewriting it is cheap, and it is the difference
//! between output a GIS can open and output it cannot.
//!
//! How a number is read, shown and divided is left to the caller; which number
//! stands on which line, and what becomes of it, is settled here.

use vstd::prelude::*;
use vstd::string::*;

use crate::text;

verus! {

/// The six affine coefficients, in world-file line order.
///
/// The mapping is `x = a*col + b*row + c` and `y = d*col + e*row + f`, where
/// `col`/`row` index pixel *centres* from the upper-left pixel at (0, 0).
#[derive(Debug, Clone, Copy, PartialEq)]
pub struct WorldFile<T> {
    /// Line 1: pixel width in x.
    pub a: T,
    /// Line 2: row rotation (y-component of column step).
    pub d: T,
    /// Line 3: column rotation (x-component of row step).
    pub b: T,
    /// Line 4: pixel height in y, conventionally negative.
    pub e: T,
    /// Line 5: x of the upper-left pixel centre.
    pub c: T,
    /// Line 6: y of the upper-left pixel centre.
    pub f: T,
}

/// Why a text is not a world file.
#[derive(Debug, Clone, PartialEq, Eq)]
pub enum WorldError {
    /// A line is not a number.
    BadNumber { line: String },
    /// There are fewer than six numbers.
    TooFew { found: usize },
}

/// The characters that Unicode counts as white space.
pub open spec fn is_space(c: char) -> bool {
    let n = c as u32;
    ||| 0x9 <= n <= 0xd
    ||| n == 0x20
    ||| n == 0x85
    ||| n == 0xa0
    ||| n == 0x1680
    ||| 0x2000 <= n <= 0x200a
    ||| n == 0x2028
    ||| n == 0x2029
    ||| n == 0x202f
    ||| n == 0x205f
    ||| n == 0x3000
}

fn space(c: char) -> (r: bool)
    ensures
        r == is_space(c),
{
    let n: u32 = c as u32;
    (0x9 <= n && n <= 0xd) || n == 0x20 || n == 0x85 || n == 0xa0 || n == 0x1680 || (0x2000 <= n
        && n <= 0x200a) || n == 0x2028 || n == 0x2029 || n == 0x202f || n == 0x205f || n == 0x3000
}

/// Text without the white space it starts with.
pub open spec fn trim_start(s: Seq<char>) -> Seq<char>
    decreases s.len(),
{
    if s.len() > 0 && is_space(s[0]) {
        trim_start(s.drop_first())
    } else {
        s
    }
}

/// Text without the white space it ends with.
pub open spec fn trim_end(s: Seq<char>) -> Seq<char>
    decreases s.len(),
{
    if s.len() > 0 && is_space(s.last()) {
        trim_end(s.drop_last())
    } else {
        s
    }
}

/// Text without white space around it.
pub open spec fn trimmed(s: Seq<char>) -> Seq<char> {
    trim_end(trim_start(s))
}

fn trim(s: &Vec<char>) -> (t: Vec<char>)
    ensures
        t@ == trimmed(s@),
{
    let mut from: usize = 0;
    assert(s@.skip(0) =~= s@);
    while from < s.len() && space(s[from])
        invariant
            from <= s@.len(),
            trim_start(s@) == trim_start(s@.skip(from as int)),
        decreases s@.len() - from,
    {
        assert(s@.skip(from as int).drop_first() =~= s@.skip(from + 1));
        from = from + 1;
    }
    let mut to: usize = s.len();
    assert(trim_start(s@) == s@.skip(from as int));
    assert(s@.subrange(from as int, to as int) =~= s@.skip(from as int));
    while from < to && space(s[to - 1])
        invariant
            from <= to <= s@.len(),
            trimmed(s@) == trim_end(s@.subrange(from as int, to as int)),
        decreases to,
    {
        assert(s@.subrange(from as int, to as int).drop_last() =~= s@.subrange(
            from as int,
            to - 1,
        ));
        to = to - 1;
    }
    let ghost kept = s@.subrange(from as int, to as int);
    assert(trimmed(s@) == kept);
    let mut t: Vec<char> = Vec::new();
    let mut i: usize = from;
    while i < to
        invariant
            from <= i <= to <= s@.len(),
            t@ == s@.subrange(from as int, i as int),
        decreases to - i,
    {
        t.push(s[i]);
        i = i + 1;
        assert(t@ =~= s@.subrange(from as int, i as int));
    }
    t
}

/// Text cut at its line breaks; the part after the last counts, even when empty.
pub open spec fn lines_of(s: Seq<char>) -> Seq<Seq<char>>
    decreases s.len(),
{
    if s.len() == 0 {
        seq![Seq::empty()]
    } else {
        let before = lines_of(s.drop_last());
        if s.last() == '\n' {
            before.push(Seq::empty())
        } else {
            before.drop_last().push(before.last().push(s.last()))
        }
    }
}

/// What is left of `lines` once each is trimmed and blank ones are dropped.
pub open spec fn contents(lines: Seq<Seq<char>>) -> Seq<Seq<char>>
    decreases lines.len(),
{
    if lines.len() == 0 {
        Seq::empty()
    } else {
        let before = contents(lines.drop_last());
        if trimmed(lines.last()).len() > 0 {
            before.push(trimmed(lines.last()))
        } else {
            before
        }
    }
}

/// There is always a last line.
proof fn lemma_some_line(s: Seq<char>)
    ensures
        lines_of(s).len() > 0,
    decreases s.len(),
{
    if s.len() > 0 {
        lemma_some_line(s.drop_last());
    }
}

/// Whether `number` can read `line` as `out`.
pub open spec fn reads<T, N: Fn(&str) -> Option<T>>(
    number: N,
    line: Seq<char>,
    out: Option<T>,
) -> bool {
    exists|s: &str| s@ == line && #[trigger] call_ensures(number, (s,), out)
}

/// Whether `number` can read the first `n` of `lines` as `values`.
pub open spec fn all_read<T, N: Fn(&str) -> Option<T>>(
    number: N,
    lines: Seq<Seq<char>>,
    values: Seq<T>,
) -> bool {
    &&& values.len() <= lines.len()
    &&& forall|i: int|
        0 <= i < values.len() ==> reads(number, lines[i], Some(#[trigger] values[i]))
}

/// Whether reading `source` can give `r`: lines that are not blank are read from
/// the top, the first that is no number is reported, then a shortage of numbers;
/// the first six are the coefficients.
pub open spec fn parses<T, N: Fn(&str) -> Option<T>>(
    source: Seq<char>,
    number: N,
    r: Result<WorldFile<T>, WorldError>,
) -> bool {
    let lines = contents(lines_of(source));
    exists|values: Seq<T>| #[trigger]
        all_read(number, lines, values) && match r {
            Ok(w) => {
                &&& values.len() == lines.len()
                &&& values.len() >= 6
                &&& values[0] == w.a
                &&& values[1] == w.d
                &&& values[2] == w.b
                &&& values[3] == w.e
                &&& values[4] == w.c
                &&& values[5] == w.f
            },
            Err(WorldError::BadNumber { line }) => {
                &&& values.len() < lines.len()
                &&& line@ == lines[values.len() as int]
                &&& reads(number, line@, None)
            },
            Err(WorldError::TooFew { found }) => {
                &&& values.len() == lines.len()
                &&& found == values.len()
                &&& found < 6
            },
        }
}

/// Read one more line: skip it when blank, otherwise read a number.
///
/// Returns the line when it is no number.
fn read_line<T, N: Fn(&str) -> Option<T>>(
    line: &Vec<char>,
    number: &N,
    values: &mut Vec<T>,
) -> (bad: Option<String>)
    requires
        forall|s: &str| #[trigger] call_requires(number, (s,)),
    ensures
        match bad {
            Some(l) => {
                &&& l@ == trimmed(line@)
                &&& l@.len() > 0
                &&& reads(*number, l@, None)
                &&& final(values)@ == old(values)@
            },
            None => if trimmed(line@).len() == 0 {
                final(values)@ == old(values)@
            } else {
                &&& final(values)@.len() == old(values)@.len() + 1
                &&& final(values)@.drop_last() == old(values)@
                &&& reads(*number, trimmed(line@), Some(final(values)@.last()))
            },
        },
{
    let t = trim(line);
    if t.len() == 0 {
        return None;
    }
    let shown = text::string_of(&t);
    let read = number(shown.as_str());
    match read {
        None => Some(shown),
        Some(v) => {
            values.push(v);
            assert(values@.drop_last() =~= old(values)@);
            None
        },
    }
}

impl<T: Copy> WorldFile<T> {
    /// Read a world file. `number` reads one line.
    pub fn parse<N: Fn(&str) -> Option<T>>(source: &str, number: &N) -> (r: Result<
        Self,
        WorldError,
    >)
        requires
            forall|s: &str| #[trigger] call_requires(number, (s,)),
        ensures
            parses(source@, *number, r),
    {
        let chars = text::chars_of(source);
        let ghost all = lines_of(source@);
        let mut values: Vec<T> = Vec::new();
        let mut line: Vec<char> = Vec::new();
        let mut i: usize = 0;
        proof {
            assert(lines_of(chars@.take(0)) =~= seq![Seq::empty()]);
            assert(lines_of(chars@.take(0)).drop_last() =~= Seq::empty());
        }
        while i < chars.len()
            invariant
                chars@ == source@,
                all == lines_of(source@),
                i <= chars@.len(),
                forall|s: &str| #[trigger] call_requires(number, (s,)),
                lines_of(chars@.take(i as int)).len() > 0,
                line@ == lines_of(chars@.take(i as int)).last(),
                values@.len() == contents(lines_of(chars@.take(i as int)).drop_last()).len(),
                all_read(*number, contents(lines_of(chars@.take(i as int)).drop_last()), values@),
            decreases chars@.len() - i,
        {
            let ghost seen = lines_of(chars@.take(i as int));
            let ghost next = lines_of(chars@.take(i + 1));
            let c = chars[i];
            proof {
                assert(chars@.take(i + 1).drop_last() =~= chars@.take(i as int));
            }
            if c == '\n' {
                let ghost before = values@;
                let bad = read_line(&line, number, &mut values);
                proof {
                    assert(next =~= seen.push(Seq::empty()));
                    assert(next.drop_last() =~= seen);
                    lemma_contents_step(*number, seen, before, values@);
                }
                if let Some(l) = bad {
                    proof {
                        lemma_lines_prefix(chars@, i + 1);
                        lemma_contents_prefix(all, seen.len() as int);
                        assert(all.take(seen.len() as int) =~= seen);
                        lemma_read_prefix(
                            *number,
                            contents(seen),
                            contents(all),
                            values@,
                        );
                        assert(parses::<T, N>(
                            source@,
                            *number,
                            Err(WorldError::BadNumber { line: l }),
                        ));
                    }
                    return Err(WorldError::BadNumber { line: l });
                }
                line = Vec::new();
            } else {
                line.push(c);
                proof {
                    assert(next =~= seen.drop_last().push(seen.last().push(c)));
                    assert(next.drop_last() =~= seen.drop_last());
                }
            }
            i = i + 1;
        }
        let ghost before = values@;
        let bad = read_line(&line, number, &mut values);
        proof {
            assert(chars@.take(i as int) =~= source@);
            lemma_contents_step(*number, all, before, values@);
        }
        if let Some(l) = bad {
            proof {
                assert(all_read(*number, contents(all), values@));
            }
            return Err(WorldError::BadNumber { line: l });
        }
        let n: usize = values.len();
        if n < 6 {
            return Err(WorldError::TooFew { found: n });
        }
        Ok(
            WorldFile {
                a: values[0],
                d: values[1],
                b: values[2],
                e: values[3],
                c: values[4],
                f: values[5],
            },
        )
    }
}

/// Reading the last of `lines`, all others having been read.
proof fn lemma_contents_step<T, N: Fn(&str) -> Option<T>>(
    number: N,
    lines: Seq<Seq<char>>,
    before: Seq<T>,
    after: Seq<T>,
)
    requires
        lines.len() > 0,
        before.len() == contents(lines.drop_last()).len(),
        all_read(number, contents(lines.drop_last()), before),
        after == before || {
            &&& trimmed(lines.last()).len() > 0
            &&& after.len() == before.len() + 1
            &&& after.drop_last() == before
            &&& reads(number, trimmed(lines.last()), Some(after.last()))
        },
    ensures
        all_read(number, contents(lines), after),
        after != before || trimmed(lines.last()).len() == 0 ==> after.len() == contents(lines).len(),
        after == before && trimmed(lines.last()).len() > 0 ==> {
            &&& after.len() + 1 == contents(lines).len()
            &&& contents(lines)[after.len() as int] == trimmed(lines.last())
        },
{
    let part = contents(lines.drop_last());
    assert forall|i: int| 0 <= i < after.len() implies reads(
        number,
        contents(lines)[i],
        Some(#[trigger] after[i]),
    ) by {
        if i < before.len() {
            assert(before[i] == after[i]);
            assert(contents(lines)[i] == part[i]);
        }
    }
}

/// Lines that are finished are not touched by what follows.
proof fn lemma_lines_prefix(s: Seq<char>, n: int)
    requires
        0 < n <= s.len(),
        s[n - 1] == '\n',
    ensures
        lines_of(s.take(n)).len() <= lines_of(s).len(),
        lines_of(s).take(lines_of(s.take(n)).len() - 1) == lines_of(s.take(n)).drop_last(),
    decreases s.len(),
{
    let k: int = lines_of(s.take(n)).len() - 1;
    lemma_some_line(s.take(n));
    if n == s.len() {
        assert(s.take(n) =~= s);
        assert(lines_of(s).take(k) =~= lines_of(s).drop_last());
    } else {
        let p = s.drop_last();
        assert(p.take(n) =~= s.take(n));
        lemma_lines_prefix(p, n);
        assert(lines_of(p).take(k) =~= lines_of(s).take(k));
    }
}

/// What is left of the first `n` lines is what all lines start with.
proof fn lemma_contents_prefix(lines: Seq<Seq<char>>, n: int)
    requires
        0 <= n <= lines.len(),
    ensures
        contents(lines.take(n)).len() <= contents(lines).len(),
        contents(lines).take(contents(lines.take(n)).len() as int) == contents(lines.take(n)),
    decreases lines.len(),
{
    let k: int = contents(lines.take(n)).len() as int;
    if n == lines.len() {
        assert(lines.take(n) =~= lines);
        assert(contents(lines).take(k) =~= contents(lines));
    } else {
        let p = lines.drop_last();
        assert(p.take(n) =~= lines.take(n));
        lemma_contents_prefix(p, n);
        assert(contents(lines).take(k) =~= contents(p).take(k));
    }
}

/// What was read of the lines at the start was read of all lines.
proof fn lemma_read_prefix<T, N: Fn(&str) -> Option<T>>(
    number: N,
    part: Seq<Seq<char>>,
    whole: Seq<Seq<char>>,
    values: Seq<T>,
)
    requires
        part.len() <= whole.len(),
        whole.take(part.len() as int) == part,
        all_read(number, part, values),
    ensures
        all_read(number, whole, values),
        values.len() < part.len() ==> whole[values.len() as int] == part[values.len() as int],
{
    assert forall|i: int| 0 <= i < part.len() implies #[trigger] part[i] == whole[i] by {
        assert(whole.take(part.len() as int)[i] == whole[i]);
    }
}

/// Whether `show` can show `value` as `shown`.
pub open spec fn shows<T, F: Fn(T) -> String>(show: F, value: T, shown: Seq<char>) -> bool {
    exists|s: String| s@ == shown && #[trigger] call_ensures(show, (value,), s)
}

/// Whether `show` can show `values` as `lines`.
pub open spec fn all_shown<T, F: Fn(T) -> String>(
    show: F,
    values: Seq<T>,
    lines: Seq<Seq<char>>,
) -> bool {
    &&& lines.len() == values.len()
    &&& forall|i: int| 0 <= i < values.len() ==> shows(show, values[i], #[trigger] lines[i])
}

/// `lines`, each ended by a line break.
pub open spec fn joined(lines: Seq<Seq<char>>) -> Seq<char>
    decreases lines.len(),
{
    if lines.len() == 0 {
        Seq::empty()
    } else {
        (joined(lines.drop_last()) + lines.last()).push('\n')
    }
}

impl<T: Copy> WorldFile<T> {
    /// The coefficients in line order.
    pub open spec fn values(self) -> Seq<T> {
        seq![self.a, self.d, self.b, self.e, self.c, self.f]
    }

    /// Whether the world file can be written as `out`, each number on a line of its
    /// own.
    pub open spec fn writes<F: Fn(T) -> String>(self, show: F, out: Seq<char>) -> bool {
        exists|lines: Seq<Seq<char>>| #[trigger]
            all_shown(show, self.values(), lines) && out == joined(lines)
    }

    /// The text of a world file. `show` shows one number.
    pub fn to_text<F: Fn(T) -> String>(self, show: &F) -> (out: String)
        requires
            forall|v: T| #[trigger] call_requires(show, (v,)),
        ensures
            self.writes(*show, out@),
    {
        let values: [T; 6] = [self.a, self.d, self.b, self.e, self.c, self.f];
        let mut out = String::new();
        let ghost mut lines: Seq<Seq<char>> = Seq::empty();
        let mut i: usize = 0;
        while i < 6
            invariant
                forall|v: T| #[trigger] call_requires(show, (v,)),
                values@ == self.values(),
                i <= 6,
                lines.len() == i,
                all_shown(*show, values@.take(i as int), lines),
                out@ == joined(lines),
            decreases 6 - i,
        {
            let shown = show(values[i]);
            let ghost line = shown@;
            out.append(shown.as_str());
            out.push('\n');
            proof {
                let more = lines.push(line);
                assert(shows(*show, values@[i as int], line));
                assert(more.drop_last() =~= lines);
                assert(out@ =~= joined(more));
                assert forall|k: int| 0 <= k < i + 1 implies shows(
                    *show,
                    values@.take(i + 1)[k],
                    #[trigger] more[k],
                ) by {
                    if k < i {
                        assert(values@.take(i as int)[k] == values@[k]);
                        assert(shows(*show, values@.take(i as int)[k], lines[k]));
                    }
                }
                lines = more;
            }
            i = i + 1;
        }
        proof {
            assert(values@.take(6) =~= self.values());
        }
        out
    }
}

/// Whether a line reads as it stands: it is not blank, has no white space around
/// it, and no line break in it.
pub open spec fn clean(line: Seq<char>) -> bool {
    &&& line.len() > 0
    &&& trimmed(line) == line
    &&& !line.contains('\n')
}

/// Text without a line break goes on with the last line.
proof fn lemma_lines_extend(s: Seq<char>, w: Seq<char>)
    requires
        !w.contains('\n'),
    ensures
        lines_of(s + w) == lines_of(s).drop_last().push(lines_of(s).last() + w),
    decreases w.len(),
{
    lemma_some_line(s);
    if w.len() == 0 {
        assert(s + w =~= s);
        assert(lines_of(s).last() + w =~= lines_of(s).last());
        assert(lines_of(s) =~= lines_of(s).drop_last().push(lines_of(s).last()));
    } else {
        let v = w.drop_last();
        assert(w.contains(w.last()));
        assert forall|c: char| v.contains(c) implies w.contains(c) by {
            let i = v.index_of(c);
            assert(w[i] == c);
        }
        lemma_lines_extend(s, v);
        assert((s + w).drop_last() =~= s + v);
        assert((lines_of(s).last() + v).push(w.last()) =~= lines_of(s).last() + w);
        assert(lines_of(s + w) =~= lines_of(s).drop_last().push(lines_of(s).last() + w));
    }
}

/// Joined lines come apart again.
proof fn lemma_lines_joined(lines: Seq<Seq<char>>)
    requires
        forall|i: int| 0 <= i < lines.len() ==> clean(#[trigger] lines[i]),
    ensures
        lines_of(joined(lines)) == lines.push(Seq::empty()),
        contents(lines) == lines,
        contents(lines_of(joined(lines))) == lines,
    decreases lines.len(),
{
    let all = lines.push(Seq::empty());
    if lines.len() == 0 {
        assert(lines_of(joined(lines)) =~= all);
        assert(contents(lines) =~= lines);
    } else {
        let part = lines.drop_last();
        let last = lines.last();
        assert(clean(lines[lines.len() - 1]));
        lemma_lines_joined(part);
        let text = joined(part) + last;
        lemma_lines_extend(joined(part), last);
        assert(part.push(Seq::empty()).drop_last() =~= part);
        assert(Seq::<char>::empty() + last =~= last);
        assert(lines_of(text) =~= lines);
        assert(text.push('\n').drop_last() =~= text);
        assert(lines_of(joined(lines)) =~= all);
        assert(contents(lines) =~= lines);
    }
    assert(all.drop_last() =~= lines);
    assert(trimmed(Seq::<char>::empty()).len() == 0);
    assert(contents(all) == contents(lines));
}

/// A world file that is written and read again is as near to what it was as each of
/// its numbers: where every number is shown as a line that reads as a number `near`
/// it, the file reads, and its numbers are near.
pub proof fn law_round_trip_within<T: Copy, F: Fn(T) -> String, N: Fn(&str) -> Option<T>>(
    world: WorldFile<T>,
    show: F,
    number: N,
    near: spec_fn(T, T) -> bool,
    out: Seq<char>,
    r: Result<WorldFile<T>, WorldError>,
)
    requires
        forall|i: int, line: Seq<char>|
            0 <= i < 6 && #[trigger] shows(show, world.values()[i], line) ==> clean(line),
        forall|i: int, line: Seq<char>, back: Option<T>|
            #![trigger shows(show, world.values()[i], line), reads(number, line, back)]
            0 <= i < 6 && shows(show, world.values()[i], line) && reads(number, line, back) ==> {
                &&& back is Some
                &&& near(world.values()[i], back->0)
            },
        world.writes(show, out),
        parses(out, number, r),
    ensures
        r is Ok,
        forall|i: int|
            0 <= i < 6 ==> near(world.values()[i], #[trigger] r->Ok_0.values()[i]),
{
    let lines = choose|lines: Seq<Seq<char>>| #[trigger]
        all_shown(show, world.values(), lines) && out == joined(lines);
    assert forall|i: int| 0 <= i < lines.len() implies clean(#[trigger] lines[i]) by {
        assert(shows(show, world.values()[i], lines[i]));
    }
    lemma_lines_joined(lines);
    let values = choose|values: Seq<T>| #[trigger]
        all_read(number, lines, values) && match r {
            Ok(w) => {
                &&& values.len() == lines.len()
                &&& values.len() >= 6
                &&& values[0] == w.a
                &&& values[1] == w.d
                &&& values[2] == w.b
                &&& values[3] == w.e
                &&& values[4] == w.c
                &&& values[5] == w.f
            },
            Err(WorldError::BadNumber { line }) => {
                &&& values.len() < lines.len()
                &&& line@ == lines[values.len() as int]
                &&& reads(number, line@, None)
            },
            Err(WorldError::TooFew { found }) => {
                &&& values.len() == lines.len()
                &&& found == values.len()
                &&& found < 6
            },
        };
    assert forall|i: int| 0 <= i < values.len() implies near(
        world.values()[i],
        #[trigger] values[i],
    ) by {
        assert(shows(show, world.values()[i], lines[i]));
        assert(reads(number, lines[i], Some(values[i])));
    }
    if values.len() < 6 {
        let k: int = values.len() as int;
        assert(shows(show, world.values()[k], lines[k]));
    } else {
        assert(r->Ok_0.values() =~= values.take(6));
    }
}

/// A world file that is written and read again is the same, provided that each of
/// its numbers is shown as a line that reads as that number and no other.
pub proof fn law_round_trip<T: Copy, F: Fn(T) -> String, N: Fn(&str) -> Option<T>>(
    world: WorldFile<T>,
    show: F,
    number: N,
    out: Seq<char>,
    r: Result<WorldFile<T>, WorldError>,
)
    requires
        forall|i: int, line: Seq<char>|
            0 <= i < 6 && #[trigger] shows(show, world.values()[i], line) ==> clean(line),
        forall|i: int, line: Seq<char>, back: Option<T>|
            #![trigger shows(show, world.values()[i], line), reads(number, line, back)]
            0 <= i < 6 && shows(show, world.values()[i], line) && reads(number, line, back) ==> back
                == Some(world.values()[i]),
        world.writes(show, out),
        parses(out, number, r),
    ensures
        r == Ok::<WorldFile<T>, WorldError>(world),
{
    let same = |a: T, b: T| a == b;
    law_round_trip_within(world, show, number, same, out, r);
    let w = r->Ok_0;
    assert(same(world.values()[0], w.values()[0]));
    assert(same(world.values()[1], w.values()[1]));
    assert(same(world.values()[2], w.values()[2]));
    assert(same(world.values()[3], w.values()[3]));
    assert(same(world.values()[4], w.values()[4]));
    assert(same(world.values()[5], w.values()[5]));
}

/// How numbers are added, subtracted and divided, and the number two.
pub struct Arithmetic<T, A, S, D> {
    pub two: T,
    pub add: A,
    pub sub: S,
    pub div: D,
}

impl<T: Copy, A: Fn(T, T) -> T, S: Fn(T, T) -> T, D: Fn(T, T) -> T> Arithmetic<T, A, S, D> {
    /// Whether it can be handed any numbers.
    pub open spec fn total(self) -> bool {
        &&& forall|x: T, y: T| #[trigger] call_requires(self.add, (x, y))
        &&& forall|x: T, y: T| #[trigger] call_requires(self.sub, (x, y))
        &&& forall|x: T, y: T| #[trigger] call_requires(self.div, (x, y))
    }

    /// Whether half of `x + y` can be `h`.
    pub open spec fn halves(self, x: T, y: T, h: T) -> bool {
        exists|sum: T| #[trigger]
            call_ensures(self.add, (x, y), sum) && call_ensures(self.div, (sum, self.two), h)
    }

    /// Half of `x + y`.
    fn half(&self, x: T, y: T) -> (h: T)
        requires
            self.total(),
        ensures
            self.halves(x, y, h),
    {
        let sum = (self.add)(x, y);
        (self.div)(sum, self.two)
    }

    /// Whether the outer edge of a pixel centred at `centre`, whose steps are `x` and
    /// `y`, can be `edge`.
    pub open spec fn edges(self, centre: T, x: T, y: T, edge: T) -> bool {
        exists|h: T| #[trigger]
            self.halves(x, y, h) && call_ensures(self.sub, (centre, h), edge)
    }

    /// Whether the centre of a pixel whose steps are `x` and `y` can be `centre` when its
    /// outer edge is `edge`.
    pub open spec fn centres(self, edge: T, x: T, y: T, centre: T) -> bool {
        exists|h: T| #[trigger]
            self.halves(x, y, h) && call_ensures(self.add, (edge, h), centre)
    }

    /// Whether the first pixel of an axis can move from `old_centre`, with steps `x`
    /// and `y`, to `new_centre`, with steps `nx` and `ny`, about an outer edge that
    /// stays.
    pub open spec fn moves(self, old_centre: T, x: T, y: T, nx: T, ny: T, new_centre: T) -> bool {
        exists|edge: T| #[trigger]
            self.edges(old_centre, x, y, edge) && self.centres(edge, nx, ny, new_centre)
    }

    /// Move a pixel centre about the outer edge.
    fn moved(&self, old_centre: T, x: T, y: T, nx: T, ny: T) -> (new_centre: T)
        requires
            self.total(),
        ensures
            self.moves(old_centre, x, y, nx, ny, new_centre),
    {
        let h = self.half(x, y);
        let edge = (self.sub)(old_centre, h);
        let nh = self.half(nx, ny);
        let new_centre = (self.add)(edge, nh);
        proof {
            assert(self.edges(old_centre, x, y, edge));
            assert(self.centres(edge, nx, ny, new_centre));
        }
        new_centre
    }

    /// Whether each operation has one result, and taking away what was added gives
    /// back what there was.
    pub open spec fn exact(self) -> bool {
        &&& forall|x: T, y: T, a: T, b: T|
            #[trigger] call_ensures(self.add, (x, y), a) && #[trigger] call_ensures(
                self.add,
                (x, y),
                b,
            ) ==> a == b
        &&& forall|x: T, y: T, a: T, b: T|
            #[trigger] call_ensures(self.div, (x, y), a) && #[trigger] call_ensures(
                self.div,
                (x, y),
                b,
            ) ==> a == b
        &&& forall|x: T, y: T, sum: T, back: T|
            #[trigger] call_ensures(self.add, (x, y), sum) && #[trigger] call_ensures(
                self.sub,
                (sum, y),
                back,
            ) ==> back == x
    }
}

impl<T: Copy> WorldFile<T> {
    /// Whether `out` can be this world file for an image magnified by `scale`: every
    /// step is divided, and the first pixel moves about the outer corner.
    pub open spec fn scales<A: Fn(T, T) -> T, S: Fn(T, T) -> T, D: Fn(T, T) -> T>(
        self,
        scale: T,
        ops: Arithmetic<T, A, S, D>,
        out: Self,
    ) -> bool {
        &&& call_ensures(ops.div, (self.a, scale), out.a)
        &&& call_ensures(ops.div, (self.b, scale), out.b)
        &&& call_ensures(ops.div, (self.d, scale), out.d)
        &&& call_ensures(ops.div, (self.e, scale), out.e)
        &&& ops.moves(self.c, self.a, self.b, out.a, out.b, out.c)
        &&& ops.moves(self.f, self.d, self.e, out.d, out.e, out.f)
    }

    /// Whether the outer corner of the image can be at (`x`, `y`).
    pub open spec fn corner<A: Fn(T, T) -> T, S: Fn(T, T) -> T, D: Fn(T, T) -> T>(
        self,
        ops: Arithmetic<T, A, S, D>,
        x: T,
        y: T,
    ) -> bool {
        &&& ops.edges(self.c, self.a, self.b, x)
        &&& ops.edges(self.f, self.d, self.e, y)
    }

    /// Adjust for an image magnified by `scale`.
    ///
    /// Pixels shrink by `scale`, and the upper-left pixel *centre* moves inward
    /// by the shrinkage, because the outer corner of the image is what stays
    /// fixed on the map.
    pub fn scaled<A: Fn(T, T) -> T, S: Fn(T, T) -> T, D: Fn(T, T) -> T>(
        self,
        scale: T,
        ops: &Arithmetic<T, A, S, D>,
    ) -> (out: Self)
        requires
            ops.total(),
        ensures
            self.scales(scale, *ops, out),
    {
        let a = (ops.div)(self.a, scale);
        let b = (ops.div)(self.b, scale);
        let d = (ops.div)(self.d, scale);
        let e = (ops.div)(self.e, scale);
        let c = ops.moved(self.c, self.a, self.b, a, b);
        let f = ops.moved(self.f, self.d, self.e, d, e);
        WorldFile { a, d, b, e, c, f }
    }
}

/// Magnifying an image leaves its outer corner where it was on the map, where
/// numbers are exact.
pub proof fn law_corner_stays<
    T: Copy,
    A: Fn(T, T) -> T,
    S: Fn(T, T) -> T,
    D: Fn(T, T) -> T,
>(
    world: WorldFile<T>,
    scale: T,
    ops: Arithmetic<T, A, S, D>,
    out: WorldFile<T>,
    x: T,
    y: T,
)
    requires
        ops.exact(),
        world.scales(scale, ops, out),
        out.corner(ops, x, y),
    ensures
        world.corner(ops, x, y),
{
    lemma_edge_stays(ops, world.c, world.a, world.b, out.a, out.b, out.c, x);
    lemma_edge_stays(ops, world.f, world.d, world.e, out.d, out.e, out.f, y);
}

/// A centre that moved about an edge has that edge.
proof fn lemma_edge_stays<
    T: Copy,
    A: Fn(T, T) -> T,
    S: Fn(T, T) -> T,
    D: Fn(T, T) -> T,
>(
    ops: Arithmetic<T, A, S, D>,
    old_centre: T,
    x: T,
    y: T,
    nx: T,
    ny: T,
    new_centre: T,
    edge: T,
)
    requires
        ops.exact(),
        ops.moves(old_centre, x, y, nx, ny, new_centre),
        ops.edges(new_centre, nx, ny, edge),
    ensures
        ops.edges(old_centre, x, y, edge),
{
    let kept = choose|kept: T| #[trigger]
        ops.edges(old_centre, x, y, kept) && ops.centres(kept, nx, ny, new_centre);
    let h = choose|h: T| #[trigger]
        ops.halves(nx, ny, h) && call_ensures(ops.add, (kept, h), new_centre);
    let k = choose|k: T| #[trigger]
        ops.halves(nx, ny, k) && call_ensures(ops.sub, (new_centre, k), edge);
    let p = choose|sum: T| #[trigger]
        call_ensures(ops.add, (nx, ny), sum) && call_ensures(ops.div, (sum, ops.two), h);
    let q = choose|sum: T| #[trigger]
        call_ensures(ops.add, (nx, ny), sum) && call_ensures(ops.div, (sum, ops.two), k);
    assert(p == q);
    assert(h == k);
    assert(edge == kept);
}

/// What was scaled on the map is worked out about the outer corner: every step is divided
/// by the magnification, and the centre of the first pixel moves from half an old step
/// past the corner to half a new one, along both axes. A step has a part along each.
pub proof fn law_scaling_is_about_the_corner<
    T: Copy,
    A: Fn(T, T) -> T,
    S: Fn(T, T) -> T,
    D: Fn(T, T) -> T,
>(
    world: WorldFile<T>,
    scale: T,
    ops: Arithmetic<T, A, S, D>,
    out: WorldFile<T>,
)
    requires
        world.scales(scale, ops, out),
    ensures
        call_ensures(ops.div, (world.a, scale), out.a),
        call_ensures(ops.div, (world.b, scale), out.b),
        call_ensures(ops.div, (world.d, scale), out.d),
        call_ensures(ops.div, (world.e, scale), out.e),
        exists|step: T, half: T, corner: T, new_step: T, new_half: T|
            {
                &&& #[trigger] call_ensures(ops.add, (world.a, world.b), step)
                &&& #[trigger] call_ensures(ops.div, (step, ops.two), half)
                &&& #[trigger] call_ensures(ops.sub, (world.c, half), corner)
                &&& #[trigger] call_ensures(ops.add, (out.a, out.b), new_step)
                &&& #[trigger] call_ensures(ops.div, (new_step, ops.two), new_half)
                &&& call_ensures(ops.add, (corner, new_half), out.c)
            },
        exists|step: T, half: T, corner: T, new_step: T, new_half: T|
            {
                &&& #[trigger] call_ensures(ops.add, (world.d, world.e), step)
                &&& #[trigger] call_ensures(ops.div, (step, ops.two), half)
                &&& #[trigger] call_ensures(ops.sub, (world.f, half), corner)
                &&& #[trigger] call_ensures(ops.add, (out.d, out.e), new_step)
                &&& #[trigger] call_ensures(ops.div, (new_step, ops.two), new_half)
                &&& call_ensures(ops.add, (corner, new_half), out.f)
            },
{
    let (s1, h1, e1, n1, m1) = lemma_moved(ops, world.c, world.a, world.b, out.a, out.b, out.c);
    let (s2, h2, e2, n2, m2) = lemma_moved(ops, world.f, world.d, world.e, out.d, out.e, out.f);
    assert(call_ensures(ops.add, (e1, m1), out.c));
    assert(call_ensures(ops.add, (e2, m2), out.f));
}

/// The numbers on the way from one centre to the other.
proof fn lemma_moved<T: Copy, A: Fn(T, T) -> T, S: Fn(T, T) -> T, D: Fn(T, T) -> T>(
    ops: Arithmetic<T, A, S, D>,
    old_centre: T,
    x: T,
    y: T,
    nx: T,
    ny: T,
    new_centre: T,
) -> (r: (T, T, T, T, T))
    requires
        ops.moves(old_centre, x, y, nx, ny, new_centre),
    ensures
        call_ensures(ops.add, (x, y), r.0),
        call_ensures(ops.div, (r.0, ops.two), r.1),
        call_ensures(ops.sub, (old_centre, r.1), r.2),
        call_ensures(ops.add, (nx, ny), r.3),
        call_ensures(ops.div, (r.3, ops.two), r.4),
        call_ensures(ops.add, (r.2, r.4), new_centre),
{
    let edge = choose|edge: T| #[trigger]
        ops.edges(old_centre, x, y, edge) && ops.centres(edge, nx, ny, new_centre);
    let h = choose|h: T| #[trigger]
        ops.halves(x, y, h) && call_ensures(ops.sub, (old_centre, h), edge);
    let k = choose|k: T| #[trigger]
        ops.halves(nx, ny, k) && call_ensures(ops.add, (edge, k), new_centre);
    let p = choose|sum: T| #[trigger]
        call_ensures(ops.add, (x, y), sum) && call_ensures(ops.div, (sum, ops.two), h);
    let q = choose|sum: T| #[trigger]
        call_ensures(ops.add, (nx, ny), sum) && call_ensures(ops.div, (sum, ops.two), k);
    (p, h, edge, q, k)
}

/// The coefficients stand on the first six lines that are not blank, in the order pixel
/// width, the two rotations, pixel height, and the position of the first pixel; any line
/// that is no number is reported, the first of them, and so is a shortage of lines.
pub proof fn law_coefficients_stand_in_line_order<T, N: Fn(&str) -> Option<T>>(
    source: Seq<char>,
    number: N,
    r: Result<WorldFile<T>, WorldError>,
) -> (values: Seq<T>)
    requires
        parses(source, number, r),
    ensures
        values.len() <= contents(lines_of(source)).len(),
        forall|i: int|
            0 <= i < values.len() ==> reads(
                number,
                contents(lines_of(source))[i],
                Some(#[trigger] values[i]),
            ),
        r matches Ok(w) ==> {
            &&& values.len() == contents(lines_of(source)).len()
            &&& values.len() >= 6
            &&& w.a == values[0]
            &&& w.d == values[1]
            &&& w.b == values[2]
            &&& w.e == values[3]
            &&& w.c == values[4]
            &&& w.f == values[5]
        },
        r matches Err(WorldError::BadNumber { line }) ==> {
            &&& values.len() < contents(lines_of(source)).len()
            &&& line@ == contents(lines_of(source))[values.len() as int]
            &&& reads(number, line@, None)
        },
        r matches Err(WorldError::TooFew { found }) ==> {
            &&& values.len() == contents(lines_of(source)).len()
            &&& found == values.len()
            &&& found < 6
        },
{
    let lines = contents(lines_of(source));
    choose|values: Seq<T>| #[trigger]
        all_read(number, lines, values) && match r {
            Ok(w) => {
                &&& values.len() == lines.len()
                &&& values.len() >= 6
                &&& values[0] == w.a
                &&& values[1] == w.d
                &&& values[2] == w.b
                &&& values[3] == w.e
                &&& values[4] == w.c
                &&& values[5] == w.f
            },
            Err(WorldError::BadNumber { line }) => {
                &&& values.len() < lines.len()
                &&& line@ == lines[values.len() as int]
                &&& reads(number, line@, None)
            },
            Err(WorldError::TooFew { found }) => {
                &&& values.len() == lines.len()
                &&& found == values.len()
                &&& found < 6
            },
        }
}

/// A world file is written as six lines, each ended by a line break: pixel width, the two
/// rotations, pixel height, and the position of the first pixel.
pub proof fn law_six_lines_are_written<T: Copy, F: Fn(T) -> String>(
    world: WorldFile<T>,
    show: F,
    out: Seq<char>,
) -> (lines: Seq<Seq<char>>)
    requires
        world.writes(show, out),
    ensures
        lines.len() == 6,
        shows(show, world.a, lines[0]),
        shows(show, world.d, lines[1]),
        shows(show, world.b, lines[2]),
        shows(show, world.e, lines[3]),
        shows(show, world.c, lines[4]),
        shows(show, world.f, lines[5]),
        out == lines[0] + seq!['\n'] + lines[1] + seq!['\n'] + lines[2] + seq!['\n'] + lines[3]
            + seq!['\n'] + lines[4] + seq!['\n'] + lines[5] + seq!['\n'],
{
    let lines = choose|lines: Seq<Seq<char>>| #[trigger]
        all_shown(show, world.values(), lines) && out == joined(lines);
    assert(shows(show, world.values()[0], lines[0]));
    assert(shows(show, world.values()[1], lines[1]));
    assert(shows(show, world.values()[2], lines[2]));
    assert(shows(show, world.values()[3], lines[3]));
    assert(shows(show, world.values()[4], lines[4]));
    assert(shows(show, world.values()[5], lines[5]));
    lemma_joined_step(lines, 1);
    lemma_joined_step(lines, 2);
    lemma_joined_step(lines, 3);
    lemma_joined_step(lines, 4);
    lemma_joined_step(lines, 5);
    lemma_joined_step(lines, 6);
    assert(lines.take(6) =~= lines);
    assert(joined(lines.take(0)) =~= Seq::empty());
    assert(out =~= lines[0] + seq!['\n'] + lines[1] + seq!['\n'] + lines[2] + seq!['\n'] + lines[3]
        + seq!['\n'] + lines[4] + seq!['\n'] + lines[5] + seq!['\n']);
    lines
}

/// One more line is joined on.
proof fn lemma_joined_step(lines: Seq<Seq<char>>, n: int)
    requires
        1 <= n <= lines.len(),
    ensures
        joined(lines.take(n)) == joined(lines.take(n - 1)) + lines[n - 1] + seq!['\n'],
{
    assert(lines.take(n).drop_last() =~= lines.take(n - 1));
    assert(joined(lines.take(n)) =~= joined(lines.take(n - 1)) + lines[n - 1] + seq!['\n']);
}

/// Lines are what stands between line breaks: none has one in it, and put together again,
/// with a line break behind each but the last, they are the text.
pub proof fn law_lines_make_up_the_text(s: Seq<char>)
    ensures
        lines_of(s).len() >= 1,
        forall|i: int| 0 <= i < lines_of(s).len() ==> !(#[trigger] lines_of(s)[i]).contains('\n'),
        joined(lines_of(s).drop_last()) + lines_of(s).last() == s,
    decreases s.len(),
{
    lemma_some_line(s);
    if s.len() == 0 {
        assert(joined(lines_of(s).drop_last()) + lines_of(s).last() =~= s);
    } else {
        let p = s.drop_last();
        let c = s.last();
        let lines = lines_of(p);
        lemma_some_line(p);
        law_lines_make_up_the_text(p);
        assert(s =~= p.push(c));
        if c == '\n' {
            assert(lines_of(s).drop_last() =~= lines);
            assert(joined(lines) + Seq::<char>::empty() =~= joined(lines));
            assert(joined(lines) =~= (joined(lines.drop_last()) + lines.last()).push('\n'));
            assert forall|i: int| 0 <= i < lines_of(s).len() implies !(
            #[trigger] lines_of(s)[i]).contains('\n') by {
                if i < lines.len() {
                    assert(lines_of(s)[i] == lines[i]);
                }
            }
        } else {
            let longer = lines.last().push(c);
            assert(lines_of(s).drop_last() =~= lines.drop_last());
            assert(joined(lines.drop_last()) + longer =~= (joined(lines.drop_last())
                + lines.last()).push(c));
            assert forall|i: int| 0 <= i < lines_of(s).len() implies !(
            #[trigger] lines_of(s)[i]).contains('\n') by {
                if i < lines.len() - 1 {
                    assert(lines_of(s)[i] == lines[i]);
                } else {
                    let last = lines[lines.len() - 1];
                    assert(!last.contains('\n'));
                    assert forall|j: int| 0 <= j < longer.len() implies longer[j] != '\n' by {
                        if j < last.len() {
                            assert(last.contains(last[j]));
                        }
                    }
                }
            }
        }
    }
}

/// What counts of the lines is every one of them, in order, without the white space
/// around it, but for those that then are empty.
pub proof fn law_blank_lines_do_not_count(lines: Seq<Seq<char>>)
    ensures
        contents(lines) == lines.map_values(|l: Seq<char>| trimmed(l)).filter(
            |l: Seq<char>| l.len() > 0,
        ),
    decreases lines.len(),
{
    let cut = |l: Seq<char>| trimmed(l);
    let some = |l: Seq<char>| l.len() > 0;
    let all = lines.map_values(cut);
    reveal(Seq::filter);
    if lines.len() == 0 {
        assert(all.filter(some) =~= Seq::empty());
    } else {
        law_blank_lines_do_not_count(lines.drop_last());
        assert(all.drop_last() =~= lines.drop_last().map_values(cut));
        assert(all.last() == trimmed(lines.last()));
    }
}

/// Trimming takes white space off both ends and nothing else, and leaves none there.
pub proof fn law_trimming_takes_white_space(s: Seq<char>) -> (r: (int, int))
    ensures
        0 <= r.0 <= r.1 <= s.len(),
        trimmed(s) == s.subrange(r.0, r.1),
        forall|i: int| 0 <= i < r.0 || r.1 <= i < s.len() ==> is_space(#[trigger] s[i]),
        r.0 < r.1 ==> !is_space(s[r.0]) && !is_space(s[r.1 - 1]),
{
    let a = lemma_trim_start(s);
    let t = trim_start(s);
    let b = lemma_trim_end(t);
    assert(trimmed(s) =~= s.subrange(a, a + b));
    assert forall|i: int| 0 <= i < a || a + b <= i < s.len() implies is_space(#[trigger] s[i]) by {
        if i >= a + b {
            assert(t[i - a] == s[i]);
        }
    }
    if b > 0 {
        assert(t[0] == s[a] && t[b - 1] == s[a + b - 1]);
    }
    (a, a + b)
}

proof fn lemma_trim_start(s: Seq<char>) -> (n: int)
    ensures
        0 <= n <= s.len(),
        trim_start(s) == s.skip(n),
        forall|i: int| 0 <= i < n ==> is_space(#[trigger] s[i]),
        n < s.len() ==> !is_space(s[n]),
    decreases s.len(),
{
    if s.len() > 0 && is_space(s[0]) {
        let p = s.drop_first();
        let n = lemma_trim_start(p);
        assert(p.skip(n) =~= s.skip(n + 1));
        assert forall|i: int| 0 <= i < n + 1 implies is_space(#[trigger] s[i]) by {
            if i > 0 {
                assert(p[i - 1] == s[i]);
            }
        }
        n + 1
    } else {
        assert(s.skip(0) =~= s);
        0
    }
}

proof fn lemma_trim_end(s: Seq<char>) -> (n: int)
    ensures
        0 <= n <= s.len(),
        trim_end(s) == s.take(n),
        forall|i: int| n <= i < s.len() ==> is_space(#[trigger] s[i]),
        n > 0 ==> !is_space(s[n - 1]),
    decreases s.len(),
{
    if s.len() > 0 && is_space(s.last()) {
        let p = s.drop_last();
        let n = lemma_trim_end(p);
        assert(p.take(n) =~= s.take(n));
        assert forall|i: int| n <= i < s.len() implies is_space(#[trigger] s[i]) by {
            if i < p.len() {
                assert(p[i] == s[i]);
            }
        }
        n
    } else {
        assert(s.take(s.len() as int) =~= s);
        s.len() as int
    }
}

/// Among the ASCII characters white space is the blank and the five from tab to carriage
/// return, so no digit, letter or sign is taken for it.
pub proof fn law_white_space_is_no_sign(c: char)
    requires
        c as u32 <= 127,
    ensures
        is_space(c) <==> c as u32 == 32 || 9 <= c as u32 <= 13,
{
}

/// A number is read off a line as it stands, and shown as a line as it stands.
pub proof fn law_lines_are_read_as_they_stand<T, N: Fn(&str) -> Option<T>, F: Fn(T) -> String>(
    number: N,
    show: F,
    line: Seq<char>,
    value: T,
    read: Option<T>,
)
    ensures
        reads(number, line, read) <==> exists|s: &str|
            s@ == line && #[trigger] call_ensures(number, (s,), read),
        shows(show, value, line) <==> exists|s: String|
            s@ == line && #[trigger] call_ensures(show, (value,), s),
{
}

} // verus!

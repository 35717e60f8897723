//! Where the world file of an image is looked for.

use vstd::prelude::*;
use vstd::string::*;

use crate::text;

verus! {

/// The texts that `v` holds.
pub open spec fn texts(v: Seq<String>) -> Seq<Seq<char>> {
    v.map_values(|s: String| s@)
}

/// The text in `s`, if there is one.
pub open spec fn text_in(s: Option<String>) -> Option<Seq<char>> {
    match s {
        Some(s) => Some(s@),
        None => None,
    }
}

/// The first and last letter of a lower-case extension, and a `w`.
pub open spec fn short_form(ext: Seq<char>) -> Seq<char> {
    seq![ext[0], ext.last(), 'w']
}

/// The extensions that a world file may have, most conventional first, for an
/// image with the extension `ext`.
pub open spec fn extensions_for(ext: Option<Seq<char>>) -> Seq<Seq<char>> {
    match ext {
        None => seq!["wld"@],
        Some(e) => {
            let l = text::lowered(e);
            if l.len() >= 2 {
                seq![short_form(l), text::uppered(short_form(l)), l.push('w'), "wld"@]
            } else {
                seq![l.push('w'), "wld"@]
            }
        },
    }
}

/// Extensions to try for a world file, most conventional first.
///
/// The usual rule takes the first and last letter of the image extension and
/// appends `w` (`tif` -> `tfw`, `png` -> `pgw`); `wld` is accepted for anything.
pub fn sidecar_extensions(ext: Option<&str>) -> (out: Vec<String>)
    ensures
        texts(out@) == extensions_for(
            match ext {
                Some(e) => Some(e@),
                None => None,
            },
        ),
{
    let mut out: Vec<String> = Vec::new();
    if let Some(e) = ext {
        let mut l = text::lower_chars(e);
        let n: usize = l.len();
        if n >= 2 {
            let mut short: Vec<char> = Vec::new();
            short.push(l[0]);
            short.push(l[n - 1]);
            short.push('w');
            assert(short@ =~= short_form(l@));
            out.push(text::string_of(&short));
            out.push(text::string_of(&text::upper_chars(&short)));
        }
        l.push('w');
        out.push(text::string_of(&l));
    }
    out.push("wld".to_owned());
    assert(texts(out@) =~= extensions_for(
        match ext {
            Some(e) => Some(e@),
            None => None,
        },
    ));
    out
}

/// There is always somewhere to look, and `wld` comes last.
pub proof fn law_wld_comes_last(ext: Option<Seq<char>>)
    ensures
        extensions_for(ext).len() > 0,
        extensions_for(ext).last() == "wld"@,
{
}

/// The case of an image's extension does not matter.
pub proof fn law_case_does_not_matter(a: Seq<char>, b: Seq<char>)
    requires
        text::lowered(a) == text::lowered(b),
    ensures
        extensions_for(Some(a)) == extensions_for(Some(b)),
{
}

/// Whether `Path::extension` can give `ext` for `path`.
pub uninterp spec fn extension_gives(path: Seq<char>, ext: Option<Seq<char>>) -> bool;

/// Whether `Path::with_extension` can give `out` for `path` and `ext`.
pub uninterp spec fn with_extension_gives(
    path: Seq<char>,
    ext: Seq<char>,
    out: Seq<char>,
) -> bool;

/// What `Path::extension` of `std` gives, as text.
///
/// Claimed of it: an extension has no dot, for it starts after the last one. What
/// separates the parts of a path differs between systems, so which extension a
/// path has is not pinned down.
#[verifier::external_body]
fn extension(path: &str) -> (ext: Option<String>)
    ensures
        extension_gives(path@, text_in(ext)),
        ext matches Some(e) ==> !e@.contains('.'),
{
    std::path::Path::new(path).extension().and_then(|e| e.to_str()).map(|e| e.to_owned())
}

/// Whether `c` occurs in an extension that some path has, so does not separate
/// the parts of a path.
pub open spec fn seen_in_extension(c: char) -> bool {
    exists|path: Seq<char>, ext: Seq<char>| #[trigger]
        extension_gives(path, Some(ext)) && ext.contains(c)
}

/// Whether `ext` holds nothing but ASCII letters and what is seen in extensions. A
/// slash is not allowed either way: there are paths in which it separates nothing, but
/// it is never taken in an extension that is put on a path.
pub open spec fn no_separator(ext: Seq<char>) -> bool {
    &&& !ext.contains('/')
    &&& forall|i: int|
        0 <= i < ext.len() ==> 'a' <= #[trigger] ext[i] <= 'z' || 'A' <= ext[i] <= 'Z'
            || seen_in_extension(ext[i])
}

/// Whether some part of `path`, other than a parent directory, starts with two dots.
pub open spec fn dotted_part(path: Seq<char>) -> bool {
    exists|i: int|
        {
            &&& 0 <= i < path.len() - 2
            &&& #[trigger] path[i] == '.'
            &&& path[i + 1] == '.'
            &&& path[i + 2] != '/' && path[i + 2] != '\\'
            &&& i == 0 || path[i - 1] == '/' || path[i - 1] == '\\' || path[i - 1] == ':'
        }
}

/// Whether there is something in `ext`, and neither a slash nor a backslash.
pub open spec fn plain(ext: Seq<char>) -> bool {
    ext.len() > 0 && !ext.contains('/') && !ext.contains('\\')
}

/// What `Path::with_extension` of `std` gives, as text.
///
/// It panics on an extension with a separator in it. Claimed of it: a path that
/// has an extension gets the one that is handed over, where that is not empty and
/// has no dot in it; and where a path ends in its extension, that is replaced by one
/// that is not empty, and all that stands before it, parent and stem, is kept. Nothing
/// is claimed of a path with a part that starts with two dots, such as `..tif`, nor is
/// anything said to be kept where there is a slash or backslash in its extension.
#[verifier::external_body]
fn with_extension(path: &str, ext: &str) -> (out: String)
    requires
        no_separator(ext@),
    ensures
        with_extension_gives(path@, ext@, out@),
        ext@.len() > 0 && !ext@.contains('.') && !dotted_part(path@) && (exists|e: Seq<char>|
         #[trigger]
            extension_gives(path@, Some(e))) ==> extension_gives(out@, Some(ext@)),
        forall|before: Seq<char>, e: Seq<char>|
            ext@.len() > 0 && plain(e) && !dotted_part(path@) && #[trigger] extension_gives(
                path@,
                Some(e),
            ) && path@ == #[trigger] before.push('.') + e ==> out@ == before.push('.') + ext@,
{
    std::path::Path::new(path).with_extension(ext).to_string_lossy().into_owned()
}

/// The extension that names are made from. One with a slash in it, which only a path
/// that takes slashes literally has, cannot be put on a path, so it counts as none.
pub open spec fn settable(ext: Option<Seq<char>>) -> Option<Seq<char>> {
    match ext {
        Some(e) => if e.contains('/') {
            None
        } else {
            Some(e)
        },
        None => None,
    }
}

/// Whether `out` can be the places to look at beside `image`, which has the extension
/// `ext`.
pub open spec fn candidates(image: Seq<char>, ext: Option<Seq<char>>, out: Seq<Seq<char>>) -> bool {
    let tries = extensions_for(settable(ext));
    &&& extension_gives(image, ext)
    &&& out.len() == tries.len()
    &&& forall|i: int|
        0 <= i < out.len() ==> with_extension_gives(image, tries[i], #[trigger] out[i])
    &&& ext is Some && !dotted_part(image) ==> forall|i: int|
        0 <= i < out.len() ==> extension_gives(#[trigger] out[i], Some(tries[i]))
    &&& ext matches Some(e) ==> forall|before: Seq<char>, i: int|
        plain(e) && !dotted_part(image) && image == #[trigger] before.push('.') + e && 0 <= i
            < out.len() ==> #[trigger] out[i] == before.push('.') + tries[i]
}

/// Every extension to try is free of separators and dots, and not empty.
proof fn lemma_extensions_are_plain(image: Seq<char>, ext: Option<Seq<char>>, i: int)
    requires
        ext is Some ==> extension_gives(image, ext),
        ext matches Some(e) ==> !e.contains('.') && !e.contains('/'),
        0 <= i < extensions_for(ext).len(),
    ensures
        no_separator(extensions_for(ext)[i]),
        extensions_for(ext)[i].len() > 0,
        !extensions_for(ext)[i].contains('.'),
{
    reveal_strlit("wld");
    assert(!"wld"@.contains('.') && !"wld"@.contains('/'));
    if let Some(e) = ext {
        let l = text::lowered(e);
        assert forall|k: int| 0 <= k < l.len() implies #[trigger] l[k] != '.' && l[k] != '/' && ('a'
            <= l[k] <= 'z' || seen_in_extension(l[k])) by {
            assert(e.contains(e[k]));
            assert(l[k] == text::lower(e[k]));
            if !('A' <= e[k] <= 'Z') {
                assert(extension_gives(image, Some(e)) && e.contains(e[k]));
            }
        }
        if l.len() >= 2 {
            let s = short_form(l);
            let u = text::uppered(s);
            assert forall|k: int| 0 <= k < s.len() implies #[trigger] s[k] != '.' && s[k] != '/' && (
            'a' <= s[k] <= 'z' || seen_in_extension(s[k])) by {
                assert(s[0] == l[0]);
                assert(s[1] == l[l.len() - 1]);
            }
            assert forall|k: int| 0 <= k < u.len() implies #[trigger] u[k] != '.' && u[k] != '/' && (
            'A' <= u[k] <= 'Z' || seen_in_extension(u[k])) by {
                assert(u[k] == text::upper(s[k]));
            }
        }
        let w = l.push('w');
        assert forall|k: int| 0 <= k < w.len() implies #[trigger] w[k] != '.' && w[k] != '/' && ('a'
            <= w[k] <= 'z' || seen_in_extension(w[k])) by {
            if k < l.len() {
                assert(w[k] == l[k]);
            }
        }
    }
}

/// The first place, in the order in which they are tried, where there is something.
///
/// Whatever is found there is what counts, even if it cannot be read.
pub fn first_present(present: &Vec<bool>) -> (r: Option<usize>)
    ensures
        r matches Some(i) ==> {
            &&& i < present@.len()
            &&& present@[i as int]
            &&& forall|j: int| 0 <= j < i ==> !present@[j]
        },
        r is None ==> forall|j: int| 0 <= j < present@.len() ==> !present@[j],
{
    let mut i: usize = 0;
    while i < present.len()
        invariant
            i <= present@.len(),
            forall|j: int| 0 <= j < i ==> !present@[j],
        decreases present@.len() - i,
    {
        if present[i] {
            return Some(i);
        }
        i = i + 1;
    }
    None
}

/// Sidecar paths to try for an image, most conventional first.
pub fn sidecar_candidates(image: &str) -> (out: Vec<String>)
    ensures
        exists|ext: Option<Seq<char>>| candidates(image@, ext, texts(out@)),
{
    let ext = extension(image);
    let ghost e = text_in(ext);
    let tries = match &ext {
        Some(e) if !text::has_char(e.as_str(), '/') => sidecar_extensions(Some(e.as_str())),
        _ => sidecar_extensions(None),
    };
    let ghost wanted = extensions_for(settable(e));
    assert(texts(tries@) == wanted);
    let mut out: Vec<String> = Vec::new();
    let mut i: usize = 0;
    while i < tries.len()
        invariant
            i <= tries@.len(),
            texts(tries@) == wanted,
            wanted == extensions_for(settable(e)),
            extension_gives(image@, e),
            e matches Some(x) ==> !x.contains('.'),
            out@.len() == i,
            forall|k: int|
                0 <= k < i ==> with_extension_gives(image@, wanted[k], (#[trigger] out@[k])@),
            e is Some && !dotted_part(image@) ==> forall|k: int|
                0 <= k < i ==> extension_gives((#[trigger] out@[k])@, Some(wanted[k])),
            e matches Some(x) ==> forall|before: Seq<char>, k: int|
                plain(x) && !dotted_part(image@) && image@ == #[trigger] before.push('.') + x && 0
                    <= k < i ==> (#[trigger] out@[k])@ == before.push('.') + wanted[k],
        decreases tries@.len() - i,
    {
        proof {
            assert(tries@[i as int]@ == texts(tries@)[i as int]);
            lemma_extensions_are_plain(image@, settable(e), i as int);
        }
        out.push(with_extension(image, tries[i].as_str()));
        i = i + 1;
    }
    proof {
        assert(candidates(image@, e, texts(out@))) by {
            assert forall|k: int| 0 <= k < out@.len() implies #[trigger] texts(out@)[k]
                == out@[k]@ by {}
        }
    }
    out
}

/// Where world files are looked for first follows the convention: the first letter of
/// the image's extension, its last letter and a `w`, all in lower case; then the same
/// in upper case; then the whole extension in lower case with a `w` behind it; and
/// `wld` in the end. Without two letters to choose from the first two are left out.
pub proof fn law_names_follow_the_convention(ext: Seq<char>)
    ensures
        ({
            let names = extensions_for(Some(ext));
            let long = names[names.len() - 2];
            &&& ext.len() >= 2 ==> {
                &&& names.len() == 4
                &&& names[0].len() == 3
                &&& names[0][0] == text::lower(ext[0])
                &&& names[0][1] == text::lower(ext[ext.len() - 1])
                &&& names[0][2] == 'w'
                &&& names[1].len() == 3
                &&& names[1][0] == text::upper(text::lower(ext[0]))
                &&& names[1][1] == text::upper(text::lower(ext[ext.len() - 1]))
                &&& names[1][2] == 'W'
            }
            &&& ext.len() < 2 ==> names.len() == 2
            &&& long.len() == ext.len() + 1
            &&& forall|i: int| 0 <= i < ext.len() ==> #[trigger] long[i] == text::lower(ext[i])
            &&& long[ext.len() as int] == 'w'
            &&& names[names.len() - 1] == seq!['w', 'l', 'd']
        }),
        extensions_for(None) == seq![seq!['w', 'l', 'd']],
{
    reveal_strlit("wld");
    assert("wld"@ =~= seq!['w', 'l', 'd']);
    assert(extensions_for(None) =~= seq![seq!['w', 'l', 'd']]);
    assert(text::upper('w') == 'W') by {
        assert(('w' as u32 - 32) as char == 'W');
    }
}

/// The first place to look for the world file of an image is beside it: the path up to
/// its extension is kept, and the extension is its first letter, its last letter and a
/// `w`, in lower case. The last place has the extension `wld`.
pub proof fn law_world_files_stand_beside_the_image(
    before: Seq<char>,
    ext: Seq<char>,
    out: Seq<Seq<char>>,
)
    requires
        ext.len() >= 2,
        !ext.contains('/'),
        !ext.contains('\\'),
        !dotted_part(before.push('.') + ext),
        candidates(before.push('.') + ext, Some(ext), out),
    ensures
        out.len() == 4,
        out[0] == before + seq![
            '.',
            text::lower(ext[0]),
            text::lower(ext[ext.len() - 1]),
            'w',
        ],
        out[1] == before + seq![
            '.',
            text::upper(text::lower(ext[0])),
            text::upper(text::lower(ext[ext.len() - 1])),
            'W',
        ],
        out[3] == before + seq!['.', 'w', 'l', 'd'],
{
    law_names_follow_the_convention(ext);
    let image = before.push('.') + ext;
    let names = extensions_for(Some(ext));
    assert(settable(Some(ext)) == Some(ext));
    assert(image == before.push('.') + ext);
    assert(out[0] == before.push('.') + names[0]);
    assert(out[1] == before.push('.') + names[1]);
    assert(out[3] == before.push('.') + names[3]);
    assert(out[0] =~= before + seq![
        '.',
        text::lower(ext[0]),
        text::lower(ext[ext.len() - 1]),
        'w',
    ]);
    assert(out[1] =~= before + seq![
        '.',
        text::upper(text::lower(ext[0])),
        text::upper(text::lower(ext[ext.len() - 1])),
        'W',
    ]);
    assert(out[3] =~= before + seq!['.', 'w', 'l', 'd']);
}

/// The texts that a list holds are those of its strings, one for one.
pub proof fn law_texts_are_those_of_the_strings(v: Seq<String>, s: Option<String>)
    ensures
        texts(v).len() == v.len(),
        forall|i: int| 0 <= i < v.len() ==> #[trigger] texts(v)[i] == v[i]@,
        s matches Some(t) ==> text_in(s) == Some(t@),
        s is None ==> text_in(s) is None,
{
}

/// Whatever the image is called, there is a place to look for every name that its
/// extension gives, in that order; only an extension with a slash in it counts as none.
pub proof fn law_every_name_is_looked_for(
    image: Seq<char>,
    ext: Option<Seq<char>>,
    out: Seq<Seq<char>>,
    i: int,
)
    requires
        candidates(image, ext, out),
        ext matches Some(e) ==> !e.contains('/'),
        0 <= i < out.len(),
    ensures
        extension_gives(image, ext),
        out.len() == extensions_for(ext).len(),
        with_extension_gives(image, extensions_for(ext)[i], out[i]),
        ext is Some && !dotted_part(image) ==> extension_gives(
            out[i],
            Some(extensions_for(ext)[i]),
        ),
{
    assert(settable(ext) == ext);
}

} // verus!

//! Finding the models that can be used.
//!
//! Models are not bundled: the weights carry their own licences and run to tens
//! of megabytes, so they are looked for in a few folders.

use vstd::prelude::*;
use vstd::string::*;

use crate::text;

verus! {

/// A file that was found where models are looked for.
#[derive(Debug, Clone, PartialEq, Eq)]
pub struct ModelFile {
    pub path: String,
    pub extension: Option<String>,
    pub stem: Option<String>,
}

impl ModelFile {
    /// Whether the extension says that it is a model.
    pub open spec fn is_model(self) -> bool {
        self.extension matches Some(e) && text::lowered(e@) == text::lowered("onnx"@)
    }

    /// What the model goes by.
    pub open spec fn shown_name(self) -> Seq<char> {
        match self.stem {
            Some(s) => s@,
            None => "model"@,
        }
    }
}

/// A model on offer.
#[derive(Debug, PartialEq, Eq)]
pub struct ModelEntry {
    pub path: String,
    /// File name without extension, which is what the user recognises.
    pub name: String,
}

impl ModelEntry {
    /// Whether it is the entry of `file`.
    pub open spec fn is_for(self, file: ModelFile) -> bool {
        &&& self.path@ == file.path@
        &&& self.name@ == file.shown_name()
    }

    /// Whether it reads like `other`.
    pub open spec fn same_as(self, other: Self) -> bool {
        &&& self.path@ == other.path@
        &&& self.name@ == other.name@
    }
}

impl Clone for ModelEntry {
    fn clone(&self) -> (copy: Self)
        ensures
            copy.same_as(*self),
    {
        ModelEntry { path: self.path.clone(), name: self.name.clone() }
    }
}

/// A folder where models are looked for.
#[derive(Debug, Clone, PartialEq, Eq)]
pub struct Folder {
    pub path: String,
    pub exists: bool,
}

/// Whether `path` is that of the first folder that exists; or, where none does, of
/// the one beside the installed program, or `models`.
pub open spec fn is_models_dir(
    folders: Seq<Folder>,
    installed: Option<Seq<char>>,
    path: Seq<char>,
) -> bool {
    ||| exists|k: int|
        {
            &&& 0 <= k < folders.len()
            &&& (#[trigger] folders[k]).exists
            &&& path == folders[k].path@
            &&& forall|j: int| 0 <= j < k ==> !(#[trigger] folders[j]).exists
        }
    ||| {
        &&& forall|k: int| 0 <= k < folders.len() ==> !(#[trigger] folders[k]).exists
        &&& path == (match installed {
            Some(p) => p,
            None => "models"@,
        })
    }
}

/// The first folder that exists, for showing the user where to put files.
///
/// `installed` is the folder beside the program, where that can be told.
pub fn models_dir(folders: &Vec<Folder>, installed: Option<&str>) -> (path: String)
    ensures
        is_models_dir(
            folders@,
            match installed {
                Some(p) => Some(p@),
                None => None,
            },
            path@,
        ),
{
    let mut k: usize = 0;
    while k < folders.len()
        invariant
            k <= folders@.len(),
            forall|j: int| 0 <= j < k ==> !(#[trigger] folders@[j]).exists,
        decreases folders@.len() - k,
    {
        if folders[k].exists {
            assert(folders@[k as int].exists);
            return folders[k].path.clone();
        }
        k = k + 1;
    }
    match installed {
        Some(p) => p.to_owned(),
        None => "models".to_owned(),
    }
}

/// Whether the file at `k` is a model, and the first by its name.
pub open spec fn is_first(files: Seq<ModelFile>, k: int) -> bool {
    &&& 0 <= k < files.len()
    &&& files[k].is_model()
    &&& forall|j: int|
        0 <= j < k && (#[trigger] files[j]).is_model() ==> files[j].shown_name()
            != files[k].shown_name()
}

/// Whether `entry` is that of a model among `files`, the first by its name.
pub open spec fn is_from(files: Seq<ModelFile>, entry: ModelEntry) -> bool {
    exists|k: int| #[trigger] is_first(files, k) && entry.is_for(files[k])
}

/// Whether the entry of `file` is among `entries`.
pub open spec fn is_listed(entries: Seq<ModelEntry>, file: ModelFile) -> bool {
    exists|i: int| 0 <= i < entries.len() && (#[trigger] entries[i]).is_for(file)
}

/// Whether `entries` lists the models among `files`, by name, keeping the first of
/// those that share one.
pub open spec fn catalogues(files: Seq<ModelFile>, entries: Seq<ModelEntry>) -> bool {
    &&& forall|i: int, j: int|
        0 <= i < j < entries.len() ==> text::before(
            (#[trigger] entries[i]).name@,
            (#[trigger] entries[j]).name@,
        )
    &&& forall|i: int| 0 <= i < entries.len() ==> #[trigger] is_from(files, entries[i])
    &&& forall|k: int| is_first(files, k) ==> #[trigger] is_listed(entries, files[k])
}

/// A file that joins the others does not change which of them are the first by
/// their name.
proof fn lemma_first_of_more(files: Seq<ModelFile>, n: int, k: int)
    requires
        0 <= n < files.len(),
    ensures
        k < n ==> (is_first(files.take(n + 1), k) <==> is_first(files.take(n), k)),
        is_first(files.take(n), k) ==> k < n,
{
    let a = files.take(n);
    let b = files.take(n + 1);
    if 0 <= k < n {
        assert(a[k] == b[k]);
        if is_first(b, k) {
            assert forall|j: int| 0 <= j < k && (#[trigger] a[j]).is_model() implies a[j].shown_name()
                != a[k].shown_name() by {
                assert(b[j] == a[j]);
            }
        }
        if is_first(a, k) {
            assert forall|j: int| 0 <= j < k && (#[trigger] b[j]).is_model() implies b[j].shown_name()
                != b[k].shown_name() by {
                assert(b[j] == a[j]);
            }
        }
    }
}

/// Among the models before `n` with the name of the one at `n` there is a first.
proof fn lemma_earliest(files: Seq<ModelFile>, n: int, j: int) -> (k: int)
    requires
        0 <= j < n <= files.len(),
        files[j].is_model(),
    ensures
        is_first(files.take(n), k),
        k <= j,
        files[k].shown_name() == files[j].shown_name(),
    decreases j,
{
    let a = files.take(n);
    assert(a[j] == files[j]);
    if is_first(a, j) {
        j
    } else {
        let i = choose|i: int|
            0 <= i < j && (#[trigger] a[i]).is_model() && a[i].shown_name() == a[j].shown_name();
        assert(a[i] == files[i]);
        lemma_earliest(files, n, i)
    }
}

/// A file that is no model, or whose name is taken, leaves the list as it is.
proof fn lemma_passed_over(files: Seq<ModelFile>, n: int, entries: Seq<ModelEntry>)
    requires
        0 <= n < files.len(),
        catalogues(files.take(n), entries),
        !files[n].is_model() || exists|i: int|
            0 <= i < entries.len() && (#[trigger] entries[i]).name@ == files[n].shown_name(),
    ensures
        catalogues(files.take(n + 1), entries),
{
    let a = files.take(n);
    let b = files.take(n + 1);
    assert(b[n] == files[n]);
    if files[n].is_model() {
        let i = choose|i: int|
            0 <= i < entries.len() && (#[trigger] entries[i]).name@ == files[n].shown_name();
        assert(is_from(a, entries[i]));
        let k = choose|k: int| #[trigger] is_first(a, k) && entries[i].is_for(a[k]);
        assert(b[k] == a[k]);
        assert(!is_first(b, n));
    }
    assert forall|k: int| is_first(b, k) implies #[trigger] is_listed(entries, b[k]) by {
        lemma_first_of_more(files, n, k);
        assert(a[k] == b[k]);
        assert(is_listed(entries, a[k]));
    }
    assert forall|i: int| 0 <= i < entries.len() implies #[trigger] is_from(b, entries[i]) by {
        assert(is_from(a, entries[i]));
        let k = choose|k: int| #[trigger] is_first(a, k) && entries[i].is_for(a[k]);
        lemma_first_of_more(files, n, k);
        assert(is_first(b, k) && entries[i].is_for(b[k]));
    }
}

/// A model whose name is new joins the list where its name belongs.
proof fn lemma_joined(
    files: Seq<ModelFile>,
    n: int,
    entries: Seq<ModelEntry>,
    at: int,
    entry: ModelEntry,
)
    requires
        0 <= n < files.len(),
        catalogues(files.take(n), entries),
        files[n].is_model(),
        entry.is_for(files[n]),
        0 <= at <= entries.len(),
        forall|i: int| 0 <= i < at ==> text::before((#[trigger] entries[i]).name@, entry.name@),
        at < entries.len() ==> text::before(entry.name@, entries[at].name@),
    ensures
        catalogues(files.take(n + 1), entries.insert(at, entry)),
{
    let a = files.take(n);
    let b = files.take(n + 1);
    let more = entries.insert(at, entry);
    assert(b[n] == files[n]);
    assert forall|i: int| at <= i < entries.len() implies text::before(
        entry.name@,
        (#[trigger] entries[i]).name@,
    ) by {
        if i > at {
            text::lemma_before_transitive(entry.name@, entries[at].name@, entries[i].name@);
        }
    }
    assert forall|i: int| 0 <= i < entries.len() implies (#[trigger] entries[i]).name@
        != entry.name@ by {
        text::lemma_before_total(entries[i].name@, entry.name@);
    }
    assert(is_first(b, n)) by {
        assert forall|j: int| 0 <= j < n && (#[trigger] b[j]).is_model() implies b[j].shown_name()
            != b[n].shown_name() by {
            let k = lemma_earliest(files, n, j);
            assert(is_listed(entries, a[k]));
            let i = choose|i: int| 0 <= i < entries.len() && (#[trigger] entries[i]).is_for(a[k]);
            assert(entries[i].name@ != entry.name@);
        }
    }
    assert forall|k: int| is_first(b, k) implies #[trigger] is_listed(more, b[k]) by {
        if k == n {
            assert(more[at].is_for(b[k]));
        } else {
            lemma_first_of_more(files, n, k);
            assert(is_listed(entries, a[k]));
            let i = choose|i: int| 0 <= i < entries.len() && (#[trigger] entries[i]).is_for(a[k]);
            if i < at {
                assert(more[i].is_for(b[k]));
            } else {
                assert(more[i + 1].is_for(b[k]));
            }
        }
    }
    assert forall|i: int| 0 <= i < more.len() implies #[trigger] is_from(b, more[i]) by {
        if i == at {
            assert(is_first(b, n) && more[i].is_for(b[n]));
        } else {
            let old = if i < at {
                entries[i]
            } else {
                entries[i - 1]
            };
            assert(more[i] == old);
            assert(is_from(a, old));
            let k = choose|k: int| #[trigger] is_first(a, k) && old.is_for(a[k]);
            lemma_first_of_more(files, n, k);
            assert(is_first(b, k) && more[i].is_for(b[k]));
        }
    }
}

/// Every model among `files`, in a stable order.
pub fn available(files: &Vec<ModelFile>) -> (entries: Vec<ModelEntry>)
    ensures
        catalogues(files@, entries@),
{
    let mut entries: Vec<ModelEntry> = Vec::new();
    let mut i: usize = 0;
    while i < files.len()
        invariant
            i <= files@.len(),
            catalogues(files@.take(i as int), entries@),
        decreases files@.len() - i,
    {
        let file = &files[i];
        let is_model = match &file.extension {
            Some(e) => text::same_ignoring_case(e.as_str(), "onnx"),
            None => false,
        };
        if is_model {
            let name = match &file.stem {
                Some(s) => s.clone(),
                None => "model".to_owned(),
            };
            let key = text::chars_of(name.as_str());
            let mut at: usize = 0;
            let mut taken = false;
            while at < entries.len()
                invariant_except_break
                    !taken,
                invariant
                    at <= entries@.len(),
                    key@ == name@,
                    forall|k: int|
                        0 <= k < at ==> text::before((#[trigger] entries@[k]).name@, name@),
                ensures
                    at <= entries@.len(),
                    taken ==> at < entries@.len() && entries@[at as int].name@ == name@,
                    !taken ==> {
                        &&& forall|k: int|
                            0 <= k < at ==> text::before((#[trigger] entries@[k]).name@, name@)
                        &&& at < entries@.len() ==> text::before(name@, entries@[at as int].name@)
                    },
                decreases entries@.len() - at,
            {
                let other = text::chars_of(entries[at].name.as_str());
                proof {
                    text::lemma_before_total(other@, key@);
                }
                if text::same_chars(&other, &key) {
                    taken = true;
                    break;
                }
                if !text::chars_before(&other, &key) {
                    break;
                }
                at = at + 1;
            }
            if taken {
                proof {
                    lemma_passed_over(files@, i as int, entries@);
                }
            } else {
                let entry = ModelEntry { path: file.path.clone(), name };
                proof {
                    lemma_joined(files@, i as int, entries@, at as int, entry);
                }
                entries.insert(at, entry);
            }
        } else {
            proof {
                lemma_passed_over(files@, i as int, entries@);
            }
        }
        i = i + 1;
    }
    assert(files@.take(i as int) =~= files@);
    entries
}

/// The order is stable: what is listed, and where, rests on the files alone.
pub proof fn law_order_is_stable(
    files: Seq<ModelFile>,
    a: Seq<ModelEntry>,
    b: Seq<ModelEntry>,
)
    requires
        catalogues(files, a),
        catalogues(files, b),
    ensures
        a.len() == b.len(),
        forall|i: int| 0 <= i < a.len() ==> (#[trigger] a[i]).same_as(b[i]),
{
    lemma_listed_alike(files, a, b, a.len() as int);
    lemma_listed_alike(files, b, a, b.len() as int);
}

/// An entry of one list stands in the other.
proof fn lemma_listed_in(
    files: Seq<ModelFile>,
    a: Seq<ModelEntry>,
    b: Seq<ModelEntry>,
    i: int,
) -> (j: int)
    requires
        catalogues(files, a),
        catalogues(files, b),
        0 <= i < a.len(),
    ensures
        0 <= j < b.len(),
        b[j].same_as(a[i]),
{
    assert(is_from(files, a[i]));
    let k = choose|k: int| #[trigger] is_first(files, k) && a[i].is_for(files[k]);
    assert(is_listed(b, files[k]));
    choose|j: int| 0 <= j < b.len() && (#[trigger] b[j]).is_for(files[k])
}

/// Two lists of the same files start alike.
proof fn lemma_listed_alike(
    files: Seq<ModelFile>,
    a: Seq<ModelEntry>,
    b: Seq<ModelEntry>,
    n: int,
)
    requires
        catalogues(files, a),
        catalogues(files, b),
        0 <= n <= a.len(),
    ensures
        n <= b.len(),
        forall|i: int| 0 <= i < n ==> (#[trigger] a[i]).same_as(b[i]),
    decreases n,
{
    if n > 0 {
        let m: int = n - 1;
        lemma_listed_alike(files, a, b, m);
        let j = lemma_listed_in(files, a, b, m);
        if j < m {
            assert(a[j].same_as(b[j]));
            assert(text::before(a[j].name@, a[m].name@));
            text::lemma_before_total(a[j].name@, a[m].name@);
        }
        if j > m {
            let i = lemma_listed_in(files, b, a, m);
            assert(text::before(b[m].name@, b[j].name@));
            text::lemma_before_total(b[m].name@, b[j].name@);
            if i < m {
                assert(a[i].same_as(b[i]));
                assert(text::before(b[i].name@, b[m].name@));
                text::lemma_before_total(b[i].name@, b[m].name@);
            }
            if i > m {
                assert(text::before(a[m].name@, a[i].name@));
            }
        }
    }
}

/// What the name of a model suited to `style` may hold, best first.
pub open spec fn hints_for(style: Seq<char>) -> Seq<Seq<char>> {
    if style == "maps"@ {
        seq!["map"@, "line"@, "anime"@, "draw"@]
    } else {
        seq!["photo"@, "real"@, "general"@]
    }
}

/// Whether the name of a model holds `hint`, whatever its case.
pub open spec fn hits(entry: ModelEntry, hint: Seq<char>) -> bool {
    text::occurs_in(text::lowered(entry.name@), hint)
}

/// Whether the model at `k` is the one to pick: the first that holds the first
/// hint that any holds, or the first of all where none holds a hint.
pub open spec fn is_best(models: Seq<ModelEntry>, hints: Seq<Seq<char>>, k: int) -> bool {
    &&& 0 <= k < models.len()
    &&& {
        ||| exists|h: int|
            {
                &&& 0 <= h < hints.len()
                &&& #[trigger] hits(models[k], hints[h])
                &&& forall|i: int| 0 <= i < k ==> !hits(#[trigger] models[i], hints[h])
                &&& forall|g: int, i: int|
                    0 <= g < h && 0 <= i < models.len() ==> !hits(
                        #[trigger] models[i],
                        #[trigger] hints[g],
                    )
            }
        ||| {
            &&& k == 0
            &&& forall|g: int, i: int|
                0 <= g < hints.len() && 0 <= i < models.len() ==> !hits(
                    #[trigger] models[i],
                    #[trigger] hints[g],
                )
        }
    }
}

/// The hints for `style`, as characters.
fn hint_chars(style: &str) -> (hints: Vec<Vec<char>>)
    ensures
        hints@.len() == hints_for(style@).len(),
        forall|h: int| 0 <= h < hints@.len() ==> (#[trigger] hints@[h])@ == hints_for(style@)[h],
{
    let mut hints: Vec<Vec<char>> = Vec::new();
    if text::same_chars(&text::chars_of(style), &text::chars_of("maps")) {
        hints.push(text::chars_of("map"));
        hints.push(text::chars_of("line"));
        hints.push(text::chars_of("anime"));
        hints.push(text::chars_of("draw"));
    } else {
        hints.push(text::chars_of("photo"));
        hints.push(text::chars_of("real"));
        hints.push(text::chars_of("general"));
    }
    hints
}

/// Pick a model suited to `style`, falling back to whatever exists.
///
/// Selection is by file name, since that is the only hint a bare model file
/// carries. A user who names their files sensibly gets sensible routing.
pub fn best_for(models: &Vec<ModelEntry>, style: &str) -> (r: Option<ModelEntry>)
    ensures
        models@.len() == 0 <==> r is None,
        r matches Some(entry) ==> exists|k: int| #[trigger]
            is_best(models@, hints_for(style@), k) && entry.same_as(models@[k]),
{
    if models.len() == 0 {
        return None;
    }
    let hints = hint_chars(style);
    let ghost wanted = hints_for(style@);
    let mut h: usize = 0;
    while h < hints.len()
        invariant
            h <= hints@.len(),
            wanted == hints_for(style@),
            hints@.len() == wanted.len(),
            models@.len() > 0,
            forall|g: int| 0 <= g < hints@.len() ==> (#[trigger] hints@[g])@ == wanted[g],
            forall|g: int, i: int|
                0 <= g < h && 0 <= i < models@.len() ==> !hits(
                    #[trigger] models@[i],
                    #[trigger] wanted[g],
                ),
        decreases hints@.len() - h,
    {
        let mut k: usize = 0;
        while k < models.len()
            invariant
                k <= models@.len(),
                h < hints@.len(),
                wanted == hints_for(style@),
                hints@.len() == wanted.len(),
                forall|g: int| 0 <= g < hints@.len() ==> (#[trigger] hints@[g])@ == wanted[g],
                forall|g: int, i: int|
                    0 <= g < h && 0 <= i < models@.len() ==> !hits(
                        #[trigger] models@[i],
                        #[trigger] wanted[g],
                    ),
                forall|i: int| 0 <= i < k ==> !hits(#[trigger] models@[i], wanted[h as int]),
            decreases models@.len() - k,
        {
            let name = text::lower_chars(models[k].name.as_str());
            if text::contains(&name, &hints[h]) {
                proof {
                    assert(hits(models@[k as int], wanted[h as int]));
                    assert(is_best(models@, wanted, k as int));
                }
                return Some(models[k].clone());
            }
            k = k + 1;
        }
        h = h + 1;
    }
    proof {
        assert(is_best(models@, wanted, 0));
    }
    Some(models[0].clone())
}

/// Models are listed in the order of their names, each name once.
pub proof fn law_models_are_in_order(
    files: Seq<ModelFile>,
    entries: Seq<ModelEntry>,
    i: int,
    j: int,
)
    requires
        catalogues(files, entries),
        0 <= i < j < entries.len(),
    ensures
        text::before(entries[i].name@, entries[j].name@),
        entries[i].name@ != entries[j].name@,
{
    text::lemma_before_total(entries[i].name@, entries[j].name@);
}

/// Every entry is that of a model: a file whose extension is `onnx`, whatever its case.
/// It has the path and goes by the stem of the file `k`, the first model by that name.
pub proof fn law_every_entry_is_a_model(
    files: Seq<ModelFile>,
    entries: Seq<ModelEntry>,
    i: int,
) -> (k: int)
    requires
        catalogues(files, entries),
        0 <= i < entries.len(),
    ensures
        0 <= k < files.len(),
        files[k].extension is Some,
        text::lowered(files[k].extension->0@) == seq!['o', 'n', 'n', 'x'],
        entries[i].path@ == files[k].path@,
        files[k].stem is Some ==> entries[i].name@ == files[k].stem->0@,
        files[k].stem is None ==> entries[i].name@ == "model"@,
        forall|j: int|
            0 <= j < k && (#[trigger] files[j]).extension is Some && text::lowered(
                files[j].extension->0@,
            ) == seq!['o', 'n', 'n', 'x'] ==> {
                &&& files[j].stem is Some ==> entries[i].name@ != files[j].stem->0@
                &&& files[j].stem is None ==> entries[i].name@ != "model"@
            },
{
    reveal_strlit("onnx");
    assert(text::lowered("onnx"@) =~= seq!['o', 'n', 'n', 'x']);
    assert(is_from(files, entries[i]));
    let k = choose|k: int| #[trigger] is_first(files, k) && entries[i].is_for(files[k]);
    assert forall|j: int|
        0 <= j < k && (#[trigger] files[j]).extension is Some && text::lowered(
            files[j].extension->0@,
        ) == seq!['o', 'n', 'n', 'x'] implies {
        &&& files[j].stem is Some ==> entries[i].name@ != files[j].stem->0@
        &&& files[j].stem is None ==> entries[i].name@ != "model"@
    } by {
        assert(files[j].is_model());
    }
    k
}

/// Every model is listed by its name.
pub proof fn law_every_model_is_listed(
    files: Seq<ModelFile>,
    entries: Seq<ModelEntry>,
    k: int,
) -> (i: int)
    requires
        catalogues(files, entries),
        0 <= k < files.len(),
        files[k].extension is Some,
        text::lowered(files[k].extension->0@) == seq!['o', 'n', 'n', 'x'],
    ensures
        0 <= i < entries.len(),
        files[k].stem is Some ==> entries[i].name@ == files[k].stem->0@,
        files[k].stem is None ==> entries[i].name@ == "model"@,
{
    reveal_strlit("onnx");
    assert(text::lowered("onnx"@) =~= seq!['o', 'n', 'n', 'x']);
    assert(files[k].is_model());
    let first = lemma_earliest(files, files.len() as int, k);
    assert(files.take(files.len() as int) =~= files);
    assert(is_listed(entries, files[first]));
    let i = choose|i: int| 0 <= i < entries.len() && (#[trigger] entries[i]).is_for(files[first]);
    assert(entries[i].name@ == files[k].shown_name());
    i
}

/// The model that is picked for maps is the first whose name holds `map`; where there is
/// none, the first that holds `line`, then `anime`, then `draw`; for anything else it is
/// `photo`, then `real`, then `general`. The case of a name does not matter. Where no
/// name holds any of them it is the first model of all.
pub proof fn law_names_decide_what_is_picked(
    models: Seq<ModelEntry>,
    style: Seq<char>,
    hints: Seq<Seq<char>>,
    k: int,
)
    requires
        is_best(models, hints_for(style), k),
        style == "maps"@ ==> hints == seq!["map"@, "line"@, "anime"@, "draw"@],
        style != "maps"@ ==> hints == seq!["photo"@, "real"@, "general"@],
    ensures
        0 <= k < models.len(),
        forall|h: int, i: int|
            #![trigger hints[h], models[i]]
            0 <= h < hints.len() && 0 <= i < models.len() && text::occurs_in(
                text::lowered(models[i].name@),
                hints[h],
            ) ==> exists|g: int|
                {
                    &&& 0 <= g <= h
                    &&& text::occurs_in(text::lowered(models[k].name@), #[trigger] hints[g])
                    &&& g == h ==> k <= i
                },
        (exists|h: int|
            0 <= h < hints.len() && text::occurs_in(
                text::lowered(models[k].name@),
                #[trigger] hints[h],
            )) || k == 0,
{
    assert forall|h: int, i: int|
        #![trigger hints[h], models[i]]
        0 <= h < hints.len() && 0 <= i < models.len() && text::occurs_in(
            text::lowered(models[i].name@),
            hints[h],
        ) implies exists|g: int|
        {
            &&& 0 <= g <= h
            &&& text::occurs_in(text::lowered(models[k].name@), #[trigger] hints[g])
            &&& g == h ==> k <= i
        } by {
        assert(hits(models[i], hints[h]));
        let g = choose|g: int|
            {
                &&& 0 <= g < hints.len()
                &&& #[trigger] hits(models[k], hints[g])
                &&& forall|j: int| 0 <= j < k ==> !hits(#[trigger] models[j], hints[g])
                &&& forall|f: int, j: int|
                    0 <= f < g && 0 <= j < models.len() ==> !hits(
                        #[trigger] models[j],
                        #[trigger] hints[f],
                    )
            };
        assert(text::occurs_in(text::lowered(models[k].name@), hints[g]));
    }
    if k != 0 {
        let g = choose|g: int|
            {
                &&& 0 <= g < hints.len()
                &&& #[trigger] hits(models[k], hints[g])
            };
        assert(text::occurs_in(text::lowered(models[k].name@), hints[g]));
    }
}

/// Models are looked for in the first folder that exists, and nowhere else while there is
/// one.
pub proof fn law_the_first_folder_counts(
    folders: Seq<Folder>,
    installed: Option<Seq<char>>,
    path: Seq<char>,
    k: int,
)
    requires
        is_models_dir(folders, installed, path),
        0 <= k <= folders.len(),
        forall|j: int| 0 <= j < k ==> !(#[trigger] folders[j]).exists,
    ensures
        k < folders.len() && folders[k].exists ==> path == folders[k].path@,
        k == folders.len() && installed is Some ==> path == installed->0,
        k == folders.len() && installed is None ==> path == "models"@,
{
}

/// Entries that read alike have the same path and the same name.
pub proof fn law_entries_alike_are_the_same(a: ModelEntry, b: ModelEntry)
    ensures
        a.same_as(b) <==> a.path@ == b.path@ && a.name@ == b.name@,
{
}

} // verus!

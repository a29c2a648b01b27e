//! Classification and move planning.
//!
//! A file's category is decided by its name alone: the text after the last
//! `.`, folded to ASCII lower case, is looked up in the category table in
//! definition order, and the first category whose extension set holds it
//! wins; when none does, the sentinel category `Others` stands in.
//!
//! The organizer turns a snapshot of discovered files into a plan of moves,
//! one step per file: the destination folder is the category name joined
//! under the source directory (non-recursive mode) or under the file's own
//! parent directory (recursive mode, which organizes every folder in place
//! and so preserves nesting). In recursive mode a file whose parent folder
//! is already named after its category is marked as placed and its step
//! moves nothing, which makes a second run over an organized tree a no-op.

use vstd::prelude::*;

use crate::config::{
    normalize_table, parse_config, table_view, wf_table, Category, OrganizeError,
    lemma_normalize_table_wf,
};
use crate::config::{parse_config_exec, table_from_pairs};
use crate::text::{ext_of, last_index_of, lower, lowered_extension_of, str_to_chars};

verus! {

/// The sentinel category for files that match no configured extension set.
pub open spec fn others_seq() -> Seq<char> {
    seq!['O', 't', 'h', 'e', 'r', 's']
}

/// The first category in `t` whose extension set holds `ext`, or `Others`
/// when none does.
pub open spec fn category_of(t: Seq<(Seq<char>, Seq<Seq<char>>)>, ext: Seq<char>) -> Seq<char>
    decreases t.len(),
{
    if t.len() == 0 {
        others_seq()
    } else if t[0].1.contains(ext) {
        t[0].0
    } else {
        category_of(t.drop_first(), ext)
    }
}

/// The category of a file name: its lowered extension, looked up first-match.
pub open spec fn file_category(t: Seq<(Seq<char>, Seq<Seq<char>>)>, name: Seq<char>) -> Seq<char> {
    category_of(t, lower(ext_of(name)))
}

/// The last path component: the text after the last `/`, or the whole text
/// when it holds no `/`.
pub open spec fn last_component(p: Seq<char>) -> Seq<char> {
    p.subrange(last_index_of(p, '/') + 1, p.len() as int)
}

/// The directory under which a file's category folder is created: the
/// source directory in a non-recursive run, the file's own parent in a
/// recursive one.
pub open spec fn dest_base(src: Seq<char>, recursive: bool, parent: Seq<char>) -> Seq<char> {
    if recursive {
        parent
    } else {
        src
    }
}

/// Whether a file already sits in its category folder: only a recursive run
/// recognizes placement, by the name of the file's parent directory.
pub open spec fn placed(
    recursive: bool,
    t: Seq<(Seq<char>, Seq<Seq<char>>)>,
    parent: Seq<char>,
    name: Seq<char>,
) -> bool {
    recursive && last_component(parent) == file_category(t, name)
}

/// First-match tie-break: when category `i` holds `ext` and no earlier one
/// does, category `i` is the result of the lookup.
pub proof fn lemma_first_match(t: Seq<(Seq<char>, Seq<Seq<char>>)>, ext: Seq<char>, i: int)
    requires
        0 <= i < t.len(),
        t[i].1.contains(ext),
        forall|k: int| 0 <= k < i ==> !(#[trigger] t[k].1).contains(ext),
    ensures
        category_of(t, ext) == t[i].0,
    decreases i,
{
    if i == 0 {
    } else {
        assert(!t[0].1.contains(ext));
        lemma_first_match(t.drop_first(), ext, i - 1);
    }
}

/// When no category holds `ext`, the lookup yields `Others`.
pub proof fn lemma_no_match(t: Seq<(Seq<char>, Seq<Seq<char>>)>, ext: Seq<char>)
    requires
        forall|k: int| 0 <= k < t.len() ==> !(#[trigger] t[k].1).contains(ext),
    ensures
        category_of(t, ext) == others_seq(),
    decreases t.len(),
{
    if t.len() > 0 {
        assert(!t[0].1.contains(ext));
        lemma_no_match(t.drop_first(), ext);
    }
}

/// The sentinel category as a string.
pub fn others_string() -> (r: String)
    ensures
        r@ == others_seq(),
{
    let r = String::from_str("Others");
    proof {
        reveal_strlit("Others");
        assert(r@ =~= others_seq());
    }
    r
}

/// The last path component of `path`, as a fresh string.
pub fn base_name(path: &str) -> (r: String)
    ensures
        r@ == last_component(path@),
{
    let chars = str_to_chars(path);
    let n = chars.len();
    let mut j: usize = n;
    proof {
        assert(path@.take(n as int) =~= path@);
    }
    while j > 0 && chars[j - 1] != '/'
        invariant
            j <= n,
            n == chars@.len(),
            chars@ == path@,
            last_index_of(path@.take(j as int), '/') == last_index_of(path@, '/'),
        decreases j,
    {
        j -= 1;
        proof {
            assert(path@.take(j + 1).drop_last() =~= path@.take(j as int));
        }
    }
    proof {
        if j > 0 {
            assert(path@.take(j as int)[j - 1] == '/');
            assert(last_index_of(path@, '/') == j - 1);
        } else {
            assert(path@.take(0).len() == 0);
            assert(last_index_of(path@, '/') == -1);
        }
    }
    let r = String::from_str(path.substring_char(j, n));
    proof {
        assert(r@ =~= last_component(path@));
    }
    r
}

/// One discovered regular file: its containing directory at the time of
/// discovery, and its file name.
#[derive(Debug, Clone, PartialEq, Eq)]
pub struct FileEntry {
    pub parent: String,
    pub name: String,
}

/// One planned step. The file at `parent`/`name` belongs in the `category`
/// folder under `base`; a step marked `already_placed` moves nothing.
#[derive(Debug, Clone, PartialEq, Eq)]
pub struct MoveStep {
    pub parent: String,
    pub name: String,
    pub base: String,
    pub category: String,
    pub already_placed: bool,
}

/// What one planned step says of one discovered file.
pub open spec fn step_ok(
    st: MoveStep,
    src: Seq<char>,
    recursive: bool,
    t: Seq<(Seq<char>, Seq<Seq<char>>)>,
    e: FileEntry,
) -> bool {
    &&& st.parent@ == e.parent@
    &&& st.name@ == e.name@
    &&& st.category@ == file_category(t, e.name@)
    &&& st.base@ == dest_base(src, recursive, e.parent@)
    &&& st.already_placed == placed(recursive, t, e.parent@, e.name@)
}

/// What one run did: how many files were moved, how many were already in
/// their category folder, and how many failed.
#[derive(Debug, Clone, Copy, PartialEq, Eq)]
pub struct Summary {
    pub moved: usize,
    pub skipped: usize,
    pub failed: usize,
}

/// The outcome of carrying one planned step out.
#[derive(Debug, Clone, Copy, PartialEq, Eq)]
pub enum MoveOutcome {
    /// The file was moved into its category folder.
    Moved,
    /// The file already sat in its category folder, or was otherwise left
    /// alone on purpose.
    Skipped,
    /// Creating the folder or moving the file failed; the run went on.
    Failed,
}

/// How many entries of `s` equal `o`.
pub open spec fn count_outcome(s: Seq<MoveOutcome>, o: MoveOutcome) -> nat
    decreases s.len(),
{
    if s.len() == 0 {
        0
    } else {
        count_outcome(s.drop_last(), o) + if s.last() == o {
            1nat
        } else {
            0nat
        }
    }
}

/// Aggregates per-file outcomes into a run summary: each counter is exactly
/// the number of outcomes of its kind.
pub fn summarize(outcomes: &Vec<MoveOutcome>) -> (s: Summary)
    ensures
        s.moved == count_outcome(outcomes@, MoveOutcome::Moved),
        s.skipped == count_outcome(outcomes@, MoveOutcome::Skipped),
        s.failed == count_outcome(outcomes@, MoveOutcome::Failed),
{
    let mut moved: usize = 0;
    let mut skipped: usize = 0;
    let mut failed: usize = 0;
    let mut k: usize = 0;
    proof {
        assert(outcomes@.take(0) =~= Seq::<MoveOutcome>::empty());
    }
    while k < outcomes.len()
        invariant
            k <= outcomes@.len(),
            moved as nat == count_outcome(outcomes@.take(k as int), MoveOutcome::Moved),
            skipped as nat == count_outcome(outcomes@.take(k as int), MoveOutcome::Skipped),
            failed as nat == count_outcome(outcomes@.take(k as int), MoveOutcome::Failed),
            moved <= k,
            skipped <= k,
            failed <= k,
        decreases outcomes@.len() - k,
    {
        let ghost prev = outcomes@.take(k as int);
        match outcomes[k] {
            MoveOutcome::Moved => {
                moved += 1;
            },
            MoveOutcome::Skipped => {
                skipped += 1;
            },
            MoveOutcome::Failed => {
                failed += 1;
            },
        }
        k += 1;
        proof {
            assert(outcomes@.take(k as int).drop_last() =~= prev);
            assert(outcomes@.take(k as int).last() == outcomes@[k - 1]);
        }
    }
    proof {
        assert(outcomes@.take(outcomes@.len() as int) =~= outcomes@);
    }
    Summary { moved, skipped, failed }
}

/// The category table a configuration text loads to, when it parses.
pub open spec fn loaded_table(text: Seq<char>) -> Seq<(Seq<char>, Seq<Seq<char>>)> {
    normalize_table(parse_config(text).unwrap())
}

/// The organizer: a source directory, the traversal mode, and the category
/// table the run classifies with.
#[derive(Debug)]
pub struct FileOrganizer {
    pub source_dir: String,
    pub recursive: bool,
    pub extensions: Vec<Category>,
}

impl FileOrganizer {
    /// Loads a `FileOrganizer` from a configuration text: the text is parsed
    /// as an object of category names to extension arrays and every
    /// extension is normalized; a text outside the grammar is rejected, and
    /// nothing else is.
    pub fn new(source_dir: String, recursive: bool, config_text: &str) -> (r: Result<
        FileOrganizer,
        OrganizeError,
    >)
        ensures
            match r {
                Ok(o) => {
                    &&& parse_config(config_text@) is Some
                    &&& table_view(o.extensions@) == loaded_table(config_text@)
                    &&& wf_table(table_view(o.extensions@))
                    &&& o.source_dir@ == source_dir@
                    &&& o.recursive == recursive
                },
                Err(e) => e is ConfigParseError && parse_config(config_text@) is None,
            },
    {
        let chars = str_to_chars(config_text);
        match parse_config_exec(&chars) {
            Some(pairs) => {
                let extensions = table_from_pairs(&pairs);
                proof {
                    lemma_normalize_table_wf(parse_config(config_text@).unwrap());
                }
                Ok(FileOrganizer { source_dir, recursive, extensions })
            },
            None => Err(OrganizeError::ConfigParseError),
        }
    }

    /// The category of one file name under this organizer's table.
    pub fn categorize_file(&self, name: &str) -> (c: String)
        ensures
            c@ == file_category(table_view(self.extensions@), name@),
    {
        let ext = lowered_extension_of(name);
        let ghost t = table_view(self.extensions@);
        let mut i: usize = 0;
        while i < self.extensions.len()
            invariant
                i <= self.extensions@.len(),
                t == table_view(self.extensions@),
                ext@ == lower(ext_of(name@)),
                forall|k: int| 0 <= k < i ==> !(#[trigger] t[k].1).contains(ext@),
            decreases self.extensions@.len() - i,
        {
            let cat = &self.extensions[i];
            let m = cat.extensions.len();
            let mut j: usize = 0;
            while j < m
                invariant
                    j <= m,
                    m == cat.extensions@.len(),
                    i < self.extensions@.len(),
                    cat == self.extensions@[i as int],
                    t == table_view(self.extensions@),
                    ext@ == lower(ext_of(name@)),
                    forall|k: int| 0 <= k < i ==> !(#[trigger] t[k].1).contains(ext@),
                    forall|k: int| 0 <= k < j ==> cat.extensions@[k]@ != ext@,
                decreases m - j,
            {
                if cat.extensions[j] == ext {
                    proof {
                        assert(t[i as int].1[j as int] == ext@);
                        assert(t[i as int].1.contains(ext@));
                        lemma_first_match(t, ext@, i as int);
                    }
                    return cat.name.clone();
                }
                j += 1;
            }
            proof {
                assert forall|k: int| 0 <= k < t[i as int].1.len() implies t[i as int].1[k]
                    != ext@ by {
                    assert(cat.extensions@[k]@ != ext@);
                }
                assert(!t[i as int].1.contains(ext@));
            }
            i += 1;
        }
        proof {
            lemma_no_match(t, ext@);
        }
        others_string()
    }

    /// Turns a snapshot of discovered files into a plan, one step per file,
    /// in the snapshot's order: each step names the file, its category, the
    /// directory its category folder belongs under, and whether the file
    /// already sits in that folder.
    pub fn organize(&self, entries: &Vec<FileEntry>) -> (plan: Vec<MoveStep>)
        ensures
            plan@.len() == entries@.len(),
            forall|i: int|
                0 <= i < entries@.len() ==> step_ok(
                    #[trigger] plan@[i],
                    self.source_dir@,
                    self.recursive,
                    table_view(self.extensions@),
                    entries@[i],
                ),
    {
        let mut plan: Vec<MoveStep> = Vec::new();
        let mut k: usize = 0;
        while k < entries.len()
            invariant
                k <= entries@.len(),
                plan@.len() == k,
                forall|i: int|
                    0 <= i < k ==> step_ok(
                        #[trigger] plan@[i],
                        self.source_dir@,
                        self.recursive,
                        table_view(self.extensions@),
                        entries@[i],
                    ),
            decreases entries@.len() - k,
        {
            let e = &entries[k];
            let category = self.categorize_file(e.name.as_str());
            let base = if self.recursive {
                e.parent.clone()
            } else {
                self.source_dir.clone()
            };
            let already_placed = if self.recursive {
                base_name(e.parent.as_str()) == category
            } else {
                false
            };
            plan.push(
                MoveStep {
                    parent: e.parent.clone(),
                    name: e.name.clone(),
                    base,
                    category,
                    already_placed,
                },
            );
            k += 1;
        }
        plan
    }
}

} // verus!
//! Laws of the organizer, stated and proved over the same spec functions
//! that the executable functions' contracts use.

use vstd::prelude::*;

use crate::config::{
    lemma_normalize_exts_membership, lemma_normalize_keeps_order, normalize_ext, normalize_table,
    wf_ext, wf_table,
};
use crate::organizer::{
    category_of, dest_base, file_category, last_component, lemma_first_match, lemma_no_match,
    others_seq, placed, step_ok, FileEntry, MoveStep,
};
use crate::text::{ext_of, last_index_of, lower, lower_char};

verus! {

/// Case folding touches only ASCII letters, so it maps `.` to itself and
/// nothing else to `.`.
proof fn lemma_lower_char_dot(c: char)
    ensures
        (lower_char(c) == '.') == (c == '.'),
{
    if 'A' <= c && c <= 'Z' {
        assert(('A' as u32) == 65 && ('Z' as u32) == 90 && ('.' as u32) == 46);
        assert((((c as u32) + 32) as char) as u32 == (c as u32) + 32);
        assert(lower_char(c) as u32 != '.' as u32);
    }
}

/// Case folding moves no dot, so it leaves the position of the last dot
/// alone.
proof fn lemma_last_dot_lower(n: Seq<char>)
    ensures
        last_index_of(lower(n), '.') == last_index_of(n, '.'),
    decreases n.len(),
{
    if n.len() > 0 {
        lemma_lower_char_dot(n.last());
        assert(lower(n).last() == lower_char(n.last()));
        if n.last() == '.' {
        } else {
            assert(lower(n).drop_last() =~= lower(n.drop_last()));
            lemma_last_dot_lower(n.drop_last());
        }
    } else {
        assert(lower(n).len() == 0);
    }
}

/// Folding a name and then taking its extension is the same as taking the
/// extension and folding it.
proof fn lemma_lower_ext(n: Seq<char>)
    ensures
        lower(ext_of(n)) == ext_of(lower(n)),
{
    lemma_last_dot_lower(n);
    let d = last_index_of(n, '.');
    assert(lower(n).len() == n.len());
    if d >= 0 {
        lemma_last_index_bound(n, '.');
        assert forall|k: int| 0 <= k < lower(ext_of(n)).len() implies lower(ext_of(n))[k]
            == ext_of(lower(n))[k] by {
            assert(lower(ext_of(n))[k] == lower_char(n[d + 1 + k]));
            assert(ext_of(lower(n))[k] == lower(n)[d + 1 + k]);
        }
        assert(lower(ext_of(n)) =~= ext_of(lower(n)));
    } else {
        assert(lower(ext_of(n)) =~= ext_of(lower(n)));
    }
}

/// The last occurrence of `m` in `s`, when there is one, lies inside `s`.
proof fn lemma_last_index_bound(s: Seq<char>, m: char)
    ensures
        -1 <= last_index_of(s, m) < s.len(),
    decreases s.len(),
{
    if s.len() > 0 {
        lemma_last_index_bound(s.drop_last(), m);
    }
}

/// Case-insensitivity: two file names that agree up to ASCII case (such as
/// `REPORT.PDF` and `report.pdf`) are classified into the same category,
/// under any table.
pub proof fn lemma_case_insensitive(
    t: Seq<(Seq<char>, Seq<Seq<char>>)>,
    a: Seq<char>,
    b: Seq<char>,
)
    requires
        lower(a) == lower(b),
    ensures
        file_category(t, a) == file_category(t, b),
{
    lemma_lower_ext(a);
    lemma_lower_ext(b);
}

/// A name without a dot carries the empty extension, and the empty extension
/// matches no category of a well-formed table: such a file always lands in
/// `Others`.
pub proof fn lemma_no_extension_others(t: Seq<(Seq<char>, Seq<Seq<char>>)>, name: Seq<char>)
    requires
        wf_table(t),
        last_index_of(name, '.') < 0,
    ensures
        file_category(t, name) == others_seq(),
{
    assert(lower(ext_of(name)) =~= Seq::<char>::empty());
    assert forall|k: int| 0 <= k < t.len() implies !(#[trigger] t[k].1).contains(
        Seq::<char>::empty(),
    ) by {
        assert forall|j: int| 0 <= j < t[k].1.len() implies t[k].1[j]
            != Seq::<char>::empty() by {
            assert(wf_ext(t[k].1[j]));
        }
    }
    lemma_no_match(t, Seq::<char>::empty());
}

/// In a non-recursive run every planned step targets the source directory
/// itself: the file goes to `source_dir/<category>/`, where the category is
/// the first-match lookup of its lowered extension, and no step is marked as
/// already placed.
pub proof fn lemma_non_recursive_placement(
    st: MoveStep,
    src: Seq<char>,
    t: Seq<(Seq<char>, Seq<Seq<char>>)>,
    e: FileEntry,
)
    requires
        step_ok(st, src, false, t, e),
    ensures
        st.base@ == src,
        st.category@ == category_of(t, lower(ext_of(e.name@))),
        !st.already_placed,
{
}

/// In a recursive run every planned step targets the file's own parent
/// directory, never the top of the tree: a file at `source_dir/sub/a.jpg`
/// is planned into `source_dir/sub/<category>/`, so nesting is preserved.
pub proof fn lemma_recursive_in_place(
    st: MoveStep,
    src: Seq<char>,
    t: Seq<(Seq<char>, Seq<Seq<char>>)>,
    e: FileEntry,
)
    requires
        step_ok(st, src, true, t, e),
    ensures
        st.base@ == dest_base(src, true, e.parent@),
        st.base@ == e.parent@,
        st.category@ == category_of(t, lower(ext_of(e.name@))),
{
}

/// First-match tie-break, traced back to the configuration itself: when an
/// earlier-defined category lists a file's lowered extension (up to case and
/// a leading dot) and no category before it does, the file lands in that
/// category under the loaded table — so an extension listed twice always
/// goes to the earlier of its two categories.
pub proof fn lemma_config_first_match(
    p: Seq<(Seq<char>, Seq<Seq<char>>)>,
    name: Seq<char>,
    i: int,
)
    requires
        0 <= i < p.len(),
        lower(ext_of(name)).len() > 0,
        exists|j: int|
            0 <= j < p[i].1.len() && normalize_ext(#[trigger] p[i].1[j]) == lower(ext_of(name)),
        forall|k: int, j: int|
            0 <= k < i && 0 <= j < p[k].1.len() ==> normalize_ext(#[trigger] p[k].1[j]) != lower(
                ext_of(name),
            ),
    ensures
        file_category(normalize_table(p), name) == p[i].0,
{
    let ext = lower(ext_of(name));
    let t = normalize_table(p);
    lemma_normalize_keeps_order(p);
    lemma_normalize_exts_membership(p[i].1, ext);
    assert(t[i].1.contains(ext));
    assert forall|k: int| 0 <= k < i implies !(#[trigger] t[k].1).contains(ext) by {
        lemma_normalize_exts_membership(p[k].1, ext);
    }
    lemma_first_match(t, ext, i);
}

/// Appending characters other than `m` does not move the last occurrence of
/// `m`.
proof fn lemma_last_index_append(s: Seq<char>, u: Seq<char>, m: char)
    requires
        forall|k: int| 0 <= k < u.len() ==> u[k] != m,
    ensures
        last_index_of(s + u, m) == last_index_of(s, m),
    decreases u.len(),
{
    if u.len() == 0 {
        assert(s + u =~= s);
    } else {
        assert((s + u).last() == u.last());
        assert((s + u).drop_last() =~= s + u.drop_last());
        lemma_last_index_append(s, u.drop_last(), m);
    }
}

/// The last component of `base/<cat>` is `cat`, for any category name free
/// of separators.
proof fn lemma_last_component_join(base: Seq<char>, cat: Seq<char>)
    requires
        forall|k: int| 0 <= k < cat.len() ==> cat[k] != '/',
    ensures
        last_component(base + seq!['/'] + cat) == cat,
{
    let with_sep = base + seq!['/'];
    lemma_last_index_append(with_sep, cat, '/');
    assert(with_sep.last() == '/');
    assert(last_index_of(with_sep, '/') == base.len());
    assert(last_component(with_sep + cat) =~= cat);
}

/// Idempotence of a recursive run: once a file has been moved into its
/// category folder, a later recursive run over the organized tree finds it
/// with a parent directory named after its category and marks it as already
/// placed, so the run moves it nowhere. (A non-recursive run is idempotent
/// for a different reason, outside this model: organized files are no longer
/// direct entries of the source directory.) The category name must be free
/// of path separators for "parent named after the category" to be
/// meaningful.
pub proof fn lemma_recursive_idempotent(
    t: Seq<(Seq<char>, Seq<Seq<char>>)>,
    base: Seq<char>,
    name: Seq<char>,
)
    requires
        forall|k: int|
            0 <= k < file_category(t, name).len() ==> file_category(t, name)[k] != '/',
    ensures
        placed(true, t, base + seq!['/'] + file_category(t, name), name),
{
    lemma_last_component_join(base, file_category(t, name));
}

} // verus!
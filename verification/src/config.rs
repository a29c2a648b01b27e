//! The category table and its configuration format.
//!
//! A configuration is a JSON object whose keys are category names and whose
//! values are arrays of extension strings, in the order the categories are
//! defined; that order decides ties between categories (first match wins).
//! The grammar accepted here is that JSON subset: an object of string keys
//! and string-array values, with the usual whitespace and the single-character
//! string escapes (`\"`, `\\`, `\/`, `\b`, `\f`, `\n`, `\r`, `\t`); `\u`
//! escapes are rejected as malformed.
//!
//! Loading normalizes every extension: one leading dot is stripped, ASCII
//! upper-case letters are folded to lower case, and entries that are empty
//! after stripping are dropped, so that a file with no extension can never
//! match a configured category.

use vstd::prelude::*;

use crate::text::{chars_to_string, lower, lower_char, lower_char_exec};

verus! {

/// The error kinds a run can produce. The library itself reports only
/// `ConfigParseError`; the remaining kinds describe filesystem failures that
/// the surrounding binary maps onto the same vocabulary.
#[derive(Debug, Clone, PartialEq, Eq)]
pub enum OrganizeError {
    /// The source path does not exist or is not a directory.
    InvalidSourceDirectory,
    /// The configuration file is absent.
    ConfigNotFound,
    /// The configuration text does not match the accepted grammar.
    ConfigParseError,
    /// A category folder could not be created.
    DirectoryCreateFailed,
    /// A file could not be moved to its destination.
    FileMoveFailed,
}

/// JSON whitespace.
pub open spec fn is_ws(c: char) -> bool {
    c == ' ' || c == '\t' || c == '\n' || c == '\r'
}

/// First index at or after `i` that does not hold whitespace.
pub open spec fn skip_ws(s: Seq<char>, i: int) -> int
    decreases s.len() - i
        when 0 <= i <= s.len()
{
    if i < s.len() && is_ws(s[i]) {
        skip_ws(s, i + 1)
    } else {
        i
    }
}

pub proof fn lemma_skip_ws(s: Seq<char>, i: int)
    requires
        0 <= i <= s.len(),
    ensures
        i <= skip_ws(s, i) <= s.len(),
    decreases s.len() - i,
{
    if i < s.len() && is_ws(s[i]) {
        lemma_skip_ws(s, i + 1);
    }
}

/// The characters that may follow a backslash in a string.
pub open spec fn escape_ok(c: char) -> bool {
    c == '"' || c == '\\' || c == '/' || c == 'b' || c == 'f' || c == 'n' || c == 'r' || c == 't'
}

/// The character an accepted escape stands for.
pub open spec fn unescape(c: char) -> char {
    if c == 'b' {
        '\u{8}'
    } else if c == 'f' {
        '\u{c}'
    } else if c == 'n' {
        '\n'
    } else if c == 'r' {
        '\r'
    } else if c == 't' {
        '\t'
    } else {
        c
    }
}

/// Parses a string body starting at `i` (just after the opening quote):
/// the decoded content and the index just after the closing quote.
pub open spec fn parse_string_body(s: Seq<char>, i: int) -> Option<(Seq<char>, int)>
    decreases s.len() - i
        when 0 <= i <= s.len()
{
    if i >= s.len() {
        None
    } else if s[i] == '"' {
        Some((Seq::empty(), i + 1))
    } else if s[i] == '\\' {
        if i + 1 < s.len() && escape_ok(s[i + 1]) {
            match parse_string_body(s, i + 2) {
                Some(p) => Some((seq![unescape(s[i + 1])] + p.0, p.1)),
                None => None,
            }
        } else {
            None
        }
    } else {
        match parse_string_body(s, i + 1) {
            Some(p) => Some((seq![s[i]] + p.0, p.1)),
            None => None,
        }
    }
}

pub proof fn lemma_parse_string_body(s: Seq<char>, i: int)
    requires
        0 <= i <= s.len(),
    ensures
        match parse_string_body(s, i) {
            Some(p) => i < p.1 <= s.len(),
            None => true,
        },
    decreases s.len() - i,
{
    if i >= s.len() {
    } else if s[i] == '"' {
    } else if s[i] == '\\' {
        if i + 1 < s.len() && escape_ok(s[i + 1]) {
            lemma_parse_string_body(s, i + 2);
        }
    } else {
        lemma_parse_string_body(s, i + 1);
    }
}

/// Parses a quoted string whose opening quote stands at `i`.
pub open spec fn parse_string(s: Seq<char>, i: int) -> Option<(Seq<char>, int)> {
    if 0 <= i < s.len() && s[i] == '"' {
        parse_string_body(s, i + 1)
    } else {
        None
    }
}

pub proof fn lemma_parse_string(s: Seq<char>, i: int)
    requires
        0 <= i <= s.len(),
    ensures
        match parse_string(s, i) {
            Some(p) => i < p.1 <= s.len(),
            None => true,
        },
{
    if 0 <= i < s.len() && s[i] == '"' {
        lemma_parse_string_body(s, i + 1);
    }
}

/// Parses the items of a non-empty string array, starting just after the
/// opening `[` or after a `,`: the items and the index just after the `]`.
pub open spec fn parse_array_items(s: Seq<char>, i: int) -> Option<(Seq<Seq<char>>, int)>
    decreases s.len() - i
        when 0 <= i <= s.len()
{
    let j = skip_ws(s, i);
    match parse_string(s, j) {
        Some(p) => {
            let m = skip_ws(s, p.1);
            if m < s.len() && s[m] == ',' {
                proof {
                    lemma_skip_ws(s, i);
                    lemma_parse_string(s, j);
                    lemma_skip_ws(s, p.1);
                }
                match parse_array_items(s, m + 1) {
                    Some(q) => Some((seq![p.0] + q.0, q.1)),
                    None => None,
                }
            } else if m < s.len() && s[m] == ']' {
                Some((seq![p.0], m + 1))
            } else {
                None
            }
        },
        None => None,
    }
}

pub proof fn lemma_parse_array_items(s: Seq<char>, i: int)
    requires
        0 <= i <= s.len(),
    ensures
        match parse_array_items(s, i) {
            Some(p) => i < p.1 <= s.len(),
            None => true,
        },
    decreases s.len() - i,
{
    let j = skip_ws(s, i);
    lemma_skip_ws(s, i);
    match parse_string(s, j) {
        Some(p) => {
            lemma_parse_string(s, j);
            let m = skip_ws(s, p.1);
            lemma_skip_ws(s, p.1);
            if m < s.len() && s[m] == ',' {
                lemma_parse_array_items(s, m + 1);
            }
        },
        None => {},
    }
}

/// Parses a string array whose opening `[` stands at `i`.
pub open spec fn parse_array(s: Seq<char>, i: int) -> Option<(Seq<Seq<char>>, int)> {
    if 0 <= i < s.len() && s[i] == '[' {
        let j = skip_ws(s, i + 1);
        if j < s.len() && s[j] == ']' {
            Some((Seq::empty(), j + 1))
        } else {
            parse_array_items(s, i + 1)
        }
    } else {
        None
    }
}

pub proof fn lemma_parse_array(s: Seq<char>, i: int)
    requires
        0 <= i <= s.len(),
    ensures
        match parse_array(s, i) {
            Some(p) => i < p.1 <= s.len(),
            None => true,
        },
{
    if 0 <= i < s.len() && s[i] == '[' {
        lemma_skip_ws(s, i + 1);
        lemma_parse_array_items(s, i + 1);
    }
}

/// Parses the members of a non-empty object, starting just after the opening
/// `{` or after a `,`: the category pairs and the index just after the `}`.
pub open spec fn parse_members(s: Seq<char>, i: int) -> Option<
    (Seq<(Seq<char>, Seq<Seq<char>>)>, int),
>
    decreases s.len() - i
        when 0 <= i <= s.len()
{
    let j = skip_ws(s, i);
    match parse_string(s, j) {
        Some(p) => {
            let m = skip_ws(s, p.1);
            if m < s.len() && s[m] == ':' {
                proof {
                    lemma_skip_ws(s, i);
                    lemma_parse_string(s, j);
                    lemma_skip_ws(s, p.1);
                }
                let a = skip_ws(s, m + 1);
                match parse_array(s, a) {
                    Some(q) => {
                        let w = skip_ws(s, q.1);
                        if w < s.len() && s[w] == ',' {
                            proof {
                                lemma_skip_ws(s, m + 1);
                                lemma_parse_array(s, a);
                                lemma_skip_ws(s, q.1);
                            }
                            match parse_members(s, w + 1) {
                                Some(r) => Some((seq![(p.0, q.0)] + r.0, r.1)),
                                None => None,
                            }
                        } else if w < s.len() && s[w] == '}' {
                            Some((seq![(p.0, q.0)], w + 1))
                        } else {
                            None
                        }
                    },
                    None => None,
                }
            } else {
                None
            }
        },
        None => None,
    }
}

pub proof fn lemma_parse_members(s: Seq<char>, i: int)
    requires
        0 <= i <= s.len(),
    ensures
        match parse_members(s, i) {
            Some(p) => i < p.1 <= s.len(),
            None => true,
        },
    decreases s.len() - i,
{
    let j = skip_ws(s, i);
    lemma_skip_ws(s, i);
    match parse_string(s, j) {
        Some(p) => {
            lemma_parse_string(s, j);
            let m = skip_ws(s, p.1);
            lemma_skip_ws(s, p.1);
            if m < s.len() && s[m] == ':' {
                let a = skip_ws(s, m + 1);
                lemma_skip_ws(s, m + 1);
                match parse_array(s, a) {
                    Some(q) => {
                        lemma_parse_array(s, a);
                        let w = skip_ws(s, q.1);
                        lemma_skip_ws(s, q.1);
                        if w < s.len() && s[w] == ',' {
                            lemma_parse_members(s, w + 1);
                        }
                    },
                    None => {},
                }
            }
        },
        None => {},
    }
}

/// Parses a whole configuration text: a JSON object of category names to
/// extension arrays, with nothing but whitespace around it. `None` stands
/// for a malformed text.
pub open spec fn parse_config(s: Seq<char>) -> Option<Seq<(Seq<char>, Seq<Seq<char>>)>> {
    let i = skip_ws(s, 0);
    if i < s.len() && s[i] == '{' {
        let j = skip_ws(s, i + 1);
        if j < s.len() && s[j] == '}' {
            if skip_ws(s, j + 1) == s.len() {
                Some(Seq::empty())
            } else {
                None
            }
        } else {
            match parse_members(s, i + 1) {
                Some(p) => {
                    if skip_ws(s, p.1) == s.len() {
                        Some(p.0)
                    } else {
                        None
                    }
                },
                None => None,
            }
        }
    } else {
        None
    }
}

/// The views of a list of character vectors.
pub open spec fn exts_view(v: Seq<Vec<char>>) -> Seq<Seq<char>> {
    v.map_values(|x: Vec<char>| x@)
}

/// The views of a list of parsed (category name, extension list) pairs.
pub open spec fn pairs_view(v: Seq<(Vec<char>, Vec<Vec<char>>)>) -> Seq<
    (Seq<char>, Seq<Seq<char>>),
> {
    v.map_values(|p: (Vec<char>, Vec<Vec<char>>)| (p.0@, exts_view(p.1@)))
}

fn skip_ws_exec(s: &Vec<char>, i: usize) -> (r: usize)
    requires
        i <= s.len(),
    ensures
        r as int == skip_ws(s@, i as int),
        i <= r <= s.len(),
{
    let mut j: usize = i;
    while j < s.len() && (s[j] == ' ' || s[j] == '\t' || s[j] == '\n' || s[j] == '\r')
        invariant
            i <= j <= s.len(),
            skip_ws(s@, i as int) == skip_ws(s@, j as int),
        decreases s.len() - j,
    {
        j += 1;
    }
    j
}

fn escape_ok_exec(c: char) -> (r: bool)
    ensures
        r == escape_ok(c),
{
    c == '"' || c == '\\' || c == '/' || c == 'b' || c == 'f' || c == 'n' || c == 'r' || c == 't'
}

fn unescape_exec(c: char) -> (r: char)
    ensures
        r == unescape(c),
{
    if c == 'b' {
        '\u{8}'
    } else if c == 'f' {
        '\u{c}'
    } else if c == 'n' {
        '\n'
    } else if c == 'r' {
        '\r'
    } else if c == 't' {
        '\t'
    } else {
        c
    }
}

fn parse_string_body_exec(s: &Vec<char>, i: usize) -> (r: Option<(Vec<char>, usize)>)
    requires
        i <= s.len(),
    ensures
        match r {
            Some(p) => parse_string_body(s@, i as int) == Some((p.0@, p.1 as int)) && i < p.1
                <= s.len(),
            None => parse_string_body(s@, i as int) is None,
        },
    decreases s.len() - i,
{
    if i >= s.len() {
        None
    } else {
        let c = s[i];
        if c == '"' {
            Some((Vec::new(), i + 1))
        } else if c == '\\' {
            if i + 1 < s.len() && escape_ok_exec(s[i + 1]) {
                match parse_string_body_exec(s, i + 2) {
                    Some(p) => {
                        let (mut t, j) = p;
                        let ghost t0 = t@;
                        let e = unescape_exec(s[i + 1]);
                        t.insert(0, e);
                        proof {
                            assert(t@ =~= seq![unescape(s@[i + 1])] + t0);
                        }
                        Some((t, j))
                    },
                    None => None,
                }
            } else {
                None
            }
        } else {
            match parse_string_body_exec(s, i + 1) {
                Some(p) => {
                    let (mut t, j) = p;
                    let ghost t0 = t@;
                    t.insert(0, c);
                    proof {
                        assert(t@ =~= seq![s@[i as int]] + t0);
                    }
                    Some((t, j))
                },
                None => None,
            }
        }
    }
}

fn parse_string_exec(s: &Vec<char>, i: usize) -> (r: Option<(Vec<char>, usize)>)
    requires
        i <= s.len(),
    ensures
        match r {
            Some(p) => parse_string(s@, i as int) == Some((p.0@, p.1 as int)) && i < p.1 <= s.len(),
            None => parse_string(s@, i as int) is None,
        },
{
    if i < s.len() && s[i] == '"' {
        parse_string_body_exec(s, i + 1)
    } else {
        None
    }
}

fn parse_array_items_exec(s: &Vec<char>, i: usize) -> (r: Option<(Vec<Vec<char>>, usize)>)
    requires
        i <= s.len(),
    ensures
        match r {
            Some(p) => parse_array_items(s@, i as int) == Some((exts_view(p.0@), p.1 as int)) && i
                < p.1 <= s.len(),
            None => parse_array_items(s@, i as int) is None,
        },
    decreases s.len() - i,
{
    let j = skip_ws_exec(s, i);
    match parse_string_exec(s, j) {
        Some(p) => {
            let (t, k) = p;
            let m = skip_ws_exec(s, k);
            if m < s.len() && s[m] == ',' {
                match parse_array_items_exec(s, m + 1) {
                    Some(q) => {
                        let (mut items, e) = q;
                        let ghost items0 = items@;
                        items.insert(0, t);
                        proof {
                            assert(exts_view(items@) =~= seq![items@[0]@] + exts_view(items0));
                        }
                        Some((items, e))
                    },
                    None => None,
                }
            } else if m < s.len() && s[m] == ']' {
                let mut items: Vec<Vec<char>> = Vec::new();
                items.push(t);
                proof {
                    assert(exts_view(items@) =~= seq![items@[0]@]);
                }
                Some((items, m + 1))
            } else {
                None
            }
        },
        None => None,
    }
}

fn parse_array_exec(s: &Vec<char>, i: usize) -> (r: Option<(Vec<Vec<char>>, usize)>)
    requires
        i <= s.len(),
    ensures
        match r {
            Some(p) => parse_array(s@, i as int) == Some((exts_view(p.0@), p.1 as int)) && i < p.1
                <= s.len(),
            None => parse_array(s@, i as int) is None,
        },
{
    if i < s.len() && s[i] == '[' {
        let j = skip_ws_exec(s, i + 1);
        if j < s.len() && s[j] == ']' {
            let items: Vec<Vec<char>> = Vec::new();
            proof {
                assert(exts_view(items@) =~= Seq::<Seq<char>>::empty());
            }
            Some((items, j + 1))
        } else {
            parse_array_items_exec(s, i + 1)
        }
    } else {
        None
    }
}

fn parse_members_exec(s: &Vec<char>, i: usize) -> (r: Option<
    (Vec<(Vec<char>, Vec<Vec<char>>)>, usize),
>)
    requires
        i <= s.len(),
    ensures
        match r {
            Some(p) => parse_members(s@, i as int) == Some((pairs_view(p.0@), p.1 as int)) && i
                < p.1 <= s.len(),
            None => parse_members(s@, i as int) is None,
        },
    decreases s.len() - i,
{
    let j = skip_ws_exec(s, i);
    match parse_string_exec(s, j) {
        Some(p) => {
            let (name, k) = p;
            let m = skip_ws_exec(s, k);
            if m < s.len() && s[m] == ':' {
                let a = skip_ws_exec(s, m + 1);
                match parse_array_exec(s, a) {
                    Some(q) => {
                        let (exts, e) = q;
                        let w = skip_ws_exec(s, e);
                        if w < s.len() && s[w] == ',' {
                            match parse_members_exec(s, w + 1) {
                                Some(rr) => {
                                    let (mut pairs, z) = rr;
                                    let ghost pairs0 = pairs@;
                                    pairs.insert(0, (name, exts));
                                    proof {
                                        assert(pairs_view(pairs@) =~= seq![
                                            (pairs@[0].0@, exts_view(pairs@[0].1@)),
                                        ] + pairs_view(pairs0));
                                    }
                                    Some((pairs, z))
                                },
                                None => None,
                            }
                        } else if w < s.len() && s[w] == '}' {
                            let mut pairs: Vec<(Vec<char>, Vec<Vec<char>>)> = Vec::new();
                            pairs.push((name, exts));
                            proof {
                                assert(pairs_view(pairs@) =~= seq![
                                    (pairs@[0].0@, exts_view(pairs@[0].1@)),
                                ]);
                            }
                            Some((pairs, w + 1))
                        } else {
                            None
                        }
                    },
                    None => None,
                }
            } else {
                None
            }
        },
        None => None,
    }
}

/// Parses a whole configuration text into (category name, extension list)
/// pairs, in definition order; `None` exactly where the text does not match
/// the accepted grammar.
pub fn parse_config_exec(s: &Vec<char>) -> (r: Option<Vec<(Vec<char>, Vec<Vec<char>>)>>)
    ensures
        match r {
            Some(v) => parse_config(s@) == Some(pairs_view(v@)),
            None => parse_config(s@) is None,
        },
{
    let i = skip_ws_exec(s, 0);
    if i < s.len() && s[i] == '{' {
        let j = skip_ws_exec(s, i + 1);
        if j < s.len() && s[j] == '}' {
            if skip_ws_exec(s, j + 1) == s.len() {
                let pairs: Vec<(Vec<char>, Vec<Vec<char>>)> = Vec::new();
                proof {
                    assert(pairs_view(pairs@) =~= Seq::<(Seq<char>, Seq<Seq<char>>)>::empty());
                }
                Some(pairs)
            } else {
                None
            }
        } else {
            match parse_members_exec(s, i + 1) {
                Some(p) => {
                    let (pairs, e) = p;
                    if skip_ws_exec(s, e) == s.len() {
                        Some(pairs)
                    } else {
                        None
                    }
                },
                None => None,
            }
        }
    } else {
        None
    }
}

/// One category: its name and its normalized extension set, in the order the
/// configuration listed them.
#[derive(Debug, Clone, PartialEq, Eq)]
pub struct Category {
    pub name: String,
    pub extensions: Vec<String>,
}

/// The views of a list of strings.
pub open spec fn strs_view(v: Seq<String>) -> Seq<Seq<char>> {
    v.map_values(|x: String| x@)
}

/// The view of one category.
pub open spec fn cat_view(c: Category) -> (Seq<char>, Seq<Seq<char>>) {
    (c.name@, strs_view(c.extensions@))
}

/// The view of a whole category table.
pub open spec fn table_view(t: Seq<Category>) -> Seq<(Seq<char>, Seq<Seq<char>>)> {
    t.map_values(|c: Category| cat_view(c))
}

/// One leading dot removed, if any.
pub open spec fn strip_dot(e: Seq<char>) -> Seq<char> {
    if e.len() > 0 && e[0] == '.' {
        e.drop_first()
    } else {
        e
    }
}

/// A configured extension, normalized: one leading dot stripped, then folded
/// to ASCII lower case.
pub open spec fn normalize_ext(e: Seq<char>) -> Seq<char> {
    lower(strip_dot(e))
}

/// An extension list, normalized, with entries that are empty after
/// stripping dropped.
pub open spec fn normalize_exts(l: Seq<Seq<char>>) -> Seq<Seq<char>>
    decreases l.len(),
{
    if l.len() == 0 {
        Seq::empty()
    } else {
        let rest = normalize_exts(l.drop_last());
        if normalize_ext(l.last()).len() == 0 {
            rest
        } else {
            rest.push(normalize_ext(l.last()))
        }
    }
}

/// A whole parsed configuration, normalized, with the category order kept.
pub open spec fn normalize_table(p: Seq<(Seq<char>, Seq<Seq<char>>)>) -> Seq<
    (Seq<char>, Seq<Seq<char>>),
>
    decreases p.len(),
{
    if p.len() == 0 {
        Seq::empty()
    } else {
        normalize_table(p.drop_last()).push((p.last().0, normalize_exts(p.last().1)))
    }
}

/// An ASCII upper-case letter.
pub open spec fn is_upper(c: char) -> bool {
    'A' <= c && c <= 'Z'
}

/// A well-formed stored extension: non-empty and free of upper-case ASCII.
pub open spec fn wf_ext(e: Seq<char>) -> bool {
    e.len() > 0 && (forall|k: int| 0 <= k < e.len() ==> !is_upper(e[k]))
}

/// A well-formed table: every extension of every category is well-formed.
pub open spec fn wf_table(t: Seq<(Seq<char>, Seq<Seq<char>>)>) -> bool {
    forall|i: int, j: int|
        0 <= i < t.len() && 0 <= j < t[i].1.len() ==> wf_ext(#[trigger] t[i].1[j])
}

pub proof fn lemma_normalize_ext_wf(e: Seq<char>)
    requires
        normalize_ext(e).len() > 0,
    ensures
        wf_ext(normalize_ext(e)),
{
    assert forall|k: int| 0 <= k < normalize_ext(e).len() implies !is_upper(
        normalize_ext(e)[k],
    ) by {
        let c = strip_dot(e)[k];
        assert(normalize_ext(e)[k] == lower_char(c));
    }
}

pub proof fn lemma_normalize_exts_wf(l: Seq<Seq<char>>)
    ensures
        forall|j: int| 0 <= j < normalize_exts(l).len() ==> wf_ext(#[trigger] normalize_exts(l)[j]),
    decreases l.len(),
{
    if l.len() > 0 {
        lemma_normalize_exts_wf(l.drop_last());
        if normalize_ext(l.last()).len() > 0 {
            lemma_normalize_ext_wf(l.last());
        }
        let rest = normalize_exts(l.drop_last());
        assert forall|j: int| 0 <= j < normalize_exts(l).len() implies wf_ext(
            #[trigger] normalize_exts(l)[j],
        ) by {
            if j < rest.len() {
                assert(normalize_exts(l)[j] == rest[j]);
            } else {
                assert(normalize_exts(l)[j] == normalize_ext(l.last()));
            }
        }
    }
}

/// Loading yields a well-formed table: every stored extension is non-empty
/// and holds no upper-case ASCII letter.
pub proof fn lemma_normalize_table_wf(p: Seq<(Seq<char>, Seq<Seq<char>>)>)
    ensures
        wf_table(normalize_table(p)),
    decreases p.len(),
{
    if p.len() > 0 {
        lemma_normalize_table_wf(p.drop_last());
        lemma_normalize_exts_wf(p.last().1);
        let rest = normalize_table(p.drop_last());
        let t = normalize_table(p);
        assert forall|i: int, j: int| 0 <= i < t.len() && 0 <= j < t[i].1.len() implies wf_ext(
            #[trigger] t[i].1[j],
        ) by {
            if i < rest.len() {
                assert(t[i] == rest[i]);
            } else {
                assert(t[i].1 == normalize_exts(p.last().1));
            }
        }
    }
}

/// Normalization keeps the configuration's shape: the table has one entry
/// per configured category, under the same name and in the same position,
/// so the first-match tie-break between categories follows definition order.
pub proof fn lemma_normalize_keeps_order(p: Seq<(Seq<char>, Seq<Seq<char>>)>)
    ensures
        normalize_table(p).len() == p.len(),
        forall|i: int|
            0 <= i < p.len() ==> #[trigger] normalize_table(p)[i] == (
            p[i].0,
            normalize_exts(p[i].1),
            ),
    decreases p.len(),
{
    if p.len() > 0 {
        lemma_normalize_keeps_order(p.drop_last());
    }
}

/// A normalized extension set holds exactly the normalizations of the
/// configured entries, minus the ones that are empty after stripping: an
/// extension matches a category if and only if the configuration listed it
/// for that category, up to case and a leading dot.
pub proof fn lemma_normalize_exts_membership(l: Seq<Seq<char>>, x: Seq<char>)
    ensures
        normalize_exts(l).contains(x) <==> (x.len() > 0 && exists|j: int|
            0 <= j < l.len() && normalize_ext(#[trigger] l[j]) == x),
    decreases l.len(),
{
    if l.len() > 0 {
        lemma_normalize_exts_membership(l.drop_last(), x);
        let rest = normalize_exts(l.drop_last());
        let whole = normalize_exts(l);
        if rest.contains(x) {
            let w = choose|k: int| 0 <= k < rest.len() && rest[k] == x;
            assert(whole[w] == x);
        }
        if normalize_ext(l.last()).len() == 0 {
        } else {
            if normalize_ext(l.last()) == x {
                assert(whole.last() == x);
                assert(whole.contains(x));
            }
            if whole.contains(x) && !rest.contains(x) {
                let w = choose|k: int| 0 <= k < whole.len() && whole[k] == x;
                if w < rest.len() {
                    assert(rest[w] == x);
                }
            }
        }
        if x.len() > 0 && (exists|j: int| 0 <= j < l.len() && normalize_ext(#[trigger] l[j]) == x) {
            let j = choose|j: int| 0 <= j < l.len() && normalize_ext(#[trigger] l[j]) == x;
            if j < l.len() - 1 {
                assert(l.drop_last()[j] == l[j]);
                assert(rest.contains(x));
                let w = choose|k: int| 0 <= k < rest.len() && rest[k] == x;
                assert(whole[w] == x);
            } else {
                assert(l.last() == l[j]);
            }
        }
    }
}

fn normalize_ext_exec(e: &Vec<char>) -> (r: Vec<char>)
    ensures
        r@ == normalize_ext(e@),
{
    let start: usize = if e.len() > 0 && e[0] == '.' {
        1
    } else {
        0
    };
    let mut out: Vec<char> = Vec::new();
    let mut k: usize = start;
    while k < e.len()
        invariant
            start <= k <= e.len(),
            start == (if e@.len() > 0 && e@[0] == '.' {
                1int
            } else {
                0int
            }),
            out@ == lower(e@.subrange(start as int, k as int)),
        decreases e.len() - k,
    {
        out.push(lower_char_exec(e[k]));
        k += 1;
        proof {
            assert(out@ =~= lower(e@.subrange(start as int, k as int)));
        }
    }
    proof {
        assert(strip_dot(e@) =~= e@.subrange(start as int, e@.len() as int));
        assert(out@ =~= normalize_ext(e@));
    }
    out
}

fn normalize_exts_exec(l: &Vec<Vec<char>>) -> (r: Vec<String>)
    ensures
        strs_view(r@) == normalize_exts(exts_view(l@)),
{
    let mut out: Vec<String> = Vec::new();
    let mut k: usize = 0;
    proof {
        assert(exts_view(l@).take(0) =~= Seq::<Seq<char>>::empty());
        assert(strs_view(out@) =~= Seq::<Seq<char>>::empty());
    }
    while k < l.len()
        invariant
            k <= l.len(),
            strs_view(out@) == normalize_exts(exts_view(l@).take(k as int)),
        decreases l.len() - k,
    {
        let ghost prev = exts_view(l@).take(k as int);
        let ne = normalize_ext_exec(&l[k]);
        if ne.len() > 0 {
            let ghost out0 = out@;
            out.push(chars_to_string(&ne));
            proof {
                assert(strs_view(out@) =~= strs_view(out0).push(ne@));
            }
        }
        k += 1;
        proof {
            let cur = exts_view(l@).take(k as int);
            assert(cur.drop_last() =~= prev);
            assert(cur.last() == l@[k - 1]@);
        }
    }
    proof {
        assert(exts_view(l@).take(l@.len() as int) =~= exts_view(l@));
    }
    out
}

/// Builds the category table from parsed pairs, normalizing every extension
/// and keeping the configuration's category order.
pub fn table_from_pairs(p: &Vec<(Vec<char>, Vec<Vec<char>>)>) -> (r: Vec<Category>)
    ensures
        table_view(r@) == normalize_table(pairs_view(p@)),
{
    let mut out: Vec<Category> = Vec::new();
    let mut k: usize = 0;
    proof {
        assert(pairs_view(p@).take(0) =~= Seq::<(Seq<char>, Seq<Seq<char>>)>::empty());
        assert(table_view(out@) =~= Seq::<(Seq<char>, Seq<Seq<char>>)>::empty());
    }
    while k < p.len()
        invariant
            k <= p.len(),
            table_view(out@) == normalize_table(pairs_view(p@).take(k as int)),
        decreases p.len() - k,
    {
        let ghost prev = pairs_view(p@).take(k as int);
        let ghost out0 = out@;
        let pair = &p[k];
        let name = chars_to_string(&pair.0);
        let extensions = normalize_exts_exec(&pair.1);
        out.push(Category { name, extensions });
        k += 1;
        proof {
            let cur = pairs_view(p@).take(k as int);
            assert(cur.drop_last() =~= prev);
            assert(cur.last() == (p@[k - 1].0@, exts_view(p@[k - 1].1@)));
            assert(table_view(out@) =~= table_view(out0).push(cat_view(out@[out@.len() - 1])));
        }
    }
    proof {
        assert(pairs_view(p@).take(p@.len() as int) =~= pairs_view(p@));
    }
    out
}

} // verus!

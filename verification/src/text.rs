//! Character and name helpers: ASCII case folding, locating the last
//! occurrence of a marker character, and extracting a file name's extension
//! (the text after the last `.`, or the empty string when there is none).

use vstd::prelude::*;

verus! {

/// ASCII case folding of one character: `A`..`Z` map to `a`..`z`, every
/// other character is unchanged.
pub open spec fn lower_char(c: char) -> char {
    if 'A' <= c && c <= 'Z' {
        ((c as u32) + 32) as char
    } else {
        c
    }
}

/// ASCII case folding of a whole character sequence.
pub open spec fn lower(s: Seq<char>) -> Seq<char> {
    Seq::new(s.len(), |k: int| lower_char(s[k]))
}

/// Index of the last occurrence of `m` in `s`, or `-1` when `s` does not
/// contain `m`.
pub open spec fn last_index_of(s: Seq<char>, m: char) -> int
    decreases s.len(),
{
    if s.len() == 0 {
        -1
    } else if s[s.len() - 1] == m {
        s.len() - 1
    } else {
        last_index_of(s.drop_last(), m)
    }
}

/// The extension of a file name: the text after the last `.`, or the empty
/// sequence when the name holds no `.` at all (so `README` and names with a
/// trailing dot both yield the empty extension).
pub open spec fn ext_of(name: Seq<char>) -> Seq<char> {
    if last_index_of(name, '.') >= 0 {
        name.subrange(last_index_of(name, '.') + 1, name.len() as int)
    } else {
        Seq::empty()
    }
}

/// Exec counterpart of [`lower_char`].
pub fn lower_char_exec(c: char) -> (r: char)
    ensures
        r == lower_char(c),
{
    if 'A' <= c && c <= 'Z' {
        ((c as u8) + 32) as char
    } else {
        c
    }
}

/// Copies the characters of a string slice into a vector.
pub fn str_to_chars(s: &str) -> (v: Vec<char>)
    ensures
        v@ == s@,
{
    let n = s.unicode_len();
    let mut v: Vec<char> = Vec::new();
    let mut i: usize = 0;
    while i < n
        invariant
            i <= n,
            n == s@.len(),
            v@ == s@.take(i as int),
        decreases n - i,
    {
        v.push(s.get_char(i));
        i += 1;
        proof {
            assert(v@ =~= s@.take(i as int));
        }
    }
    proof {
        assert(v@ =~= s@);
    }
    v
}

/// Relies on `String`'s `FromIterator<char>`: collecting characters yields a
/// string made of exactly those characters, in order.
#[verifier::external_body]
pub fn chars_to_string(v: &Vec<char>) -> (s: String)
    ensures
        s@ == v@,
{
    v.iter().collect()
}

/// The extension of `name` folded to ASCII lower case, as a fresh string.
pub fn lowered_extension_of(name: &str) -> (e: String)
    ensures
        e@ == lower(ext_of(name@)),
{
    let chars = str_to_chars(name);
    let n = chars.len();
    let mut j: usize = n;
    proof {
        assert(name@.take(n as int) =~= name@);
    }
    while j > 0 && chars[j - 1] != '.'
        invariant
            j <= n,
            n == chars@.len(),
            chars@ == name@,
            last_index_of(name@.take(j as int), '.') == last_index_of(name@, '.'),
        decreases j,
    {
        j -= 1;
        proof {
            assert(name@.take(j + 1).drop_last() =~= name@.take(j as int));
        }
    }
    let mut out: Vec<char> = Vec::new();
    if j > 0 {
        proof {
            assert(name@.take(j as int)[j - 1] == '.');
            assert(last_index_of(name@, '.') == j - 1);
        }
        let mut k: usize = j;
        while k < n
            invariant
                j <= k <= n,
                n == chars@.len(),
                chars@ == name@,
                last_index_of(name@, '.') == j - 1,
                j >= 1,
                out@ == lower(name@.subrange(j as int, k as int)),
            decreases n - k,
        {
            out.push(lower_char_exec(chars[k]));
            k += 1;
            proof {
                assert(out@ =~= lower(name@.subrange(j as int, k as int)));
            }
        }
        proof {
            assert(out@ =~= lower(ext_of(name@)));
        }
    } else {
        proof {
            assert(last_index_of(name@.take(0), '.') == -1) by {
                assert(name@.take(0).len() == 0);
            }
            assert(out@ =~= lower(ext_of(name@)));
        }
    }
    chars_to_string(&out)
}

} // verus!

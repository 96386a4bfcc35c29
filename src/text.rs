//! Character-level matching on file names: substrings, prefixes, sidecar names.

use vstd::prelude::*;
use vstd::string::*;
use crate::naming::chunk_marker;

verus! {

/// `t` occurs in `s` at position `i`.
pub open spec fn occurs_at(s: Seq<char>, t: Seq<char>, i: int) -> bool {
    0 <= i && i + t.len() <= s.len() && s.subrange(i, i + t.len()) == t
}

/// `t` occurs somewhere in `s`.
pub open spec fn contains_seq(s: Seq<char>, t: Seq<char>) -> bool {
    exists|i: int| occurs_at(s, t, i)
}

/// `s` begins with `t`.
pub open spec fn starts_with_seq(s: Seq<char>, t: Seq<char>) -> bool {
    occurs_at(s, t, 0)
}

/// A file name that marks a chunk sidecar: it holds `.chunk`.
pub open spec fn is_chunk_file(name: Seq<char>) -> bool {
    contains_seq(name, chunk_marker())
}

/// `name` is a chunk sidecar left by `file`: it begins with `file` and holds `.chunk`.
pub open spec fn is_sidecar_of(name: Seq<char>, file: Seq<char>) -> bool {
    starts_with_seq(name, file) && is_chunk_file(name)
}

/// The characters of `s`.
pub fn chars_of(s: &str) -> (r: Vec<char>)
    ensures
        r@ == s@,
{
    let n = s.unicode_len();
    let mut out: Vec<char> = Vec::new();
    let mut i: usize = 0;
    while i < n
        invariant
            n == s@.len(),
            i <= n,
            out@ == s@.take(i as int),
        decreases n - i,
    {
        out.push(s.get_char(i));
        i = i + 1;
        assert(out@ =~= s@.take(i as int));
    }
    assert(s@.take(n as int) =~= s@);
    out
}

fn occurs_at_exec(s: &Vec<char>, t: &Vec<char>, i: usize) -> (r: bool)
    requires
        i + t@.len() <= s@.len(),
    ensures
        r == occurs_at(s@, t@, i as int),
{
    let len = s.len();
    let mut k: usize = 0;
    while k < t.len()
        invariant
            len == s@.len(),
            i + t@.len() <= s@.len(),
            k <= t@.len(),
            forall|m: int| 0 <= m < k ==> s@[i + m] == t@[m],
        decreases t@.len() - k,
    {
        if s[i + k] != t[k] {
            assert(s@.subrange(i as int, i + t@.len())[k as int] != t@[k as int]);
            return false;
        }
        k = k + 1;
    }
    assert(s@.subrange(i as int, i + t@.len()) =~= t@);
    true
}

/// Whether `t` occurs in `s`.
pub fn contains_chars(s: &Vec<char>, t: &Vec<char>) -> (r: bool)
    ensures
        r == contains_seq(s@, t@),
{
    if t.len() > s.len() {
        return false;
    }
    let last = s.len() - t.len();
    let mut i: usize = 0;
    while i < last
        invariant
            last + t@.len() == s@.len(),
            i <= last,
            forall|m: int| 0 <= m < i ==> !occurs_at(s@, t@, m),
        decreases last - i,
    {
        if occurs_at_exec(s, t, i) {
            return true;
        }
        i = i + 1;
    }
    occurs_at_exec(s, t, last)
}

/// Whether `s` begins with `t`.
pub fn starts_with_chars(s: &Vec<char>, t: &Vec<char>) -> (r: bool)
    ensures
        r == starts_with_seq(s@, t@),
{
    if t.len() > s.len() {
        return false;
    }
    occurs_at_exec(s, t, 0)
}

/// The characters of the chunk marker `.chunk`.
pub fn marker_chars() -> (r: Vec<char>)
    ensures
        r@ == chunk_marker(),
{
    let m = ".chunk";
    proof {
        reveal_strlit(".chunk");
    }
    chars_of(m)
}

/// Whether the file name `name` is a chunk sidecar.
pub fn is_chunk_file_name(name: &str) -> (r: bool)
    ensures
        r == is_chunk_file(name@),
{
    contains_chars(&chars_of(name), &marker_chars())
}

/// Whether the file name `name` is a chunk sidecar of `file`.
pub fn is_sidecar_name(name: &str, file: &str) -> (r: bool)
    ensures
        r == is_sidecar_of(name@, file@),
{
    let n = chars_of(name);
    starts_with_chars(&n, &chars_of(file)) && contains_chars(&n, &marker_chars())
}

} // verus!

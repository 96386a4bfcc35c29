//! A peer's reconciliation of its working directory against the tracker:
//! which shared files, and which chunks, have gone missing.

use vstd::prelude::*;
use crate::text::{is_chunk_file, is_sidecar_of, is_chunk_file_name, is_sidecar_name};
use crate::tracker::{contains_string, string_views, lists_files_of, not_peer_file, RefView};

verus! {

pub open spec fn chunk_file_pred() -> spec_fn(Seq<char>) -> bool {
    |n: Seq<char>| is_chunk_file(n)
}

pub open spec fn sidecar_pred(file: Seq<char>) -> spec_fn(Seq<char>) -> bool {
    |n: Seq<char>| is_sidecar_of(n, file)
}

pub open spec fn absent_pred(present: Seq<Seq<char>>) -> spec_fn(Seq<char>) -> bool {
    |f: Seq<char>| !present.contains(f)
}

/// No name in `present` is a chunk sidecar of `file`.
pub open spec fn no_sidecar(present: Seq<Seq<char>>, file: Seq<char>) -> bool {
    forall|k: int| 0 <= k < present.len() ==> !is_sidecar_of(#[trigger] present[k], file)
}

/// A shared file is missing when neither it nor any of its sidecars is present.
pub open spec fn missing_pred(present: Seq<Seq<char>>) -> spec_fn(Seq<char>) -> bool {
    |f: Seq<char>| !present.contains(f) && no_sidecar(present, f)
}

/// A chunk is lost when no chunk file of that name is present.
pub open spec fn lost_pred(present: Seq<Seq<char>>) -> spec_fn(Seq<char>) -> bool {
    |c: Seq<char>| !present.filter(chunk_file_pred()).contains(c)
}

/// How many of the directory entries `names` are chunk sidecars: the peer's
/// contribution to the swarm.
pub fn count_local_chunks(names: &Vec<String>) -> (r: usize)
    ensures
        r == string_views(names@).filter(chunk_file_pred()).len(),
{
    let ghost v = string_views(names@);
    let mut count: usize = 0;
    let mut i: usize = 0;
    while i < names.len()
        invariant
            v == string_views(names@),
            i <= names@.len(),
            count == v.take(i as int).filter(chunk_file_pred()).len(),
            count <= i,
        decreases names@.len() - i,
    {
        proof {
            reveal(Seq::filter);
            assert(v.take(i + 1).drop_last() =~= v.take(i as int));
        }
        if is_chunk_file_name(names[i].as_str()) {
            count = count + 1;
        }
        i = i + 1;
    }
    assert(v.take(i as int) =~= v);
    count
}

/// The entries of `names` that are chunk sidecars of `file`, in order.
pub fn local_chunks_of(file: &str, names: &Vec<String>) -> (r: Vec<String>)
    ensures
        string_views(r@) == string_views(names@).filter(sidecar_pred(file@)),
{
    let ghost v = string_views(names@);
    let mut out: Vec<String> = Vec::new();
    let mut i: usize = 0;
    while i < names.len()
        invariant
            v == string_views(names@),
            i <= names@.len(),
            string_views(out@) == v.take(i as int).filter(sidecar_pred(file@)),
        decreases names@.len() - i,
    {
        proof {
            reveal(Seq::filter);
            assert(v.take(i + 1).drop_last() =~= v.take(i as int));
        }
        if is_sidecar_name(names[i].as_str(), file) {
            out.push(names[i].clone());
        }
        assert(string_views(out@) =~= v.take(i + 1).filter(sidecar_pred(file@)));
        i = i + 1;
    }
    assert(v.take(i as int) =~= v);
    out
}

fn has_sidecar(present: &Vec<String>, file: &String) -> (r: bool)
    ensures
        r == !no_sidecar(string_views(present@), file@),
{
    let mut i: usize = 0;
    while i < present.len()
        invariant
            i <= present@.len(),
            forall|k: int| 0 <= k < i ==> !is_sidecar_of(#[trigger] string_views(present@)[k], file@),
        decreases present@.len() - i,
    {
        if is_sidecar_name(present[i].as_str(), file.as_str()) {
            assert(is_sidecar_of(string_views(present@)[i as int], file@));
            return true;
        }
        i = i + 1;
    }
    false
}

/// Deleted-file check: the shared files that are no longer in the directory listing `present`.
pub fn deleted_files(shared: &Vec<String>, present: &Vec<String>) -> (r: Vec<String>)
    ensures
        string_views(r@) == string_views(shared@).filter(absent_pred(string_views(present@))),
{
    let ghost v = string_views(shared@);
    let ghost p = string_views(present@);
    let mut out: Vec<String> = Vec::new();
    let mut i: usize = 0;
    while i < shared.len()
        invariant
            v == string_views(shared@),
            p == string_views(present@),
            i <= shared@.len(),
            string_views(out@) == v.take(i as int).filter(absent_pred(p)),
        decreases shared@.len() - i,
    {
        proof {
            reveal(Seq::filter);
            assert(v.take(i + 1).drop_last() =~= v.take(i as int));
        }
        if !contains_string(present, &shared[i]) {
            out.push(shared[i].clone());
        }
        assert(string_views(out@) =~= v.take(i + 1).filter(absent_pred(p)));
        i = i + 1;
    }
    assert(v.take(i as int) =~= v);
    out
}

/// Missing-file check: the shared files of which neither the file itself nor
/// any chunk sidecar is left in the directory listing `present`.
pub fn missing_files(shared: &Vec<String>, present: &Vec<String>) -> (r: Vec<String>)
    ensures
        string_views(r@) == string_views(shared@).filter(missing_pred(string_views(present@))),
{
    let ghost v = string_views(shared@);
    let ghost p = string_views(present@);
    let mut out: Vec<String> = Vec::new();
    let mut i: usize = 0;
    while i < shared.len()
        invariant
            v == string_views(shared@),
            p == string_views(present@),
            i <= shared@.len(),
            string_views(out@) == v.take(i as int).filter(missing_pred(p)),
        decreases shared@.len() - i,
    {
        proof {
            reveal(Seq::filter);
            assert(v.take(i + 1).drop_last() =~= v.take(i as int));
        }
        if !contains_string(present, &shared[i]) && !has_sidecar(present, &shared[i]) {
            out.push(shared[i].clone());
        }
        assert(string_views(out@) =~= v.take(i + 1).filter(missing_pred(p)));
        i = i + 1;
    }
    assert(v.take(i as int) =~= v);
    out
}

/// Lost-chunk check: the chunks the tracker attributes to this peer of which no
/// chunk file of that name is in the directory listing `present`.
pub fn lost_chunks(expected: &Vec<String>, present: &Vec<String>) -> (r: Vec<String>)
    ensures
        string_views(r@) == string_views(expected@).filter(lost_pred(string_views(present@))),
{
    let ghost v = string_views(expected@);
    let ghost p = string_views(present@);
    let mut out: Vec<String> = Vec::new();
    let mut i: usize = 0;
    while i < expected.len()
        invariant
            v == string_views(expected@),
            p == string_views(present@),
            i <= expected@.len(),
            string_views(out@) == v.take(i as int).filter(lost_pred(p)),
        decreases expected@.len() - i,
    {
        proof {
            reveal(Seq::filter);
            assert(v.take(i + 1).drop_last() =~= v.take(i as int));
        }
        let name = &expected[i];
        let held = is_chunk_file_name(name.as_str()) && contains_string(present, name);
        proof {
            let c = v[i as int];
            if held {
                let k = choose|k: int| 0 <= k < p.len() && p[k] == c;
                p.lemma_filter_contains(chunk_file_pred(), k);
            } else if p.filter(chunk_file_pred()).contains(c) {
                p.lemma_filter_contains_rev(chunk_file_pred(), c);
                let k = choose|k: int| 0 <= k < p.filter(chunk_file_pred()).len() && p.filter(chunk_file_pred())[k] == c;
                p.lemma_filter_pred(chunk_file_pred(), k);
            }
        }
        if !held {
            out.push(name.clone());
        }
        assert(string_views(out@) =~= v.take(i + 1).filter(lost_pred(p)));
        i = i + 1;
    }
    assert(v.take(i as int) =~= v);
    out
}

/// Once a shared file and all its sidecars are gone from a peer's directory,
/// one pass of the missing-file check reports it, and after the resulting
/// `/unregister_file` the tracker's listing no longer attributes it to that peer.
pub proof fn lemma_missing_file_reconciled(
    chunks: Seq<RefView>,
    peer: Seq<char>,
    file: Seq<char>,
    shared: Seq<Seq<char>>,
    present: Seq<Seq<char>>,
    listed: Seq<Seq<char>>,
)
    requires
        shared.contains(file),
        !present.contains(file),
        no_sidecar(present, file),
        lists_files_of(chunks.filter(not_peer_file(peer, file)), peer, listed),
    ensures
        shared.filter(missing_pred(present)).contains(file),
        !listed.contains(file),
{
    let k = choose|k: int| 0 <= k < shared.len() && shared[k] == file;
    shared.lemma_filter_contains(missing_pred(present), k);
    let after = chunks.filter(not_peer_file(peer, file));
    if listed.contains(file) {
        let i = choose|i: int| 0 <= i < after.len() && (#[trigger] after[i]).peer == peer && after[i].file_name == file;
        chunks.lemma_filter_pred(not_peer_file(peer, file), i);
    }
}

} // verus!

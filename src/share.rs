//! Sharing a file: whether it is already published, and which chunk
//! registrations to send for it.

use vstd::prelude::*;
use crate::checksum::{checksum_of, checksum_matches};
use crate::chunker::{ChunkPiece, chunk_views, split_spec};
use crate::naming::chunk_name_of;
use crate::tracker::{ChunkRef, PeerInfo, RefView, ref_views, string_views, contains_string};

verus! {

/// The `/list` answer `list` already attributes `file` to the peer `peer`.
pub open spec fn listed_for(list: Seq<PeerInfo>, peer: Seq<char>, file: Seq<char>) -> bool {
    exists|i: int|
        0 <= i < list.len() && (#[trigger] list[i]).name@ == peer && string_views(list[i].files@).contains(
            file,
        )
}

/// Whether `list`, the tracker's `/list` answer, already attributes `file` to
/// `peer`; sharing it again is then skipped.
pub fn already_shared(list: &Vec<PeerInfo>, peer: &String, file: &String) -> (r: bool)
    ensures
        r == listed_for(list@, peer@, file@),
{
    let mut i: usize = 0;
    while i < list.len()
        invariant
            i <= list@.len(),
            forall|k: int|
                0 <= k < i ==> !((#[trigger] list@[k]).name@ == peer@ && string_views(
                    list@[k].files@,
                ).contains(file@)),
        decreases list@.len() - i,
    {
        if list[i].name == *peer && contains_string(&list[i].files, file) {
            return true;
        }
        i = i + 1;
    }
    false
}

/// The registration of chunk `p` of `file` by `peer` at `address`.
pub open spec fn registration_of(peer: Seq<char>, address: Seq<char>, file: Seq<char>, p: ChunkPiece) -> RefView {
    RefView {
        peer,
        file_name: file,
        chunk_name: p.chunk_name@,
        checksum: p.checksum@,
        peer_address: address,
    }
}

/// `c` is the registration of `piece` of `file` by `peer` at `address`, and it
/// carries the checksum of `bytes`.
pub open spec fn sent_for(
    c: RefView,
    peer: Seq<char>,
    address: Seq<char>,
    file: Seq<char>,
    piece: ChunkPiece,
    bytes: Seq<u8>,
) -> bool {
    &&& c.chunk_name == piece.chunk_name@
    &&& c.checksum == checksum_of(bytes)
    &&& c.peer == peer
    &&& c.peer_address == address
    &&& c.file_name == file
}

/// The registrations for the first `n` pieces of `file` whose sidecar, read
/// back from disk as `reread[i]`, still hashes to the piece's checksum.
pub open spec fn sound_registrations(
    peer: Seq<char>,
    address: Seq<char>,
    file: Seq<char>,
    pieces: Seq<ChunkPiece>,
    reread: Seq<Seq<u8>>,
    n: nat,
) -> Seq<RefView>
    decreases n,
{
    if n == 0 {
        Seq::empty()
    } else {
        let i = n - 1;
        let prev = sound_registrations(peer, address, file, pieces, reread, i as nat);
        if i < reread.len() && checksum_of(reread[i]) == pieces[i].checksum@ {
            prev.push(registration_of(peer, address, file, pieces[i]))
        } else {
            prev
        }
    }
}

/// The `/register_chunk` requests that share the pieces of `file`, in order,
/// leaving out every piece whose sidecar `reread[i]` does not hash to the
/// piece's checksum.
pub fn chunk_registrations(
    peer: &String,
    address: &String,
    file: &String,
    pieces: &Vec<ChunkPiece>,
    reread: &Vec<Vec<u8>>,
) -> (r: Vec<ChunkRef>)
    ensures
        ref_views(r@) == sound_registrations(peer@, address@, file@, pieces@, chunk_views(reread@), pieces@.len()),
{
    let ghost back = chunk_views(reread@);
    let mut out: Vec<ChunkRef> = Vec::new();
    let mut i: usize = 0;
    while i < pieces.len()
        invariant
            back == chunk_views(reread@),
            i <= pieces@.len(),
            ref_views(out@) == sound_registrations(peer@, address@, file@, pieces@, back, i as nat),
        decreases pieces@.len() - i,
    {
        let p = &pieces[i];
        let ghost prev = out@;
        if i < reread.len() && checksum_matches(reread[i].as_slice(), &p.checksum) {
            out.push(
                ChunkRef {
                    peer: peer.clone(),
                    file_name: file.clone(),
                    chunk_name: p.chunk_name.clone(),
                    checksum: p.checksum.clone(),
                    peer_address: address.clone(),
                },
            );
            assert forall|x: int| 0 <= x < prev.len() implies #[trigger] ref_views(out@)[x] == ref_views(prev)[x] by {
                assert(out@[x] == prev[x]);
            }
            assert(ref_views(out@) =~= ref_views(prev).push(registration_of(peer@, address@, file@, pieces@[i as int])));
        }
        i = i + 1;
    }
    out
}

/// Every registration a peer sends for a shared file carries the checksum of
/// the very bytes its sidecar holds on disk, the bytes `/get_chunk` serves.
pub proof fn lemma_registration_matches_disk(
    peer: Seq<char>,
    address: Seq<char>,
    file: Seq<char>,
    pieces: Seq<ChunkPiece>,
    reread: Seq<Seq<u8>>,
    n: nat,
    k: int,
)
    requires
        n <= pieces.len(),
        0 <= k < sound_registrations(peer, address, file, pieces, reread, n).len(),
    ensures
        exists|i: int|
            0 <= i < n && i < reread.len() && sent_for(
                sound_registrations(peer, address, file, pieces, reread, n)[k],
                peer,
                address,
                file,
                #[trigger] pieces[i],
                reread[i],
            ),
    decreases n,
{
    let i = n - 1;
    let prev = sound_registrations(peer, address, file, pieces, reread, i as nat);
    let cur = sound_registrations(peer, address, file, pieces, reread, n);
    if k < prev.len() {
        lemma_registration_matches_disk(peer, address, file, pieces, reread, i as nat, k);
        let j = choose|j: int|
            0 <= j < i && j < reread.len() && sent_for(prev[k], peer, address, file, #[trigger] pieces[j], reread[j]);
        assert(cur[k] == prev[k]);
        assert(sent_for(cur[k], peer, address, file, pieces[j], reread[j]));
    } else {
        assert(cur[k] == registration_of(peer, address, file, pieces[i]));
        assert(sent_for(cur[k], peer, address, file, pieces[i], reread[i]));
    }
}

/// Every registration made from a split file carries the checksum of the very
/// bytes of its chunk, and names the sidecar that holds them.
pub proof fn lemma_registered_checksums(
    peer: Seq<char>,
    address: Seq<char>,
    file: Seq<char>,
    contents: Seq<u8>,
    pieces: Seq<ChunkPiece>,
    i: int,
)
    requires
        pieces.len() == split_spec(contents).len(),
        forall|j: int|
            0 <= j < pieces.len() ==> {
                &&& (#[trigger] pieces[j]).index == j
                &&& pieces[j].chunk_name@ == chunk_name_of(file, j as nat)
                &&& pieces[j].data@ == split_spec(contents)[j]
                &&& pieces[j].checksum@ == checksum_of(pieces[j].data@)
            },
        0 <= i < pieces.len(),
    ensures
        registration_of(peer, address, file, pieces[i]).checksum == checksum_of(split_spec(contents)[i]),
        registration_of(peer, address, file, pieces[i]).chunk_name == chunk_name_of(file, i as nat),
{
}

} // verus!

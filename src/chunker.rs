//! Splitting a file's bytes into fixed-size chunks and joining them back.

use vstd::prelude::*;
use vstd::slice::slice_to_vec;
use crate::checksum::{checksum_of, compute_file_checksum};
use crate::naming::{chunk_name, chunk_name_of};

verus! {

/// Size of every chunk but the last one of a file: 1 MiB.
pub const CHUNK_SIZE: usize = 1048576;

/// The contents of a file cut into consecutive chunks of `CHUNK_SIZE` bytes;
/// the last one holds the remainder and may be shorter.
pub open spec fn split_spec(data: Seq<u8>) -> Seq<Seq<u8>>
    decreases data.len(),
{
    if data.len() == 0 {
        Seq::empty()
    } else if data.len() <= CHUNK_SIZE {
        seq![data]
    } else {
        seq![data.subrange(0, CHUNK_SIZE as int)] + split_spec(
            data.subrange(CHUNK_SIZE as int, data.len() as int),
        )
    }
}

/// The byte contents of a sequence of chunks.
pub open spec fn chunk_views(chunks: Seq<Vec<u8>>) -> Seq<Seq<u8>> {
    chunks.map_values(|c: Vec<u8>| c@)
}

/// One chunk of a split file: its index, sidecar name, checksum and bytes.
pub struct ChunkPiece {
    pub index: usize,
    pub chunk_name: String,
    pub checksum: String,
    pub data: Vec<u8>,
}

/// Cuts `contents`, the bytes of the file `file_name`, into its chunks, in
/// index order, each named `{file_name}.chunk{i}` and labelled with its checksum.
pub fn split_file(file_name: &str, contents: &[u8]) -> (r: Vec<ChunkPiece>)
    ensures
        r@.len() == split_spec(contents@).len(),
        forall|j: int|
            0 <= j < r@.len() ==> {
                &&& (#[trigger] r@[j]).index == j
                &&& r@[j].chunk_name@ == chunk_name_of(file_name@, j as nat)
                &&& r@[j].data@ == split_spec(contents@)[j]
                &&& r@[j].checksum@ == checksum_of(r@[j].data@)
            },
{
    let len = contents.len();
    let mut pieces: Vec<ChunkPiece> = Vec::new();
    let mut offset: usize = 0;
    assert(contents@.subrange(0, len as int) =~= contents@);
    assert(pieces@.map_values(|p: ChunkPiece| p.data@) =~= Seq::<Seq<u8>>::empty());
    while offset < len
        invariant
            len == contents@.len(),
            offset <= len,
            pieces@.len() <= offset,
            split_spec(contents@) =~= pieces@.map_values(|p: ChunkPiece| p.data@) + split_spec(
                contents@.subrange(offset as int, len as int),
            ),
            forall|j: int|
                0 <= j < pieces@.len() ==> {
                    &&& (#[trigger] pieces@[j]).index == j
                    &&& pieces@[j].chunk_name@ == chunk_name_of(file_name@, j as nat)
                    &&& pieces@[j].checksum@ == checksum_of(pieces@[j].data@)
                },
        decreases len - offset,
    {
        let ghost rest = contents@.subrange(offset as int, len as int);
        let ghost before = pieces@;
        let end: usize = if len - offset > CHUNK_SIZE {
            offset + CHUNK_SIZE
        } else {
            len
        };
        let data = slice_to_vec(&contents[offset..end]);
        let index = pieces.len();
        let name = chunk_name(file_name, index);
        let checksum = compute_file_checksum(data.as_slice());
        pieces.push(ChunkPiece { index, chunk_name: name, checksum, data });
        proof {
            let next = contents@.subrange(end as int, len as int);
            assert(pieces@.map_values(|p: ChunkPiece| p.data@) =~= before.map_values(
                |p: ChunkPiece| p.data@,
            ).push(contents@.subrange(offset as int, end as int)));
            if rest.len() <= CHUNK_SIZE {
                assert(rest =~= contents@.subrange(offset as int, end as int));
                assert(next =~= Seq::<u8>::empty());
            } else {
                assert(rest.subrange(0, CHUNK_SIZE as int) =~= contents@.subrange(
                    offset as int,
                    end as int,
                ));
                assert(rest.subrange(CHUNK_SIZE as int, rest.len() as int) =~= next);
            }
        }
        offset = end;
    }
    assert(contents@.subrange(len as int, len as int) =~= Seq::<u8>::empty());
    pieces
}

/// Reassembling the chunks of a file in index order gives back its exact bytes.
pub proof fn lemma_split_assemble(data: Seq<u8>)
    ensures
        split_spec(data).flatten() == data,
    decreases data.len(),
{
    if data.len() == 0 {
    } else if data.len() <= CHUNK_SIZE {
        seq![data].lemma_flatten_one_element();
    } else {
        let head = data.subrange(0, CHUNK_SIZE as int);
        let tail = data.subrange(CHUNK_SIZE as int, data.len() as int);
        lemma_split_assemble(tail);
        let s = seq![head] + split_spec(tail);
        assert(s.drop_first() =~= split_spec(tail));
        assert(s.first() == head);
        assert(head + tail =~= data);
    }
}

/// A file of `n` bytes has `ceil(n / CHUNK_SIZE)` chunks; every chunk holds
/// between one byte and `CHUNK_SIZE` bytes, and all but the last are full.
pub proof fn lemma_split_sizes(data: Seq<u8>)
    ensures
        split_spec(data).len() == (data.len() + CHUNK_SIZE - 1) / (CHUNK_SIZE as int),
        forall|j: int|
            0 <= j < split_spec(data).len() ==> 1 <= (#[trigger] split_spec(data)[j]).len()
                <= CHUNK_SIZE,
        forall|j: int|
            0 <= j < split_spec(data).len() - 1 ==> (#[trigger] split_spec(data)[j]).len()
                == CHUNK_SIZE,
    decreases data.len(),
{
    if data.len() > CHUNK_SIZE {
        let tail = data.subrange(CHUNK_SIZE as int, data.len() as int);
        lemma_split_sizes(tail);
        let s = split_spec(data);
        assert forall|j: int| 1 <= j < s.len() implies #[trigger] s[j] == split_spec(tail)[j
            - 1] by {}
    }
}

/// Joins chunks back into one byte string, in order.
pub fn assemble_file(chunks: &Vec<Vec<u8>>) -> (r: Vec<u8>)
    ensures
        r@ == chunk_views(chunks@).flatten(),
{
    let mut out: Vec<u8> = Vec::new();
    let mut i: usize = 0;
    while i < chunks.len()
        invariant
            i <= chunks@.len(),
            out@ == chunk_views(chunks@.take(i as int)).flatten_alt(),
        decreases chunks@.len() - i,
    {
        let chunk = &chunks[i];
        let ghost start = out@;
        let mut k: usize = 0;
        while k < chunk.len()
            invariant
                k <= chunk@.len(),
                out@ == start + chunk@.take(k as int),
            decreases chunk@.len() - k,
        {
            out.push(chunk[k]);
            k = k + 1;
            assert(out@ =~= start + chunk@.take(k as int));
        }
        proof {
            let taken = chunk_views(chunks@.take(i + 1));
            assert(taken.drop_last() =~= chunk_views(chunks@.take(i as int)));
            assert(chunk@.take(k as int) =~= chunk@);
        }
        i = i + 1;
    }
    proof {
        assert(chunks@.take(i as int) =~= chunks@);
        chunk_views(chunks@).lemma_flatten_and_flatten_alt_are_equivalent();
    }
    out
}

} // verus!

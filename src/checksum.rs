//! Checksums of chunks and files: lowercase hex SHA-256 of their bytes.

use vstd::prelude::*;
use vstd::string::*;

verus! {

/// The SHA-256 digest of a byte sequence.
pub uninterp spec fn sha256_of(data: Seq<u8>) -> Seq<u8>;

/// Relies on sha2's `Sha256::digest`: the SHA-256 digest of `data`, 32 bytes.
#[verifier::external_body]
fn sha256_digest(data: &[u8]) -> (r: Vec<u8>)
    ensures
        r@ == sha256_of(data@),
        r@.len() == 32,
{
    <sha2::Sha256 as sha2::Digest>::digest(data).to_vec()
}

/// The sixteen lowercase hexadecimal digit characters, in value order.
pub open spec fn hex_chars() -> Seq<char> {
    seq!['0', '1', '2', '3', '4', '5', '6', '7', '8', '9', 'a', 'b', 'c', 'd', 'e', 'f']
}

/// Lowercase hexadecimal notation of `b`: two digits per byte, high nibble first.
pub open spec fn hex_of(b: Seq<u8>) -> Seq<char>
    decreases b.len(),
{
    if b.len() == 0 {
        Seq::empty()
    } else {
        let last = b.last();
        hex_of(b.drop_last()) + seq![hex_chars()[(last / 16) as int], hex_chars()[(last % 16) as int]]
    }
}

/// The checksum this system records for a chunk or file: hex SHA-256 of its bytes.
pub open spec fn checksum_of(data: Seq<u8>) -> Seq<char> {
    hex_of(sha256_of(data))
}

fn hex_digit_str(d: u8) -> (r: &'static str)
    requires
        d < 16,
    ensures
        r@ == seq![hex_chars()[d as int]],
{
    proof {
        reveal_strlit("0");
        reveal_strlit("1");
        reveal_strlit("2");
        reveal_strlit("3");
        reveal_strlit("4");
        reveal_strlit("5");
        reveal_strlit("6");
        reveal_strlit("7");
        reveal_strlit("8");
        reveal_strlit("9");
        reveal_strlit("a");
        reveal_strlit("b");
        reveal_strlit("c");
        reveal_strlit("d");
        reveal_strlit("e");
        reveal_strlit("f");
    }
    let r = if d == 0 {
        "0"
    } else if d == 1 {
        "1"
    } else if d == 2 {
        "2"
    } else if d == 3 {
        "3"
    } else if d == 4 {
        "4"
    } else if d == 5 {
        "5"
    } else if d == 6 {
        "6"
    } else if d == 7 {
        "7"
    } else if d == 8 {
        "8"
    } else if d == 9 {
        "9"
    } else if d == 10 {
        "a"
    } else if d == 11 {
        "b"
    } else if d == 12 {
        "c"
    } else if d == 13 {
        "d"
    } else if d == 14 {
        "e"
    } else {
        "f"
    };
    assert(r@ =~= seq![hex_chars()[d as int]]);
    r
}

/// Lowercase hexadecimal encoding of `b`.
pub fn to_hex(b: &[u8]) -> (r: String)
    ensures
        r@ == hex_of(b@),
{
    let mut s = String::new();
    let mut i: usize = 0;
    while i < b.len()
        invariant
            i <= b@.len(),
            s@ == hex_of(b@.subrange(0, i as int)),
        decreases b@.len() - i,
    {
        let x = b[i];
        let ghost prefix = b@.subrange(0, i as int);
        s.append(hex_digit_str(x / 16));
        s.append(hex_digit_str(x % 16));
        i = i + 1;
        assert(b@.subrange(0, i as int).drop_last() =~= prefix);
    }
    assert(b@.subrange(0, b@.len() as int) =~= b@);
    s
}

/// Checksum of a whole file's contents (or of one chunk's bytes).
pub fn compute_file_checksum(contents: &[u8]) -> (r: String)
    ensures
        r@ == checksum_of(contents@),
{
    let digest = sha256_digest(contents);
    to_hex(digest.as_slice())
}

/// Whether `data` hashes to the `expected` checksum.
pub fn checksum_matches(data: &[u8], expected: &String) -> (r: bool)
    ensures
        r == (checksum_of(data@) == expected@),
{
    let actual = compute_file_checksum(data);
    actual == *expected
}

} // verus!

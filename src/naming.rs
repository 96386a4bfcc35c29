//! Names of chunk sidecar files: `{file}.chunk{index}`, index in plain decimal.

use vstd::prelude::*;
use vstd::string::*;

verus! {

/// The ten decimal digit characters, in value order.
pub open spec fn digit_chars() -> Seq<char> {
    seq!['0', '1', '2', '3', '4', '5', '6', '7', '8', '9']
}

/// Decimal notation of `n`, most significant digit first, without padding.
pub open spec fn decimal(n: nat) -> Seq<char>
    decreases n,
{
    if n < 10 {
        seq![digit_chars()[n as int]]
    } else {
        decimal(n / 10).push(digit_chars()[(n % 10) as int])
    }
}

/// The separator between a file name and a chunk index.
pub open spec fn chunk_marker() -> Seq<char> {
    seq!['.', 'c', 'h', 'u', 'n', 'k']
}

/// Name of the sidecar file that holds chunk `index` of `file`: `{file}.chunk{index}`.
pub open spec fn chunk_name_of(file: Seq<char>, index: nat) -> Seq<char> {
    file + chunk_marker() + decimal(index)
}

fn digit_str(d: usize) -> (r: &'static str)
    requires
        d < 10,
    ensures
        r@ == seq![digit_chars()[d as int]],
{
    proof {
        reveal_strlit("0");
        reveal_strlit("1");
        reveal_strlit("2");
        reveal_strlit("3");
        reveal_strlit("4");
        reveal_strlit("5");
        reveal_strlit("6");
        reveal_strlit("7");
        reveal_strlit("8");
        reveal_strlit("9");
    }
    let r = if d == 0 {
        "0"
    } else if d == 1 {
        "1"
    } else if d == 2 {
        "2"
    } else if d == 3 {
        "3"
    } else if d == 4 {
        "4"
    } else if d == 5 {
        "5"
    } else if d == 6 {
        "6"
    } else if d == 7 {
        "7"
    } else if d == 8 {
        "8"
    } else {
        "9"
    };
    assert(r@ =~= seq![digit_chars()[d as int]]);
    r
}

/// Appends the decimal notation of `n` to `s`.
pub fn push_decimal(s: &mut String, n: usize)
    ensures
        final(s)@ == old(s)@ + decimal(n as nat),
    decreases n,
{
    if n >= 10 {
        push_decimal(s, n / 10);
    }
    s.append(digit_str(n % 10));
    assert(s@ =~= old(s)@ + decimal(n as nat));
}

/// Builds the sidecar name `{file}.chunk{index}`.
pub fn chunk_name(file: &str, index: usize) -> (r: String)
    ensures
        r@ == chunk_name_of(file@, index as nat),
{
    let mut s = String::new();
    s.append(file);
    let marker = ".chunk";
    proof {
        reveal_strlit(".chunk");
    }
    assert(marker@ =~= chunk_marker());
    s.append(marker);
    push_decimal(&mut s, index);
    assert(s@ =~= chunk_name_of(file@, index as nat));
    s
}

} // verus!

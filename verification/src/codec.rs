//! The merge (interleave) and split (deinterleave) transforms.
//!
//! A buffer is treated as a run of 16-bit words, two bytes each. `merge`
//! alternates one word from the even source with one word from the odd
//! source; `split` undoes this. With the byteswap flag set, the two bytes
//! of every word change places during the copy.

use vstd::prelude::*;

verus! {

/// Everything that can go wrong while producing a merged or split image.
/// The transforms themselves only report `SizeMismatch` and `OddLength`;
/// the file-handling variants belong to the caller that does the I/O.
#[derive(Clone, Copy, Debug, PartialEq, Eq, Structural)]
pub enum ErrorKind {
    /// A source file could not be opened or read.
    FileOpen,
    /// An output file could not be created.
    FileCreate,
    /// An output file could not be written.
    FileWrite,
    /// The two merge sources differ in length.
    SizeMismatch,
    /// The merge sources have an odd length, so they do not divide into words.
    OddLength,
}

/// Byte `j` of the interleaving of `even` and `odd`: output group `j / 4`
/// holds the word `j / 4` of `even` followed by the word `j / 4` of `odd`,
/// each word's two bytes exchanged when `byteswap` is set.
pub open spec fn merged_byte(even: Seq<u8>, odd: Seq<u8>, byteswap: bool, j: int) -> u8 {
    let g = j / 4;
    let r = j % 4;
    if r == 0 {
        if byteswap { even[2 * g + 1] } else { even[2 * g] }
    } else if r == 1 {
        if byteswap { even[2 * g] } else { even[2 * g + 1] }
    } else if r == 2 {
        if byteswap { odd[2 * g + 1] } else { odd[2 * g] }
    } else {
        if byteswap { odd[2 * g] } else { odd[2 * g + 1] }
    }
}

/// The word-granularity interleaving of two equal-length sources.
pub open spec fn merged(even: Seq<u8>, odd: Seq<u8>, byteswap: bool) -> Seq<u8> {
    Seq::new((2 * even.len()) as nat, |j: int| merged_byte(even, odd, byteswap, j))
}

/// Interleave `even` and `odd` into one buffer of twice their length.
///
/// The sources must have the same, even, length; otherwise the matching
/// error is returned, a length mismatch being reported first.
pub fn merge(even: &Vec<u8>, odd: &Vec<u8>, byteswap: bool) -> (r: Result<Vec<u8>, ErrorKind>)
    ensures
        even@.len() != odd@.len() ==> r == Result::<Vec<u8>, ErrorKind>::Err(
            ErrorKind::SizeMismatch,
        ),
        even@.len() == odd@.len() && even@.len() % 2 != 0 ==> r == Result::<
            Vec<u8>,
            ErrorKind,
        >::Err(ErrorKind::OddLength),
        even@.len() == odd@.len() && even@.len() % 2 == 0 ==> {
            &&& r is Ok
            &&& r->Ok_0@ == merged(even@, odd@, byteswap)
            &&& r->Ok_0@.len() == 2 * even@.len()
        },
{
    if even.len() != odd.len() {
        return Err(ErrorKind::SizeMismatch);
    }
    if even.len() % 2 != 0 {
        return Err(ErrorKind::OddLength);
    }
    let n = even.len();
    let mut out: Vec<u8> = Vec::new();
    let mut i: usize = 0;
    while i < n
        invariant
            even@.len() == n,
            odd@.len() == n,
            n % 2 == 0,
            i % 2 == 0,
            i <= n,
            out@.len() == 2 * i,
            forall|j: int| 0 <= j < out@.len() ==> out@[j] == merged_byte(even@, odd@, byteswap, j),
        decreases n - i,
    {
        if byteswap {
            out.push(even[i + 1]);
            out.push(even[i]);
            out.push(odd[i + 1]);
            out.push(odd[i]);
        } else {
            out.push(even[i]);
            out.push(even[i + 1]);
            out.push(odd[i]);
            out.push(odd[i + 1]);
        }
        proof {
            let i0 = i as int;
            assert((2 * i0 + 0) / 4 == i0 / 2 && (2 * i0 + 0) % 4 == 0 && (2 * i0 + 1) / 4 == i0
                / 2 && (2 * i0 + 1) % 4 == 1 && (2 * i0 + 2) / 4 == i0 / 2 && (2 * i0 + 2) % 4 == 2
                && (2 * i0 + 3) / 4 == i0 / 2 && (2 * i0 + 3) % 4 == 3 && 2 * (i0 / 2) == i0)
                by (nonlinear_arith)
                requires
                    i0 % 2 == 0,
                    i0 >= 0,
            ;
        }
        i = i + 2;
    }
    assert(out@ =~= merged(even@, odd@, byteswap));
    Ok(out)
}

/// Byte `i` of the first (even) half of a deinterleaved buffer: the first
/// word of input group `i / 2`, its bytes exchanged when `byteswap` is set.
pub open spec fn split_even_byte(input: Seq<u8>, byteswap: bool, i: int) -> u8 {
    let g = i / 2;
    let r = i % 2;
    if byteswap {
        input[4 * g + 1 - r]
    } else {
        input[4 * g + r]
    }
}

/// Byte `i` of the second (odd) half of a deinterleaved buffer: the second
/// word of input group `i / 2`, its bytes exchanged when `byteswap` is set.
pub open spec fn split_odd_byte(input: Seq<u8>, byteswap: bool, i: int) -> u8 {
    let g = i / 2;
    let r = i % 2;
    if byteswap {
        input[4 * g + 3 - r]
    } else {
        input[4 * g + 2 + r]
    }
}

/// The even half of deinterleaving `input`: one word out of every complete
/// 4-byte group. Trailing bytes short of a full group contribute nothing.
pub open spec fn split_even(input: Seq<u8>, byteswap: bool) -> Seq<u8> {
    Seq::new(2 * (input.len() / 4), |i: int| split_even_byte(input, byteswap, i))
}

/// The odd half of deinterleaving `input`: the other word of every complete
/// 4-byte group. Trailing bytes short of a full group contribute nothing.
pub open spec fn split_odd(input: Seq<u8>, byteswap: bool) -> Seq<u8> {
    Seq::new(2 * (input.len() / 4), |i: int| split_odd_byte(input, byteswap, i))
}

/// Deinterleave `input` into its even and odd halves, each half the length
/// of the input when that length is a multiple of 4.
///
/// Trailing bytes that do not form a complete 4-byte group are ignored
/// rather than reported: the caller sees exactly the complete groups.
pub fn split(input: &Vec<u8>, byteswap: bool) -> (r: (Vec<u8>, Vec<u8>))
    ensures
        r.0@ == split_even(input@, byteswap),
        r.1@ == split_odd(input@, byteswap),
        input@.len() % 4 == 0 ==> r.0@.len() == input@.len() / 2 && r.1@.len() == input@.len()
            / 2,
{
    let n = input.len();
    let groups = n / 4;
    let mut out_even: Vec<u8> = Vec::new();
    let mut out_odd: Vec<u8> = Vec::new();
    let mut g: usize = 0;
    while g < groups
        invariant
            input@.len() == n,
            groups == n / 4,
            g <= groups,
            out_even@.len() == 2 * g,
            out_odd@.len() == 2 * g,
            forall|i: int|
                0 <= i < out_even@.len() ==> out_even@[i] == split_even_byte(
                    input@,
                    byteswap,
                    i,
                ),
            forall|i: int|
                0 <= i < out_odd@.len() ==> out_odd@[i] == split_odd_byte(input@, byteswap, i),
        decreases groups - g,
    {
        proof {
            assert(4 * (n as int / 4) <= n as int) by (nonlinear_arith);
        }
        let base = 4 * g;
        if byteswap {
            out_even.push(input[base + 1]);
            out_even.push(input[base]);
            out_odd.push(input[base + 3]);
            out_odd.push(input[base + 2]);
        } else {
            out_even.push(input[base]);
            out_even.push(input[base + 1]);
            out_odd.push(input[base + 2]);
            out_odd.push(input[base + 3]);
        }
        proof {
            let g0 = g as int;
            assert((2 * g0 + 0) / 2 == g0 && (2 * g0 + 0) % 2 == 0 && (2 * g0 + 1) / 2 == g0 && (2
                * g0 + 1) % 2 == 1) by (nonlinear_arith)
                requires
                    g0 >= 0,
            ;
        }
        g = g + 1;
    }
    assert(out_even@ =~= split_even(input@, byteswap));
    assert(out_odd@ =~= split_odd(input@, byteswap));
    proof {
        if n as int % 4 == 0 {
            assert(2 * (n as int / 4) == n as int / 2) by (nonlinear_arith)
                requires
                    n as int % 4 == 0,
                    n as int >= 0,
            ;
        }
    }
    (out_even, out_odd)
}

/// Round trip: deinterleaving the interleaving of two equal, even-length
/// sources with the same byteswap flag recovers both sources exactly.
pub proof fn lemma_round_trip(even: Seq<u8>, odd: Seq<u8>, byteswap: bool)
    requires
        even.len() == odd.len(),
        even.len() % 2 == 0,
    ensures
        split_even(merged(even, odd, byteswap), byteswap) == even,
        split_odd(merged(even, odd, byteswap), byteswap) == odd,
{
    let len = even.len() as int;
    let m = merged(even, odd, byteswap);
    assert((2 * len) / 4 == len / 2 && 2 * (len / 2) == len) by (nonlinear_arith)
        requires
            len >= 0,
            len % 2 == 0,
    ;
    assert forall|i: int| 0 <= i < len implies split_even(m, byteswap)[i] == even[i] by {
        let g = i / 2;
        let r = i % 2;
        assert(0 <= r < 2 && 2 * g + r == i) by (nonlinear_arith)
            requires
                i >= 0,
                g == i / 2,
                r == i % 2,
        ;
        let f = if byteswap { 1 - r } else { r };
        let j = 4 * g + f;
        assert(j / 4 == g && j % 4 == f) by (nonlinear_arith)
            requires
                g >= 0,
                0 <= f < 2,
                j == 4 * g + f,
        ;
        assert(m[j] == merged_byte(even, odd, byteswap, j));
        assert(merged_byte(even, odd, byteswap, j) == even[i]);
    }
    assert(split_even(m, byteswap) =~= even);
    assert forall|i: int| 0 <= i < len implies split_odd(m, byteswap)[i] == odd[i] by {
        let g = i / 2;
        let r = i % 2;
        assert(0 <= r < 2 && 2 * g + r == i) by (nonlinear_arith)
            requires
                i >= 0,
                g == i / 2,
                r == i % 2,
        ;
        let f = if byteswap { 1 - r } else { r };
        let j = 4 * g + 2 + f;
        assert(j / 4 == g && j % 4 == 2 + f) by (nonlinear_arith)
            requires
                g >= 0,
                0 <= f < 2,
                j == 4 * g + 2 + f,
        ;
        assert(m[j] == merged_byte(even, odd, byteswap, j));
        assert(merged_byte(even, odd, byteswap, j) == odd[i]);
    }
    assert(split_odd(m, byteswap) =~= odd);
}

} // verus!

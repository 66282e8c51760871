use vstd::prelude::*;

verus! {

/// Value of a byte sequence read most significant byte first:
/// the sum over `i` of `s[i] * 256^(len - 1 - i)`.
pub open spec fn be_value(s: Seq<u8>) -> nat
    decreases s.len(),
{
    if s.len() == 0 {
        0
    } else {
        be_value(s.drop_last()) * 256 + s.last() as nat
    }
}

/// A value below `2^32` seen as a two's-complement 32-bit integer.
pub open spec fn as_signed32(v: nat) -> int {
    if v < 0x8000_0000 {
        v as int
    } else {
        v as int - 0x1_0000_0000
    }
}

/// `256^n`.
pub open spec fn pow256(n: nat) -> nat
    decreases n,
{
    if n == 0 {
        1
    } else {
        256 * pow256((n - 1) as nat)
    }
}

/// Reads up to four bytes as one big-endian integer: the first byte is the
/// most significant. Four bytes whose top bit is set give a negative value
/// (two's complement).
pub fn arr_to_hex(arr: &[u8]) -> (r: i32)
    requires
        arr@.len() <= 4,
    ensures
        r as int == as_signed32(be_value(arr@)),
{
    let mut sum: u32 = 0;
    let mut i: usize = 0;
    while i < arr.len()
        invariant
            i <= arr@.len() <= 4,
            sum as nat == be_value(arr@.subrange(0, i as int)),
            (sum as nat) < pow256(i as nat),
        decreases arr@.len() - i,
    {
        proof {
            let s = arr@.subrange(0, i as int + 1);
            assert(s.drop_last() =~= arr@.subrange(0, i as int));
            assert(pow256(i as nat + 1) == 256 * pow256(i as nat));
            assert(pow256(i as nat + 1) <= 0x1_0000_0000) by {
                reveal_with_fuel(pow256, 5);
            }
            assert(sum * 256 + arr@[i as int] < 256 * pow256(i as nat)) by (nonlinear_arith)
                requires
                    (sum as nat) < pow256(i as nat),
                    arr@[i as int] < 256,
            ;
        }
        sum = sum * 256 + arr[i] as u32;
        i = i + 1;
    }
    assert(arr@.subrange(0, i as int) =~= arr@);
    if sum < 0x8000_0000 {
        sum as i32
    } else {
        (sum as i64 - 0x1_0000_0000i64) as i32
    }
}

} // verus!

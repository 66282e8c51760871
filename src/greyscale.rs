use vstd::prelude::*;

verus! {

/// Start of the pixel group holding byte `k`, groups counted from `offset`.
pub open spec fn pixel_start(offset: int, k: int) -> int {
    offset + (k - offset) / 3 * 3
}

/// The buffer with every pixel group from `offset` on set to its middle
/// byte; the bytes before `offset` are kept.
pub open spec fn greyscale_spec(b: Seq<u8>, offset: int) -> Seq<u8> {
    Seq::new(
        b.len(),
        |k: int|
            if k < offset {
                b[k]
            } else {
                b[pixel_start(offset, k) + 1]
            },
    )
}

/// Whether the pixel data from `offset` to the end of `b` is made of whole
/// 3-byte groups (an offset past the end leaves no pixel data).
pub open spec fn payload_aligned(len: int, offset: int) -> bool {
    offset <= len ==> (len - offset) % 3 == 0
}

/// Returns a copy of `buffer` in which the three bytes of each pixel group,
/// from `offset` on, all hold that group's middle byte.
pub fn convert_greyscale(buffer: &Vec<u8>, offset: usize) -> (r: Vec<u8>)
    requires
        payload_aligned(buffer@.len() as int, offset as int),
    ensures
        r@ == greyscale_spec(buffer@, offset as int),
{
    let ghost b = buffer@;
    let ghost off = offset as int;
    let mut greyscale_vec = buffer.clone();
    let len: usize = buffer.len();
    let mut i: usize = offset;
    while i < len
        invariant
            b == buffer@,
            len == b.len(),
            off == offset as int,
            payload_aligned(len as int, off),
            off <= i,
            (i - off) % 3 == 0,
            i < len ==> i + 3 <= len,
            greyscale_vec@.len() == len,
            forall|k: int|
                0 <= k < len ==> #[trigger] greyscale_vec@[k] == (if off <= k < i {
                    b[pixel_start(off, k) + 1]
                } else {
                    b[k]
                }),
        decreases len - i,
    {
        let grey: u8 = buffer[i + 1];
        greyscale_vec.set(i, grey);
        greyscale_vec.set(i + 1, grey);
        greyscale_vec.set(i + 2, grey);
        proof {
            assert forall|k: int| 0 <= k < len implies #[trigger] greyscale_vec@[k] == (if off <= k
                < i + 3 {
                b[pixel_start(off, k) + 1]
            } else {
                b[k]
            }) by {
                if i <= k < i + 3 {
                    assert(pixel_start(off, k) == i);
                }
            }
        }
        i = i + 3;
    }
    assert(greyscale_vec@ =~= greyscale_spec(b, off));
    greyscale_vec
}

/// The greyscale buffer has the input's length and keeps every byte before
/// `offset`.
pub proof fn lemma_greyscale_keeps_header(b: Seq<u8>, offset: int, k: int)
    requires
        0 <= k < offset,
        k < b.len(),
    ensures
        greyscale_spec(b, offset).len() == b.len(),
        greyscale_spec(b, offset)[k] == b[k],
{
}

/// The three bytes of each whole pixel group from `offset` on are equal in
/// the greyscale buffer, and hold the group's middle input byte.
pub proof fn lemma_greyscale_group_uniform(b: Seq<u8>, offset: int, c: int)
    requires
        0 <= offset <= c,
        (c - offset) % 3 == 0,
        c + 2 < b.len(),
    ensures
        greyscale_spec(b, offset)[c] == b[c + 1],
        greyscale_spec(b, offset)[c + 1] == b[c + 1],
        greyscale_spec(b, offset)[c + 2] == b[c + 1],
{
    assert(pixel_start(offset, c) == c);
    assert(pixel_start(offset, c + 1) == c);
    assert(pixel_start(offset, c + 2) == c);
}

} // verus!

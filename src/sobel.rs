use vstd::prelude::*;

verus! {

/// Weight of the horizontal Sobel kernel `[[-1,0,1],[-2,0,2],[-1,0,1]]`
/// at row `y`, column `x`.
pub open spec fn kernel_x(y: int, x: int) -> int {
    let m: int = if y == 1 { 2 } else { 1 };
    if x == 0 {
        -m
    } else if x == 1 {
        0
    } else {
        m
    }
}

/// Weight of the vertical Sobel kernel `[[-1,-2,-1],[0,0,0],[1,2,1]]`
/// at row `y`, column `x`.
pub open spec fn kernel_y(y: int, x: int) -> int {
    let m: int = if x == 1 { 2 } else { 1 };
    if y == 0 {
        -m
    } else if y == 1 {
        0
    } else {
        m
    }
}

/// Weight of the horizontal (`vertical == false`) or vertical kernel.
pub open spec fn kernel(vertical: bool, y: int, x: int) -> int {
    if vertical {
        kernel_y(y, x)
    } else {
        kernel_x(y, x)
    }
}

/// Byte index of the neighbour at kernel row `y`, column `x` of the pixel
/// group starting at `i`, with a row stride of `3 * width` bytes.
pub open spec fn tap_position(i: int, width: int, y: int, x: int) -> int {
    i + (y - 1) * width * 3 + (x - 1) * 3
}

/// The byte read at a neighbour position, or 0 where the position lies at or
/// before `offset` or at or past the end of the buffer.
pub open spec fn tap(p: Seq<u8>, offset: int, width: int, i: int, y: int, x: int) -> int {
    let pos = tap_position(i, width, y, x);
    if offset < pos && pos < p.len() {
        p[pos] as int
    } else {
        0
    }
}

/// Kernel response over the first `t` cells of the 3x3 neighbourhood, taken
/// row by row.
pub open spec fn response(
    p: Seq<u8>,
    offset: int,
    width: int,
    i: int,
    vertical: bool,
    t: nat,
) -> int
    decreases t,
{
    if t == 0 {
        0
    } else {
        let y = (t - 1) / 3;
        let x = (t - 1) % 3;
        response(p, offset, width, i, vertical, (t - 1) as nat) + tap(p, offset, width, i, y, x)
            * kernel(vertical, y, x)
    }
}

/// Horizontal gradient at the group starting at `i`.
pub open spec fn gradient_x(p: Seq<u8>, offset: int, width: int, i: int) -> int {
    response(p, offset, width, i, false, 9)
}

/// Vertical gradient at the group starting at `i`.
pub open spec fn gradient_y(p: Seq<u8>, offset: int, width: int, i: int) -> int {
    response(p, offset, width, i, true, 9)
}

/// The largest `s <= r` with `s * s <= n` (0 if there is none).
pub open spec fn root_below(n: int, r: nat) -> nat
    decreases r,
{
    if r == 0 || r * r <= n {
        r
    } else {
        root_below(n, (r - 1) as nat)
    }
}

/// The truncated Euclidean norm of `(sx, sy)`, clamped to 255: the largest
/// `m` in `0..=255` with `m * m <= sx * sx + sy * sy`.
pub open spec fn clamped_norm(sx: int, sy: int) -> nat {
    root_below(sx * sx + sy * sy, 255)
}

/// Gradient magnitude written for the group starting at `i`.
pub open spec fn magnitude(p: Seq<u8>, offset: int, width: int, i: int) -> nat {
    clamped_norm(gradient_x(p, offset, width, i), gradient_y(p, offset, width, i))
}

/// Start of the filter's pixel group holding byte `k` (groups are counted
/// from `offset + 1`).
pub open spec fn group_start(offset: int, k: int) -> int {
    k - (k - offset - 1) % 3
}

/// Whether the filter computes a magnitude for the group starting at `c`:
/// `c` runs from `offset + 1` in steps of 3 while `c < len - 3`.
pub open spec fn is_center(offset: int, len: int, c: int) -> bool {
    offset + 1 <= c && c < len - 3 && (c - offset - 1) % 3 == 0
}

/// Whether byte `k` is overwritten by the filter.
pub open spec fn is_filtered(offset: int, len: int, k: int) -> bool {
    offset + 1 <= k && is_center(offset, len, group_start(offset, k))
}

/// The buffer after the Sobel filter: each filtered byte holds the magnitude
/// of its group, every other byte is kept.
pub open spec fn sobel_spec(p: Seq<u8>, offset: int, width: int) -> Seq<u8> {
    Seq::new(
        p.len(),
        |k: int|
            if is_filtered(offset, p.len() as int, k) {
                magnitude(p, offset, width, group_start(offset, k)) as u8
            } else {
                p[k]
            },
    )
}

proof fn lemma_root_below_le(n: int, r: nat)
    ensures
        root_below(n, r) <= r,
    decreases r,
{
    if r > 0 && r * r > n {
        lemma_root_below_le(n, (r - 1) as nat);
    }
}

/// A gradient magnitude is never above 255.
pub proof fn lemma_clamped_norm_le_255(sx: int, sy: int)
    ensures
        0 <= clamped_norm(sx, sy) <= 255,
{
    lemma_root_below_le(sx * sx + sy * sy, 255);
}

proof fn lemma_response_bound(p: Seq<u8>, offset: int, width: int, i: int, vertical: bool, t: nat)
    requires
        t <= 9,
    ensures
        -510 * t <= response(p, offset, width, i, vertical, t) <= 510 * t,
    decreases t,
{
    if t > 0 {
        lemma_response_bound(p, offset, width, i, vertical, (t - 1) as nat);
        let y = (t - 1) / 3;
        let x = (t - 1) % 3;
        let v = tap(p, offset, width, i, y, x);
        let w = kernel(vertical, y, x);
        assert(0 <= v <= 255);
        assert(-2 <= w <= 2);
        assert(-510 <= v * w <= 510) by (nonlinear_arith)
            requires
                0 <= v <= 255,
                -2 <= w <= 2,
        ;
    }
}

/// The largest `m <= 255` with `m * m <= n`.
fn clamped_root(n: i64) -> (r: u8)
    requires
        n >= 0,
    ensures
        r as nat == root_below(n as int, 255),
{
    let mut r: i64 = 255;
    while r > 0 && r * r > n
        invariant
            0 <= r <= 255,
            r * r <= 255 * 255,
            root_below(n as int, 255) == root_below(n as int, r as nat),
        decreases r,
    {
        r = r - 1;
        assert(r * r <= 255 * 255) by (nonlinear_arith)
            requires
                0 <= r <= 255,
        ;
    }
    r as u8
}

/// Sobel gradient magnitude of the group starting at byte `i`.
fn group_magnitude(pixels: &Vec<u8>, offset: i32, width: i32, i: i64) -> (r: u8)
    requires
        0 <= offset,
        0 <= i <= pixels@.len() <= i32::MAX,
    ensures
        r as nat == magnitude(pixels@, offset as int, width as int, i as int),
{
    let ghost p = pixels@;
    let len: i64 = pixels.len() as i64;
    let stride: i64 = width as i64 * 3;
    let mut sum_x: i64 = 0;
    let mut sum_y: i64 = 0;
    let mut y: usize = 0;
    while y < 3
        invariant
            0 <= y <= 3,
            p == pixels@,
            len == p.len(),
            stride == width as int * 3,
            -0x1_8000_0000 <= stride <= 0x1_8000_0000,
            0 <= i <= p.len() <= i32::MAX,
            0 <= offset,
            sum_x == response(p, offset as int, width as int, i as int, false, (3 * y) as nat),
            sum_y == response(p, offset as int, width as int, i as int, true, (3 * y) as nat),
        decreases 3 - y,
    {
        let dy: i64 = if y == 0 {
            -stride
        } else if y == 1 {
            0
        } else {
            stride
        };
        let mut x: usize = 0;
        while x < 3
            invariant
                0 <= y < 3,
                0 <= x <= 3,
                p == pixels@,
                len == p.len(),
                stride == width as int * 3,
                -0x1_8000_0000 <= stride <= 0x1_8000_0000,
                dy == (if y == 0 {
                    -stride
                } else if y == 1 {
                    0int
                } else {
                    stride as int
                }),
                0 <= i <= p.len() <= i32::MAX,
                0 <= offset,
            0 <= offset,
                sum_x == response(
                    p,
                    offset as int,
                    width as int,
                    i as int,
                    false,
                    (3 * y + x) as nat,
                ),
                sum_y == response(
                    p,
                    offset as int,
                    width as int,
                    i as int,
                    true,
                    (3 * y + x) as nat,
                ),
            decreases 3 - x,
        {
            proof {
                lemma_response_bound(p, offset as int, width as int, i as int, false, (3 * y + x) as nat);
                lemma_response_bound(p, offset as int, width as int, i as int, true, (3 * y + x) as nat);
            }
            let position: i64 = i + dy + (x as i64 - 1) * 3;
            let ghost t: nat = (3 * y + x + 1) as nat;
            proof {
                assert(position == tap_position(i as int, width as int, y as int, x as int))
                    by (nonlinear_arith)
                    requires
                        position == i + dy + (x - 1) * 3,
                        stride == width * 3,
                        dy == (if y == 0 {
                            -stride
                        } else if y == 1 {
                            0int
                        } else {
                            stride as int
                        }),
                        0 <= y < 3,
                ;
                assert((t - 1) / 3 == y && (t - 1) % 3 == x);
            }
            let ghost v_tap = tap(p, offset as int, width as int, i as int, y as int, x as int);
            let ghost old_x = sum_x as int;
            let ghost old_y = sum_y as int;
            if position > offset as i64 && position < len {
                let v: i64 = pixels[position as usize] as i64;
                assert(v == v_tap);
                let cx: i64 = if y == 1 { 2 * v } else { v };
                let cy: i64 = if x == 1 { 2 * v } else { v };
                if x == 0 {
                    sum_x = sum_x - cx;
                } else if x == 2 {
                    sum_x = sum_x + cx;
                }
                if y == 0 {
                    sum_y = sum_y - cy;
                } else if y == 2 {
                    sum_y = sum_y + cy;
                }
            }
            proof {
                let kx = kernel_x(y as int, x as int);
                let ky = kernel_y(y as int, x as int);
                if x == 0 {
                    if y == 1 {
                        assert(kx == -2);
                        assert(v_tap * kx == -2 * v_tap);
                    } else {
                        assert(kx == -1);
                        assert(v_tap * kx == -v_tap) by (nonlinear_arith)
                            requires
                                kx == -1,
                        ;
                    }
                } else if x == 2 {
                    assert(v_tap * kx == (if y == 1 { 2 * v_tap } else { v_tap }));
                } else {
                    assert(v_tap * kx == 0);
                }
                if y == 0 {
                    assert(v_tap * ky == -(if x == 1 { 2 * v_tap } else { v_tap }));
                } else if y == 2 {
                    assert(v_tap * ky == (if x == 1 { 2 * v_tap } else { v_tap }));
                } else {
                    assert(v_tap * ky == 0);
                }
                assert(sum_x == old_x + v_tap * kx);
                assert(sum_y == old_y + v_tap * ky);
                assert(response(p, offset as int, width as int, i as int, false, t) == response(
                    p,
                    offset as int,
                    width as int,
                    i as int,
                    false,
                    (t - 1) as nat,
                ) + v_tap * kernel_x(y as int, x as int));
                assert(response(p, offset as int, width as int, i as int, true, t) == response(
                    p,
                    offset as int,
                    width as int,
                    i as int,
                    true,
                    (t - 1) as nat,
                ) + v_tap * kernel_y(y as int, x as int));
            }
            x = x + 1;
        }
        y = y + 1;
    }
    proof {
        lemma_response_bound(p, offset as int, width as int, i as int, false, 9);
        lemma_response_bound(p, offset as int, width as int, i as int, true, 9);
        assert(0 <= sum_x * sum_x <= 4590 * 4590) by (nonlinear_arith)
            requires
                -4590 <= sum_x <= 4590,
        ;
        assert(0 <= sum_y * sum_y <= 4590 * 4590) by (nonlinear_arith)
            requires
                -4590 <= sum_y <= 4590,
        ;
    }
    clamped_root(sum_x * sum_x + sum_y * sum_y)
}

/// Applies the Sobel filter to a greyscale buffer whose pixel data starts at
/// `offset`, for rows `width` pixels wide. Each pixel group starting at
/// `offset + 1 + 3 * k` below `len - 3` gets its gradient magnitude in all
/// three bytes; every other byte is kept. Neighbours at or before `offset`
/// or past the end count as zero.
pub fn sobel_filter(pixels: Vec<u8>, offset: i32, width: i32) -> (r: Vec<u8>)
    requires
        0 <= offset,
        pixels@.len() <= i32::MAX,
    ensures
        r@ == sobel_spec(pixels@, offset as int, width as int),
{
    let ghost p = pixels@;
    let ghost off = offset as int;
    let ghost len = p.len() as int;
    let mut sobel_vec = pixels.clone();
    let end: i64 = pixels.len() as i64 - 3;
    let mut i: i64 = offset as i64 + 1;
    while i < end
        invariant
            p == pixels@,
            len == p.len() <= i32::MAX,
            end == len - 3,
            off == offset as int,
            0 <= offset,
            off + 1 <= i,
            (i - off - 1) % 3 == 0,
            sobel_vec@.len() == len,
            forall|k: int|
                0 <= k < len ==> #[trigger] sobel_vec@[k] == (if is_filtered(off, len, k)
                    && group_start(off, k) < i {
                    magnitude(p, off, width as int, group_start(off, k)) as u8
                } else {
                    p[k]
                }),
        decreases end + 3 - i,
    {
        let m: u8 = group_magnitude(&pixels, offset, width, i);
        let iu: usize = i as usize;
        sobel_vec.set(iu, m);
        sobel_vec.set(iu + 1, m);
        sobel_vec.set(iu + 2, m);
        proof {
            assert(is_center(off, len, i as int));
            assert forall|k: int| 0 <= k < len implies #[trigger] sobel_vec@[k] == (if is_filtered(
                off,
                len,
                k,
            ) && group_start(off, k) < i + 3 {
                magnitude(p, off, width as int, group_start(off, k)) as u8
            } else {
                p[k]
            }) by {
                if i <= k < i + 3 {
                    assert(group_start(off, k) == i);
                } else if k >= off + 1 {
                    assert(group_start(off, k) != i);
                }
            }
        }
        i = i + 3;
    }
    proof {
        assert forall|k: int| 0 <= k < len implies #[trigger] sobel_vec@[k] == sobel_spec(
            p,
            off,
            width as int,
        )[k] by {
            if is_filtered(off, len, k) {
                assert(group_start(off, k) < i);
            }
        }
        assert(sobel_vec@ =~= sobel_spec(p, off, width as int));
    }
    sobel_vec
}

/// The filter keeps the buffer's length.
pub proof fn lemma_sobel_length(p: Seq<u8>, offset: int, width: int)
    ensures
        sobel_spec(p, offset, width).len() == p.len(),
{
}

/// The three bytes of each group the filter writes are equal, and hold a
/// magnitude of at most 255.
pub proof fn lemma_sobel_group_uniform(p: Seq<u8>, offset: int, width: int, c: int)
    requires
        0 <= offset,
        is_center(offset, p.len() as int, c),
    ensures
        sobel_spec(p, offset, width)[c] == sobel_spec(p, offset, width)[c + 1],
        sobel_spec(p, offset, width)[c + 1] == sobel_spec(p, offset, width)[c + 2],
        sobel_spec(p, offset, width)[c] as nat == magnitude(p, offset, width, c),
{
    assert(group_start(offset, c) == c);
    assert(group_start(offset, c + 1) == c);
    assert(group_start(offset, c + 2) == c);
    assert(is_filtered(offset, p.len() as int, c));
    assert(is_filtered(offset, p.len() as int, c + 1));
    assert(is_filtered(offset, p.len() as int, c + 2));
    let m = magnitude(p, offset, width, c) as u8;
    assert(sobel_spec(p, offset, width)[c] == m);
    assert(sobel_spec(p, offset, width)[c + 1] == m);
    assert(sobel_spec(p, offset, width)[c + 2] == m);
    lemma_clamped_norm_le_255(gradient_x(p, offset, width, c), gradient_y(p, offset, width, c));
}

/// The filter leaves every byte up to and including `offset` unchanged.
pub proof fn lemma_sobel_keeps_prefix(p: Seq<u8>, offset: int, width: int, k: int)
    requires
        0 <= k <= offset,
        k < p.len(),
    ensures
        sobel_spec(p, offset, width)[k] == p[k],
{
}

/// `root_below` finds the integer square root `s` whenever `s <= r`.
pub proof fn lemma_root_below_exact(n: int, r: nat, s: nat)
    requires
        s <= r,
        s * s <= n < (s + 1) * (s + 1),
    ensures
        root_below(n, r) == s,
    decreases r,
{
    if r > s {
        assert(r * r >= (s + 1) * (s + 1)) by (nonlinear_arith)
            requires
                r >= s + 1,
        ;
        lemma_root_below_exact(n, (r - 1) as nat, s);
    }
}

/// Where every pixel byte equals `v` and all nine neighbours of the group at
/// `c` lie inside the pixel data, both kernel responses cancel and the group
/// gets magnitude 0.
pub proof fn lemma_uniform_interior_zero(p: Seq<u8>, offset: int, width: int, c: int, v: u8)
    requires
        0 <= offset,
        is_center(offset, p.len() as int, c),
        forall|y: int, x: int|
            0 <= y < 3 && 0 <= x < 3 ==> offset < #[trigger] tap_position(c, width, y, x) < p.len(),
        forall|k: int| offset < k < p.len() ==> #[trigger] p[k] == v,
    ensures
        sobel_spec(p, offset, width)[c] == 0,
        sobel_spec(p, offset, width)[c + 1] == 0,
        sobel_spec(p, offset, width)[c + 2] == 0,
{
    assert forall|y: int, x: int| 0 <= y < 3 && 0 <= x < 3 implies #[trigger] tap(
        p,
        offset,
        width,
        c,
        y,
        x,
    ) == v as int by {
        let pos = tap_position(c, width, y, x);
        assert(offset < pos < p.len());
        assert(p[pos] == v);
    }
    reveal_with_fuel(response, 10);
    let vi = v as int;
    assert(response(p, offset, width, c, false, 0) == 0);
    assert(kernel(false, 0, 0) == -1);
    assert(tap(p, offset, width, c, 0, 0) * kernel(false, 0, 0) == -vi);
    assert(response(p, offset, width, c, false, 1) == response(p, offset, width, c, false, 0)
        + tap(p, offset, width, c, 0, 0) * kernel(false, 0, 0));
    assert(response(p, offset, width, c, false, 1) == -vi);
    assert(response(p, offset, width, c, false, 2) == -vi);
    assert(response(p, offset, width, c, false, 3) == 0);
    assert(response(p, offset, width, c, false, 6) == 0);
    assert(response(p, offset, width, c, false, 9) == 0);
    assert(response(p, offset, width, c, true, 3) == -4 * vi);
    assert(response(p, offset, width, c, true, 6) == -4 * vi);
    assert(response(p, offset, width, c, true, 9) == 0);
    assert(0int * 0int <= 0int + 0int < 1int * 1int);
    lemma_root_below_exact(0, 255, 0);
    lemma_sobel_group_uniform(p, offset, width, c);
}

} // verus!

//! Reading rendered pixels back: a frame comes off the GPU in rows that are padded to the
//! alignment of copies, and is written out in tight rows.
use vstd::prelude::*;

verus! {

/// Bytes of a pixel (RGBA).
pub const PIXEL_BYTES: u32 = 4;

/// Alignment of the rows of a copied texture, in bytes.
pub const ROW_ALIGN: u32 = 256;

/// The bytes of a padded row of `width` pixels.
pub open spec fn padded(width: int) -> int {
    (width * 4 + 255) / 256 * 256
}

/// The bytes of a row of `width` pixels, padded to the alignment of copies.
pub fn padded_row(width: u32) -> (r: u32)
    requires
        width * 4 + 255 <= u32::MAX,
    ensures
        r == padded(width as int),
        r % 256 == 0,
        width * 4 <= r < width * 4 + 256,
{
    (width * PIXEL_BYTES + (ROW_ALIGN - 1)) / ROW_ALIGN * ROW_ALIGN
}

/// The first `k` rows without their padding.
pub open spec fn tight(data: Seq<u8>, width: int, k: int) -> Seq<u8>
    decreases k,
{
    if k <= 0 {
        seq![]
    } else {
        let from = (k - 1) * padded(width);
        tight(data, width, k - 1) + data.subrange(from, from + width * 4)
    }
}

/// Strip the per-row padding into a tight RGBA buffer for an image encoder.
pub fn tight_rows(data: &[u8], width: u32, height: u32) -> (r: Vec<u8>)
    requires
        width * 4 + 255 <= u32::MAX,
        height * padded(width as int) <= data@.len(),
    ensures
        r@ == tight(data@, width as int, height as int),
        r@.len() == height * (width * 4),
{
    let row = (width * PIXEL_BYTES) as usize;
    let step = padded_row(width) as usize;
    let len = data.len();
    let mut out: Vec<u8> = Vec::new();
    let mut y: u32 = 0;
    let mut from: usize = 0;
    assert(0 * (width * 4) == 0) by (nonlinear_arith);
    while y < height
        invariant
            y <= height,
            row == width * 4,
            step == padded(width as int),
            row <= step,
            from == y * step,
            height * step <= len == data@.len(),
            out@ == tight(data@, width as int, y as int),
            out@.len() == y * (width * 4),
        decreases height - y,
    {
        assert((y + 1) * step == y * step + step && (y + 1) * step <= height * step) by (
            nonlinear_arith)
            requires
                y < height,
                step >= 0,
        ;
        assert((y + 1) * (width * 4) == y * (width * 4) + width * 4) by (nonlinear_arith);
        let ghost before = out@;
        let mut x: usize = 0;
        while x < row
            invariant
                x <= row <= step,
                from + step <= len == data@.len(),
                out@ =~= before + data@.subrange(from as int, from + x),
            decreases row - x,
        {
            out.push(data[from + x]);
            x += 1;
        }
        from = from + step;
        y += 1;
    }
    out
}

/// The pixels keep their places: byte `x` of row `y` is byte `x` of the padded row `y`.
pub proof fn law_rows_keep_their_bytes(data: Seq<u8>, width: int, k: int, y: int, x: int)
    requires
        0 < width,
        0 <= y < k,
        0 <= x < width * 4,
        k * padded(width) <= data.len(),
    ensures
        tight(data, width, k).len() == k * (width * 4),
        tight(data, width, k)[y * (width * 4) + x] == data[y * padded(width) + x],
        padded(width) >= width * 4,
        padded(width) % 256 == 0,
        padded(width) < width * 4 + 256,
    decreases k,
{
    let row = width * 4;
    let step = padded(width);
    assert((k - 1) * step <= k * step) by (nonlinear_arith)
        requires
            step >= 0,
    ;
    lemma_tight_len(data, width, k - 1);
    lemma_tight_len(data, width, k);
    let from = (k - 1) * step;
    assert(from + step == k * step) by (nonlinear_arith)
        requires
            from == (k - 1) * step,
    ;
    assert(from >= 0) by (nonlinear_arith)
        requires
            from == (k - 1) * step,
            k >= 1,
            step >= 0,
    ;
    let rest = tight(data, width, k - 1);
    let last = data.subrange(from, from + row);
    assert(tight(data, width, k) == rest + last);
    if y < k - 1 {
        law_rows_keep_their_bytes(data, width, k - 1, y, x);
        assert(0 <= y * row + x < (k - 1) * row) by (nonlinear_arith)
            requires
                0 <= y < k - 1,
                0 <= x < row,
        ;
        assert(rest[y * row + x] == tight(data, width, k)[y * row + x]);
    } else {
        assert(tight(data, width, k)[y * row + x] == last[x]);
    }
}

proof fn lemma_tight_len(data: Seq<u8>, width: int, k: int)
    requires
        0 < width,
        0 <= k,
        k * padded(width) <= data.len(),
    ensures
        tight(data, width, k).len() == k * (width * 4),
    decreases k,
{
    let step = padded(width);
    if k > 0 {
        assert((k - 1) * step <= k * step && (k - 1) * step + step == k * step && (k - 1) * step
            >= 0) by (nonlinear_arith)
            requires
                step >= 0,
                k > 0,
        ;
        lemma_tight_len(data, width, k - 1);
        assert((k - 1) * (width * 4) + width * 4 == k * (width * 4)) by (nonlinear_arith);
    } else {
        assert(k * (width * 4) == 0) by (nonlinear_arith)
            requires
                k == 0,
        ;
    }
}

} // verus!

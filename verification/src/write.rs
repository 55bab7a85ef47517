//! Encoding an image as a PNG stream.
use vstd::prelude::*;

use crate::filter::{
    byte_sum, chosen_filter, filter_byte, filter_bytes, filter_rows, first_min,
    lemma_filter_rows_len, lemma_filter_rows_short, lemma_filter_rows_unfold, paeth_predict, row_scores, zeros, FILTER_AVG,
    FILTER_NONE, FILTER_PAETH, FILTER_SUB, FILTER_UP,
};
use crate::zlib::{
    compress_bound, compress_bound_exact, compress_bound_of, compress_slice, crc32, crc32_update,
    deflate_filtered_result,
};
use crate::read::{bytes_per_row, opt_bytes};
use crate::{
    ceil_div, div_round_up, u32_be_bytes, Image, ImageModel, IDAT, IEND, IHDR, PLTE, PNG_SIGNATURE,
    tRNS,
};

verus! {

/// The color type of an image of `channel` channels, or of a palette image.
pub open spec fn color_type_of(channel: u8, is_color_type_3: bool) -> Option<u8> {
    if is_color_type_3 {
        Some(3)
    } else if channel == 1 {
        Some(0)
    } else if channel == 2 {
        Some(4)
    } else if channel == 3 {
        Some(2)
    } else if channel == 4 {
        Some(6)
    } else {
        None
    }
}

/// The color type of an image of `channel` channels, or of a palette image.
pub fn get_color_type(channel: u8, is_color_type_3: bool) -> (r: Option<u8>)
    ensures
        r == color_type_of(channel, is_color_type_3),
{
    if is_color_type_3 {
        return Some(3);
    }
    match channel {
        1 => return Some(0),
        2 => return Some(4),
        3 => return Some(2),
        4 => return Some(6),
        _ => return None,
    }
}

/// The palette chunk data of the first `n` RGBA entries of `palette`: their
/// red, green and blue bytes.
pub open spec fn plte_entries(palette: Seq<u8>, n: nat) -> Seq<u8>
    decreases n,
{
    if n == 0 {
        Seq::empty()
    } else {
        let i = n - 1;
        plte_entries(palette, i as nat) + seq![
            palette[4 * i],
            palette[4 * i + 1],
            palette[4 * i + 2],
        ]
    }
}

/// The transparency chunk data of the first `n` RGBA entries of `palette`:
/// their alpha bytes.
pub open spec fn trns_entries(palette: Seq<u8>, n: nat) -> Seq<u8>
    decreases n,
{
    if n == 0 {
        Seq::empty()
    } else {
        let i = n - 1;
        trns_entries(palette, i as nat).push(palette[4 * i + 3])
    }
}

/// Splits an RGBA palette (four bytes an entry, a partial entry ignored) into
/// palette chunk data and transparency chunk data.
pub fn make_plte_trns(palette: &[u8]) -> (res: (Vec<u8>, Vec<u8>))
    ensures
        res.0@ == plte_entries(palette@, palette@.len() / 4),
        res.1@ == trns_entries(palette@, palette@.len() / 4),
{
    let entries: usize = palette.len() / 4;
    let mut plte: Vec<u8> = Vec::new();
    let mut trns: Vec<u8> = Vec::new();
    for i in 0..entries
        invariant
            entries == palette@.len() / 4,
            plte@ == plte_entries(palette@, i as nat),
            trns@ == trns_entries(palette@, i as nat),
    {
        assert(i * 4 + 4 <= palette@.len()) by (nonlinear_arith)
            requires
                i < entries,
                entries == palette@.len() / 4,
        ;
        assert(palette@.len() == palette.len());
        plte.push(palette[i * 4]);
        plte.push(palette[i * 4 + 1]);
        plte.push(palette[i * 4 + 2]);
        trns.push(palette[i * 4 + 3]);
        assert(plte@ =~= plte_entries(palette@, (i + 1) as nat));
        assert(trns@ =~= trns_entries(palette@, (i + 1) as nat));
    }
    return (plte, trns);
}

/// The four bytes of a chunk type.
pub fn type_bytes(chunk_type: u32) -> (r: [u8; 4])
    ensures
        r@ == u32_be_bytes(chunk_type),
{
    let r: [u8; 4] = [
        (chunk_type / 0x1000000) as u8,
        ((chunk_type / 0x10000) % 0x100) as u8,
        ((chunk_type / 0x100) % 0x100) as u8,
        (chunk_type % 0x100) as u8,
    ];
    assert(r@ =~= u32_be_bytes(chunk_type));
    r
}

/// Appends the four bytes of `x`, most significant first.
fn push_be_u32(out: &mut Vec<u8>, x: u32)
    ensures
        final(out)@ == old(out)@ + u32_be_bytes(x),
{
    out.push((x / 0x1000000) as u8);
    out.push(((x / 0x10000) % 0x100) as u8);
    out.push(((x / 0x100) % 0x100) as u8);
    out.push((x % 0x100) as u8);
    assert(out@ =~= old(out)@ + u32_be_bytes(x));
}

/// Appends the bytes of `s`.
fn push_bytes(out: &mut Vec<u8>, s: &[u8])
    ensures
        final(out)@ == old(out)@ + s@,
{
    for i in 0..s.len()
        invariant
            out@ == old(out)@ + s@.take(i as int),
    {
        out.push(s[i]);
        assert(out@ =~= old(out)@ + s@.take(i + 1));
    }
    assert(s@.take(s@.len() as int) =~= s@);
}

/// A chunk: the length of its data (truncated to 32 bits), its type, its
/// data, and the CRC of its type and data.
#[verifier::opaque]
pub open spec fn chunk_bytes(chunk_type: Seq<u8>, data: Seq<u8>) -> Seq<u8> {
    u32_be_bytes(data.len() as u32) + chunk_type + data + u32_be_bytes(
        crc32_update(crc32_update(0, chunk_type), data),
    )
}

/// A chunk of a four-byte type takes twelve bytes besides its data.
pub proof fn lemma_chunk_bytes_len(chunk_type: Seq<u8>, data: Seq<u8>)
    requires
        chunk_type.len() == 4,
    ensures
        chunk_bytes(chunk_type, data).len() == 12 + data.len(),
{
    reveal(chunk_bytes);
}

/// Appends the chunk of the given type and data.
fn write_chunk(chunk_type: &[u8; 4], data: &[u8], out: &mut Vec<u8>)
    ensures
        final(out)@ == old(out)@ + chunk_bytes(chunk_type@, data@),
{
    reveal(chunk_bytes);
    let crc: u32 = crc32(crc32(0, chunk_type.as_slice()), data);
    push_be_u32(out, data.len() as u32);
    push_bytes(out, chunk_type.as_slice());
    push_bytes(out, data);
    push_be_u32(out, crc);
    assert(out@ =~= old(out)@ + chunk_bytes(chunk_type@, data@));
}

/// Scanline `i` of `src`, of `bpr` bytes.
pub open spec fn scanline(src: Seq<u8>, i: int, bpr: nat) -> Seq<u8> {
    src.subrange(i * bpr, (i + 1) * bpr)
}

/// A filter buffer after filtering: its type byte, the filtered scanline, and
/// the rest of the buffer as it was.
pub open spec fn row_result(old_row: Seq<u8>, filtered: Seq<u8>, bpr: nat) -> Seq<u8> {
    old_row.take(1) + filtered + old_row.skip(bpr + 1 as int)
}

/// The filter buffer `row` holds filter `k` of `raw` before position `j` and
/// is otherwise `old_row`.
#[verifier::opaque]
pub open spec fn row_filled(
    row: Seq<u8>,
    old_row: Seq<u8>,
    k: u8,
    raw: Seq<u8>,
    up: Seq<u8>,
    bpp: nat,
    j: int,
) -> bool {
    &&& row.len() == old_row.len()
    &&& forall|m: int| 0 <= m < j ==> row[m + 1] == filter_byte(k, raw, up, bpp, m)
    &&& forall|m: int| 0 <= m < row.len() && !(1 <= m <= j) ==> row[m] == old_row[m]
}

proof fn lemma_row_filled_done(
    row: Seq<u8>,
    old_row: Seq<u8>,
    k: u8,
    raw: Seq<u8>,
    up: Seq<u8>,
    bpp: nat,
    bpr: nat,
)
    requires
        row_filled(row, old_row, k, raw, up, bpp, bpr as int),
        raw.len() == bpr,
        old_row.len() >= bpr + 1,
    ensures
        row == row_result(old_row, filter_bytes(k, raw, up, bpp), bpr),
{
    reveal(row_filled);
    let r = row_result(old_row, filter_bytes(k, raw, up, bpp), bpr);
    assert forall|m: int| 0 <= m < row.len() implies row[m] == r[m] by {
        if 1 <= m <= bpr {
            assert(row[(m - 1) + 1] == filter_byte(k, raw, up, bpp, m - 1));
        }
    }
    assert(row =~= r);
}

proof fn lemma_row_filled_start(row: Seq<u8>, k: u8, raw: Seq<u8>, up: Seq<u8>, bpp: nat)
    ensures
        row_filled(row, row, k, raw, up, bpp, 0),
{
    reveal(row_filled);
}

proof fn lemma_row_filled_step(
    row: Seq<u8>,
    old_row: Seq<u8>,
    k: u8,
    raw: Seq<u8>,
    up: Seq<u8>,
    bpp: nat,
    j: int,
    v: u8,
)
    requires
        row_filled(row, old_row, k, raw, up, bpp, j),
        0 <= j,
        j + 1 < row.len(),
        v == filter_byte(k, raw, up, bpp, j),
    ensures
        row_filled(row.update(j + 1, v), old_row, k, raw, up, bpp, j + 1),
{
    reveal(row_filled);
    let r = row.update(j + 1, v);
    assert forall|m: int| 0 <= m < j + 1 implies r[m + 1] == filter_byte(k, raw, up, bpp, m) by {
        if m < j {
            assert(r[m + 1] == row[m + 1]);
        }
    }
}

proof fn lemma_row_filled_len(
    row: Seq<u8>,
    old_row: Seq<u8>,
    k: u8,
    raw: Seq<u8>,
    up: Seq<u8>,
    bpp: nat,
    j: int,
)
    requires
        row_filled(row, old_row, k, raw, up, bpp, j),
    ensures
        row.len() == old_row.len(),
{
    reveal(row_filled);
}

/// The filtered bytes at a position with no complete pixel to its left.
proof fn lemma_filter_head(raw: Seq<u8>, up: Seq<u8>, bpp: nat, j: int)
    requires
        0 <= j < bpp,
        j < raw.len(),
        j < up.len(),
    ensures
        filter_byte(FILTER_NONE, raw, up, bpp, j) == raw[j],
        filter_byte(FILTER_SUB, raw, up, bpp, j) == raw[j],
        filter_byte(FILTER_UP, raw, up, bpp, j) == crate::filter::sub_mod(raw[j], up[j]),
        filter_byte(FILTER_AVG, raw, up, bpp, j) == crate::filter::sub_mod(raw[j], up[j] / 2),
        filter_byte(FILTER_PAETH, raw, up, bpp, j) == crate::filter::sub_mod(raw[j], up[j]),
{
}

/// The filtered bytes at a position with a complete pixel to its left, as
/// the encoder computes them.
proof fn lemma_filter_tail(raw: Seq<u8>, up: Seq<u8>, bpp: nat, j: int, d: u8, avg: u8)
    requires
        1 <= bpp <= j < raw.len(),
        j < up.len(),
        d == crate::filter::paeth_predictor(raw[j - bpp], up[j], up[j - bpp]),
        avg == ((raw[j - bpp] + up[j]) / 2) as u8,
    ensures
        filter_byte(FILTER_NONE, raw, up, bpp, j) == raw[j],
        filter_byte(FILTER_SUB, raw, up, bpp, j) == crate::filter::sub_mod(raw[j], raw[j - bpp]),
        filter_byte(FILTER_UP, raw, up, bpp, j) == crate::filter::sub_mod(raw[j], up[j]),
        filter_byte(FILTER_AVG, raw, up, bpp, j) == crate::filter::sub_mod(raw[j], avg),
        filter_byte(FILTER_PAETH, raw, up, bpp, j) == crate::filter::sub_mod(raw[j], d),
{
}

/// The sum of the first `j` bytes of filter `k` of `raw`.
#[verifier::opaque]
pub open spec fn partial_score(k: u8, raw: Seq<u8>, up: Seq<u8>, bpp: nat, j: int) -> int {
    byte_sum(filter_bytes(k, raw, up, bpp).take(j))
}

proof fn lemma_byte_sum_step(s: Seq<u8>, j: int)
    requires
        0 <= j < s.len(),
    ensures
        byte_sum(s.take(j + 1)) == byte_sum(s.take(j)) + s[j],
{
    assert(s.take(j + 1).drop_last() =~= s.take(j));
}

proof fn lemma_partial_score_step(k: u8, raw: Seq<u8>, up: Seq<u8>, bpp: nat, j: int, v: u8)
    requires
        0 <= j < raw.len(),
        v == filter_byte(k, raw, up, bpp, j),
    ensures
        partial_score(k, raw, up, bpp, j + 1) == partial_score(k, raw, up, bpp, j) + v,
{
    reveal(partial_score);
    lemma_byte_sum_step(filter_bytes(k, raw, up, bpp), j);
}

proof fn lemma_partial_score_ends(k: u8, raw: Seq<u8>, up: Seq<u8>, bpp: nat)
    ensures
        partial_score(k, raw, up, bpp, 0) == 0,
        partial_score(k, raw, up, bpp, raw.len() as int) == byte_sum(filter_bytes(k, raw, up, bpp)),
{
    reveal(partial_score);
    assert(filter_bytes(k, raw, up, bpp).take(0) =~= Seq::<u8>::empty());
    assert(filter_bytes(k, raw, up, bpp).take(raw.len() as int) =~= filter_bytes(k, raw, up, bpp));
}

/// `x - y` modulo 256.
fn sub_wrapping(x: u8, y: u8) -> (r: u8)
    ensures
        r == crate::filter::sub_mod(x, y),
{
    x.wrapping_sub(y)
}

proof fn step_rows(
    row0: Seq<u8>,
    row1: Seq<u8>,
    row2: Seq<u8>,
    row3: Seq<u8>,
    row4: Seq<u8>,
    old0: Seq<u8>,
    old1: Seq<u8>,
    old2: Seq<u8>,
    old3: Seq<u8>,
    old4: Seq<u8>,
    raw: Seq<u8>,
    up: Seq<u8>,
    bpp: nat,
    j: int,
    v0: u8,
    v1: u8,
    v2: u8,
    v3: u8,
    v4: u8,
)
    requires
        0 <= j,
        j + 1 < old0.len(),
        j + 1 < old1.len(),
        j + 1 < old2.len(),
        j + 1 < old3.len(),
        j + 1 < old4.len(),
        row_filled(row0, old0, FILTER_NONE, raw, up, bpp, j),
        row_filled(row1, old1, FILTER_SUB, raw, up, bpp, j),
        row_filled(row2, old2, FILTER_UP, raw, up, bpp, j),
        row_filled(row3, old3, FILTER_AVG, raw, up, bpp, j),
        row_filled(row4, old4, FILTER_PAETH, raw, up, bpp, j),
        v0 == filter_byte(FILTER_NONE, raw, up, bpp, j),
        v1 == filter_byte(FILTER_SUB, raw, up, bpp, j),
        v2 == filter_byte(FILTER_UP, raw, up, bpp, j),
        v3 == filter_byte(FILTER_AVG, raw, up, bpp, j),
        v4 == filter_byte(FILTER_PAETH, raw, up, bpp, j),
    ensures
        row0.len() == old0.len(),
        row1.len() == old1.len(),
        row2.len() == old2.len(),
        row3.len() == old3.len(),
        row4.len() == old4.len(),
        row_filled(row0.update(j + 1, v0), old0, FILTER_NONE, raw, up, bpp, j + 1),
        row_filled(row1.update(j + 1, v1), old1, FILTER_SUB, raw, up, bpp, j + 1),
        row_filled(row2.update(j + 1, v2), old2, FILTER_UP, raw, up, bpp, j + 1),
        row_filled(row3.update(j + 1, v3), old3, FILTER_AVG, raw, up, bpp, j + 1),
        row_filled(row4.update(j + 1, v4), old4, FILTER_PAETH, raw, up, bpp, j + 1),
{
    lemma_row_filled_len(row0, old0, FILTER_NONE, raw, up, bpp, j);
    lemma_row_filled_len(row1, old1, FILTER_SUB, raw, up, bpp, j);
    lemma_row_filled_len(row2, old2, FILTER_UP, raw, up, bpp, j);
    lemma_row_filled_len(row3, old3, FILTER_AVG, raw, up, bpp, j);
    lemma_row_filled_len(row4, old4, FILTER_PAETH, raw, up, bpp, j);
    lemma_row_filled_step(row0, old0, FILTER_NONE, raw, up, bpp, j, v0);
    lemma_row_filled_step(row1, old1, FILTER_SUB, raw, up, bpp, j, v1);
    lemma_row_filled_step(row2, old2, FILTER_UP, raw, up, bpp, j, v2);
    lemma_row_filled_step(row3, old3, FILTER_AVG, raw, up, bpp, j, v3);
    lemma_row_filled_step(row4, old4, FILTER_PAETH, raw, up, bpp, j, v4);
}

/// Filters scanline `i` of `src` into the filter buffers `dst`, each of which
/// holds its filter type in its first byte, and scores the filters.
///
/// The first scanline takes the sub filter alone: only `dst[1]` is written,
/// and its score is 0 against `u64::MAX` for the others. Every later scanline
/// is written under each filter type `k` into `dst[k]`, with the scanline
/// before it as the one above, and scored by the sum of its filtered bytes.
pub fn filter_row(dst: &mut [Vec<u8>; 5], src: &[u8], bpp: usize, bpr: usize, i: usize) -> (scores:
    [u64; 5])
    requires
        1 <= bpp <= bpr,
        bpr <= 0x00FF_FFFF_FFFF_FFFF,
        (i + 1) * bpr <= src@.len(),
        i == 0 ==> old(dst)[1]@.len() >= bpr + 1,
        i > 0 ==> forall|k: int| 0 <= k < 5 ==> #[trigger] old(dst)[k]@.len() >= bpr + 1,
    ensures
        i == 0 ==> {
            &&& final(dst)[1]@ == row_result(
                old(dst)[1]@,
                filter_bytes(FILTER_SUB, scanline(src@, 0, bpr as nat), zeros(bpr as nat), bpp as nat),
                bpr as nat,
            )
            &&& final(dst)[0] == old(dst)[0]
            &&& final(dst)[2] == old(dst)[2]
            &&& final(dst)[3] == old(dst)[3]
            &&& final(dst)[4] == old(dst)[4]
            &&& scores@ == seq![u64::MAX, 0, u64::MAX, u64::MAX, u64::MAX]
        },
        i > 0 ==> forall|k: int|
            0 <= k < 5 ==> #[trigger] final(dst)[k]@ == row_result(
                old(dst)[k]@,
                filter_bytes(
                    k as u8,
                    scanline(src@, i as int, bpr as nat),
                    scanline(src@, i - 1, bpr as nat),
                    bpp as nat,
                ),
                bpr as nat,
            ),
        i > 0 ==> forall|k: int|
            0 <= k < 5 ==> #[trigger] scores@[k] == byte_sum(
                filter_bytes(
                    k as u8,
                    scanline(src@, i as int, bpr as nat),
                    scanline(src@, i - 1, bpr as nat),
                    bpp as nat,
                ),
            ),
{
    let ghost old_dst = *dst;
    proof {
        assert(i * bpr + bpr == (i + 1) * bpr) by (nonlinear_arith);
        assert(0 <= i * bpr) by (nonlinear_arith);
        assert(i + 1 <= (i + 1) * bpr) by (nonlinear_arith)
            requires
                bpr >= 1,
        ;
        assert(src@.len() == src.len());
    }
    let raw: &[u8] = &src[i * bpr..(i + 1) * bpr];
    if i == 0 {
        let ghost up = zeros(bpr as nat);
        let ghost old1 = old_dst[1]@;
        let mut row1: Vec<u8> = Vec::new();
        core::mem::swap(&mut dst[1], &mut row1);
        assert(row1@ == old1);
        proof {
            lemma_row_filled_start(old1, FILTER_SUB, raw@, up, bpp as nat);
        }
        for j in 0..bpp
            invariant
                1 <= bpp <= bpr,
                raw@.len() == bpr,
                up == zeros(bpr as nat),
                old1.len() >= bpr + 1,
                row_filled(row1@, old1, FILTER_SUB, raw@, up, bpp as nat, j as int),
        {
            proof {
                lemma_filter_head(raw@, up, bpp as nat, j as int);
                lemma_row_filled_len(row1@, old1, FILTER_SUB, raw@, up, bpp as nat, j as int);
                lemma_row_filled_step(row1@, old1, FILTER_SUB, raw@, up, bpp as nat, j as int, raw@[j as int]);
            }
            row1[j + 1] = raw[j];
        }
        for j in bpp..bpr
            invariant
                1 <= bpp <= bpr,
                raw@.len() == bpr,
                up == zeros(bpr as nat),
                old1.len() >= bpr + 1,
                row_filled(row1@, old1, FILTER_SUB, raw@, up, bpp as nat, j as int),
        {
            let v = sub_wrapping(raw[j], raw[j - bpp]);
            proof {
                lemma_filter_tail(
                    raw@,
                    up,
                    bpp as nat,
                    j as int,
                    crate::filter::paeth_predictor(raw@[j - bpp], up[j as int], up[j - bpp]),
                    ((raw@[j - bpp] + up[j as int]) / 2) as u8,
                );
                lemma_row_filled_len(row1@, old1, FILTER_SUB, raw@, up, bpp as nat, j as int);
                lemma_row_filled_step(row1@, old1, FILTER_SUB, raw@, up, bpp as nat, j as int, v);
            }
            row1[j + 1] = v;
        }
        proof {
            lemma_row_filled_done(row1@, old1, FILTER_SUB, raw@, up, bpp as nat, bpr as nat);
        }
        dst[1] = row1;
        let scores: [u64; 5] = [u64::MAX, 0, u64::MAX, u64::MAX, u64::MAX];
        assert(scores@ =~= seq![u64::MAX, 0, u64::MAX, u64::MAX, u64::MAX]);
        return scores;
    }
    proof {
        assert((i - 1) * bpr + bpr == i * bpr) by (nonlinear_arith);
        assert(0 <= (i - 1) * bpr) by (nonlinear_arith)
            requires
                i >= 1,
        ;
    }
    let up: &[u8] = &src[(i - 1) * bpr..i * bpr];
    let ghost old0 = old_dst[0]@;
    let ghost old1 = old_dst[1]@;
    let ghost old2 = old_dst[2]@;
    let ghost old3 = old_dst[3]@;
    let ghost old4 = old_dst[4]@;
    assert(old0.len() >= bpr + 1 && old1.len() >= bpr + 1 && old2.len() >= bpr + 1 && old3.len()
        >= bpr + 1 && old4.len() >= bpr + 1) by {
        assert(old_dst[0]@.len() >= bpr + 1);
        assert(old_dst[1]@.len() >= bpr + 1);
        assert(old_dst[2]@.len() >= bpr + 1);
        assert(old_dst[3]@.len() >= bpr + 1);
        assert(old_dst[4]@.len() >= bpr + 1);
    }
    let mut row0: Vec<u8> = Vec::new();
    let mut row1: Vec<u8> = Vec::new();
    let mut row2: Vec<u8> = Vec::new();
    let mut row3: Vec<u8> = Vec::new();
    let mut row4: Vec<u8> = Vec::new();
    core::mem::swap(&mut dst[0], &mut row0);
    core::mem::swap(&mut dst[1], &mut row1);
    core::mem::swap(&mut dst[2], &mut row2);
    core::mem::swap(&mut dst[3], &mut row3);
    core::mem::swap(&mut dst[4], &mut row4);
    proof {
        lemma_row_filled_start(old0, FILTER_NONE, raw@, up@, bpp as nat);
        lemma_row_filled_start(old1, FILTER_SUB, raw@, up@, bpp as nat);
        lemma_row_filled_start(old2, FILTER_UP, raw@, up@, bpp as nat);
        lemma_row_filled_start(old3, FILTER_AVG, raw@, up@, bpp as nat);
        lemma_row_filled_start(old4, FILTER_PAETH, raw@, up@, bpp as nat);
        lemma_partial_score_ends(FILTER_NONE, raw@, up@, bpp as nat);
        lemma_partial_score_ends(FILTER_SUB, raw@, up@, bpp as nat);
        lemma_partial_score_ends(FILTER_UP, raw@, up@, bpp as nat);
        lemma_partial_score_ends(FILTER_AVG, raw@, up@, bpp as nat);
        lemma_partial_score_ends(FILTER_PAETH, raw@, up@, bpp as nat);
    }
    let mut score0: u64 = 0;
    let mut score1: u64 = 0;
    let mut score2: u64 = 0;
    let mut score3: u64 = 0;
    let mut score4: u64 = 0;

    for j in 0..bpp
        invariant
            1 <= bpp <= bpr <= 0x00FF_FFFF_FFFF_FFFF,
            raw@.len() == bpr,
            up@.len() == bpr,
            old0.len() >= bpr + 1,
            old1.len() >= bpr + 1,
            old2.len() >= bpr + 1,
            old3.len() >= bpr + 1,
            old4.len() >= bpr + 1,
            row_filled(row0@, old0, FILTER_NONE, raw@, up@, bpp as nat, j as int),
            row_filled(row1@, old1, FILTER_SUB, raw@, up@, bpp as nat, j as int),
            row_filled(row2@, old2, FILTER_UP, raw@, up@, bpp as nat, j as int),
            row_filled(row3@, old3, FILTER_AVG, raw@, up@, bpp as nat, j as int),
            row_filled(row4@, old4, FILTER_PAETH, raw@, up@, bpp as nat, j as int),
            score0 == partial_score(FILTER_NONE, raw@, up@, bpp as nat, j as int),
            score1 == partial_score(FILTER_SUB, raw@, up@, bpp as nat, j as int),
            score2 == partial_score(FILTER_UP, raw@, up@, bpp as nat, j as int),
            score3 == partial_score(FILTER_AVG, raw@, up@, bpp as nat, j as int),
            score4 == partial_score(FILTER_PAETH, raw@, up@, bpp as nat, j as int),
            score0 <= 255 * j,
            score1 <= 255 * j,
            score2 <= 255 * j,
            score3 <= 255 * j,
            score4 <= 255 * j,
    {
        let v0 = raw[j];
        let v1 = raw[j];
        let v2 = sub_wrapping(raw[j], up[j]);
        let v3 = sub_wrapping(raw[j], up[j] / 2);
        let v4 = sub_wrapping(raw[j], up[j]);
        proof {
            lemma_filter_head(raw@, up@, bpp as nat, j as int);
            step_rows(
                row0@, row1@, row2@, row3@, row4@, old0, old1, old2, old3, old4, raw@, up@,
                bpp as nat, j as int, v0, v1, v2, v3, v4,
            );
        }
        row0[j + 1] = v0;
        row1[j + 1] = v1;
        row2[j + 1] = v2;
        row3[j + 1] = v3;
        row4[j + 1] = v4;

        proof {
            lemma_partial_score_step(FILTER_NONE, raw@, up@, bpp as nat, j as int, v0);
            lemma_partial_score_step(FILTER_SUB, raw@, up@, bpp as nat, j as int, v1);
            lemma_partial_score_step(FILTER_UP, raw@, up@, bpp as nat, j as int, v2);
            lemma_partial_score_step(FILTER_AVG, raw@, up@, bpp as nat, j as int, v3);
            lemma_partial_score_step(FILTER_PAETH, raw@, up@, bpp as nat, j as int, v4);
        }
        score0 += v0 as u64;
        score1 += v1 as u64;
        score2 += v2 as u64;
        score3 += v3 as u64;
        score4 += v4 as u64;
    }

    for j in bpp..bpr
        invariant
            1 <= bpp <= bpr <= 0x00FF_FFFF_FFFF_FFFF,
            raw@.len() == bpr,
            up@.len() == bpr,
            old0.len() >= bpr + 1,
            old1.len() >= bpr + 1,
            old2.len() >= bpr + 1,
            old3.len() >= bpr + 1,
            old4.len() >= bpr + 1,
            row_filled(row0@, old0, FILTER_NONE, raw@, up@, bpp as nat, j as int),
            row_filled(row1@, old1, FILTER_SUB, raw@, up@, bpp as nat, j as int),
            row_filled(row2@, old2, FILTER_UP, raw@, up@, bpp as nat, j as int),
            row_filled(row3@, old3, FILTER_AVG, raw@, up@, bpp as nat, j as int),
            row_filled(row4@, old4, FILTER_PAETH, raw@, up@, bpp as nat, j as int),
            score0 == partial_score(FILTER_NONE, raw@, up@, bpp as nat, j as int),
            score1 == partial_score(FILTER_SUB, raw@, up@, bpp as nat, j as int),
            score2 == partial_score(FILTER_UP, raw@, up@, bpp as nat, j as int),
            score3 == partial_score(FILTER_AVG, raw@, up@, bpp as nat, j as int),
            score4 == partial_score(FILTER_PAETH, raw@, up@, bpp as nat, j as int),
            score0 <= 255 * j,
            score1 <= 255 * j,
            score2 <= 255 * j,
            score3 <= 255 * j,
            score4 <= 255 * j,
    {
        let a: i32 = raw[j - bpp] as i32;
        let b: i32 = up[j] as i32;
        let c: i32 = up[j - bpp] as i32;

        let d: u8 = paeth_predict(a, b, c);

        let avg: u8 = ((a + b) / 2) as u8;

        let v0 = raw[j];
        let v1 = sub_wrapping(raw[j], raw[j - bpp]);
        let v2 = sub_wrapping(raw[j], up[j]);
        let v3 = sub_wrapping(raw[j], avg);
        let v4 = sub_wrapping(raw[j], d);
        proof {
            lemma_filter_tail(raw@, up@, bpp as nat, j as int, d, avg);
            step_rows(
                row0@, row1@, row2@, row3@, row4@, old0, old1, old2, old3, old4, raw@, up@,
                bpp as nat, j as int, v0, v1, v2, v3, v4,
            );
        }
        row0[j + 1] = v0;
        row1[j + 1] = v1;
        row2[j + 1] = v2;
        row3[j + 1] = v3;
        row4[j + 1] = v4;

        proof {
            lemma_partial_score_step(FILTER_NONE, raw@, up@, bpp as nat, j as int, v0);
            lemma_partial_score_step(FILTER_SUB, raw@, up@, bpp as nat, j as int, v1);
            lemma_partial_score_step(FILTER_UP, raw@, up@, bpp as nat, j as int, v2);
            lemma_partial_score_step(FILTER_AVG, raw@, up@, bpp as nat, j as int, v3);
            lemma_partial_score_step(FILTER_PAETH, raw@, up@, bpp as nat, j as int, v4);
        }
        score0 += v0 as u64;
        score1 += v1 as u64;
        score2 += v2 as u64;
        score3 += v3 as u64;
        score4 += v4 as u64;

        assert(score0 < u64::MAX - 0xFF && score1 < u64::MAX - 0xFF && score2 < u64::MAX - 0xFF
            && score3 < u64::MAX - 0xFF && score4 < u64::MAX - 0xFF);
        if score0 >= u64::MAX - 0xFF || score1 >= u64::MAX - 0xFF || score2 >= u64::MAX - 0xFF
            || score3 >= u64::MAX - 0xFF || score4 >= u64::MAX - 0xFF {
            let mut base: u64 = score0;
            if score1 < base {
                base = score1;
            }
            if score2 < base {
                base = score2;
            }
            if score3 < base {
                base = score3;
            }
            if score4 < base {
                base = score4;
            }
            score0 -= base;
            score1 -= base;
            score2 -= base;
            score3 -= base;
            score4 -= base;
        }
    }

    proof {
        lemma_row_filled_done(row0@, old0, FILTER_NONE, raw@, up@, bpp as nat, bpr as nat);
        lemma_row_filled_done(row1@, old1, FILTER_SUB, raw@, up@, bpp as nat, bpr as nat);
        lemma_row_filled_done(row2@, old2, FILTER_UP, raw@, up@, bpp as nat, bpr as nat);
        lemma_row_filled_done(row3@, old3, FILTER_AVG, raw@, up@, bpp as nat, bpr as nat);
        lemma_row_filled_done(row4@, old4, FILTER_PAETH, raw@, up@, bpp as nat, bpr as nat);
    }
    dst[0] = row0;
    dst[1] = row1;
    dst[2] = row2;
    dst[3] = row3;
    dst[4] = row4;
    let scores: [u64; 5] = [score0, score1, score2, score3, score4];
    assert(scores@[0] == score0 && scores@[1] == score1 && scores@[2] == score2 && scores@[3]
        == score3 && scores@[4] == score4);
    return scores;
}

/// Compression level of the image data.
pub const DEFLATE_LEVEL: i32 = 6;

/// Window size of the image data's zlib stream, as a power of two.
pub const DEFLATE_WINDOW_BITS: i32 = 15;

/// Memory level of the compressor.
pub const DEFLATE_MEM_LEVEL: i32 = 8;

/// The bytes of a complete pixel of `samples` samples of `bit_depth` bits,
/// as the encoder counts them.
pub open spec fn write_bpp(samples: int, bit_depth: u8) -> int {
    samples * (if bit_depth == 16 {
        2int
    } else {
        1int
    })
}

/// The encoder's filters look back one whole pixel: its samples times the
/// bit depth, over 8, rounded up (two bytes a sample at 16 bits, one byte for
/// a single sample of fewer than 8 bits).
pub proof fn lemma_write_pixel_bytes(samples: int, bit_depth: u8)
    requires
        valid_bit_depth(bit_depth),
        samples >= 1,
        bit_depth >= 8 || samples == 1,
    ensures
        write_bpp(samples, bit_depth) == ceil_div(samples * bit_depth, 8),
{
    if bit_depth == 16 {
        vstd::arithmetic::div_mod::lemma_mod_multiples_basic(2 * samples, 8);
        vstd::arithmetic::div_mod::lemma_div_multiples_vanish(2 * samples, 8);
        assert(samples * 16 == (2 * samples) * 8 && 8 * (2 * samples) == (2 * samples) * 8);
    } else if bit_depth == 8 {
        vstd::arithmetic::div_mod::lemma_mod_multiples_basic(samples, 8);
        vstd::arithmetic::div_mod::lemma_div_multiples_vanish(samples, 8);
        assert(8 * samples == samples * 8);
    }
}

/// The samples that a scanline of the image holds per pixel: one palette
/// index for a palette image, else one per channel.
pub open spec fn write_samples(img: ImageModel, is_color_type_3: bool) -> int {
    if is_color_type_3 {
        1
    } else {
        img.channels as int
    }
}

/// The filtered image data of an image: its first `height` scanlines, the
/// first under the sub filter and each later one under the filter of least
/// score.
pub open spec fn filtered_image_data(img: ImageModel, is_color_type_3: bool) -> Seq<u8> {
    let samples = write_samples(img, is_color_type_3);
    let bpp = write_bpp(samples, img.bit_depth);
    let bpr = bytes_per_row(img.width, img.bit_depth, samples);
    filter_rows(
        img.buffer.take(bpr * img.height),
        zeros(bpr as nat),
        true,
        bpp as nat,
        bpr as nat,
    )
}

/// What zlib returns for the filtered image data `f` compressed as the
/// encoder does it.
pub open spec fn deflate_filtered_with_settings(f: Seq<u8>) -> (Seq<u8>, i32) {
    deflate_filtered_result(
        f,
        compress_bound_of(f.len() as usize),
        DEFLATE_LEVEL,
        DEFLATE_WINDOW_BITS,
        DEFLATE_MEM_LEVEL,
    )
}

/// The stream that zlib compresses the filtered image data `f` into.
pub open spec fn deflate_filtered_result_of(f: Seq<u8>) -> Seq<u8> {
    deflate_filtered_with_settings(f).0
}

/// The image data chunk's data: the compressed filtered image data, where
/// compression succeeds.
pub open spec fn idat_data(img: ImageModel, is_color_type_3: bool) -> Option<Seq<u8>> {
    let r = deflate_filtered_with_settings(filtered_image_data(img, is_color_type_3));
    if r.1 != 0 {
        None
    } else {
        Some(r.0)
    }
}

/// What an image needs for its scanlines to be filtered: the sizes fit in a
/// `usize`, a scanline holds a complete pixel, and the buffer holds `height`
/// scanlines.
pub open spec fn scanlines_fit(img: ImageModel, is_color_type_3: bool) -> bool {
    let samples = write_samples(img, is_color_type_3);
    let bpr = bytes_per_row(img.width, img.bit_depth, samples);
    &&& img.width * img.bit_depth * samples <= usize::MAX
    &&& 1 <= write_bpp(samples, img.bit_depth) <= bpr
    &&& (bpr + 1) * img.height <= usize::MAX
    &&& bpr * img.height <= img.buffer.len()
}

proof fn lemma_rows_prefix(raw: Seq<u8>, n: int, i: int, bpr: int)
    requires
        0 <= i < n,
        bpr >= 1,
        raw.len() == n * bpr,
    ensures
        0 <= i * bpr,
        i * bpr + bpr == (i + 1) * bpr,
        i >= 1 ==> 0 <= (i - 1) * bpr && (i - 1) * bpr + bpr == i * bpr,
        (i + 1) * bpr <= raw.len(),
        raw.skip(i * bpr).len() >= bpr,
{
    assert(0 <= i * bpr) by (nonlinear_arith)
        requires
            0 <= i,
            bpr >= 1,
    ;
    assert(i * bpr + bpr == (i + 1) * bpr) by (nonlinear_arith);
    if i >= 1 {
        assert(0 <= (i - 1) * bpr) by (nonlinear_arith)
            requires
                i >= 1,
                bpr >= 1,
        ;
        assert((i - 1) * bpr + bpr == i * bpr) by (nonlinear_arith);
    }
    assert((i + 1) * bpr <= n * bpr) by (nonlinear_arith)
        requires
            i + 1 <= n,
            bpr >= 1,
    ;
}

/// The length of the filtered image data of an image: a filter type byte and
/// a scanline for each of its rows.
pub open spec fn filtered_len(img: ImageModel, is_color_type_3: bool) -> int {
    (bytes_per_row(img.width, img.bit_depth, write_samples(img, is_color_type_3)) + 1) * img.height
}

/// The filtered image data has the length `filtered_len` says.
pub proof fn lemma_filtered_image_data_len(img: ImageModel, is_color_type_3: bool)
    requires
        scanlines_fit(img, is_color_type_3),
    ensures
        filtered_image_data(img, is_color_type_3).len() == filtered_len(img, is_color_type_3),
{
    let samples = write_samples(img, is_color_type_3);
    let bpp = write_bpp(samples, img.bit_depth);
    let bpr = bytes_per_row(img.width, img.bit_depth, samples);
    let raw = img.buffer.take(bpr * img.height);
    assert(bpr * img.height == img.height * bpr) by (nonlinear_arith);
    assert(0 <= bpr * img.height) by (nonlinear_arith)
        requires
            bpr >= 1,
    ;
    lemma_filter_rows_len(raw, zeros(bpr as nat), true, bpp as nat, bpr as nat, img.height as nat);
    assert(img.height * (bpr + 1) == (bpr + 1) * img.height) by (nonlinear_arith);
}

/// A filter buffer: its filter type `k`, then room for a scanline.
pub open spec fn filter_buffer_ok(buf: Seq<u8>, k: int, bpr: nat) -> bool {
    buf.len() == bpr + 1 && buf[0] == k
}

/// Filters the scanlines of the image and compresses them into the image data.
fn make_idat(img: &Image, is_color_type_3: bool) -> (res: Option<Vec<u8>>)
    requires
        1 <= img.width,
        1 <= img.height,
        1 <= img.bit_depth,
        1 <= img.channels,
        scanlines_fit(img@, is_color_type_3),
    ensures
        opt_bytes(res) == idat_data(img@, is_color_type_3),
        compress_bound_exact(filtered_image_data(img@, is_color_type_3).len() as int) ==> res is Some,
{
    let channels: usize = if is_color_type_3 {
        1
    } else {
        img.channels as usize
    };
    let bpp: usize = if img.bit_depth == 16 {
        channels * 2
    } else {
        channels
    };
    proof {
        assert(img.width * img.bit_depth * channels <= usize::MAX);
        assert(img.width * img.bit_depth <= img.width * img.bit_depth * channels) by (nonlinear_arith)
            requires
                channels >= 1,
                img.width * img.bit_depth >= 0,
        ;
    }
    let bpr: usize = div_round_up(img.width as usize * img.bit_depth as usize * channels, 8);
    let height: usize = img.height as usize;
    let ghost raw_all = img.buffer@.take(bpr * height);
    assert(bpr <= 0x00FF_FFFF_FFFF_FFFF) by {
        assert(img.width * img.bit_depth * channels <= 0xFFFF_FFFF * 0xFF * 0xFF) by (nonlinear_arith)
            requires
                img.width <= 0xFFFF_FFFF,
                img.bit_depth <= 0xFF,
                channels <= 0xFF,
        ;
    }
    proof {
        assert(bpr * height <= (bpr + 1) * height) by (nonlinear_arith);
        assert(bpr + 1 <= (bpr + 1) * height) by (nonlinear_arith)
            requires
                height >= 1,
        ;
        assert(bpr * height == height * bpr) by (nonlinear_arith);
    }

    let mut filtered_image: Vec<u8> = Vec::new();
    let mut filter_buf: [Vec<u8>; 5] = [Vec::new(), Vec::new(), Vec::new(), Vec::new(), Vec::new()];
    for k in 0..5
        invariant
            bpr + 1 <= usize::MAX,
            forall|m: int| 0 <= m < k ==> filter_buffer_ok(#[trigger] filter_buf@[m]@, m, bpr as nat),
    {
        let mut row: Vec<u8> = vec![0u8; bpr + 1];
        row[0] = k as u8;
        filter_buf[k] = row;
    }

    let ghost up: Seq<u8> = zeros(bpr as nat);
    assert(raw_all.skip(0) =~= raw_all);
    for i in 0..height
        invariant
            1 <= bpp <= bpr <= 0x00FF_FFFF_FFFF_FFFF,
            height == img.height,
            raw_all == img.buffer@.take(bpr * height),
            raw_all.len() == bpr * height,
            bpr * height <= img.buffer@.len(),
            forall|m: int| 0 <= m < 5 ==> filter_buffer_ok(#[trigger] filter_buf@[m]@, m, bpr as nat),
            up.len() == bpr,
            i > 0 ==> up == raw_all.subrange((i - 1) * bpr, i * bpr),
            i == 0 ==> up == zeros(bpr as nat),
            filter_rows(raw_all, zeros(bpr as nat), true, bpp as nat, bpr as nat) == filtered_image@
                + filter_rows(raw_all.skip(i * bpr), up, i == 0, bpp as nat, bpr as nat),
    {
        proof {
            lemma_rows_prefix(raw_all, height as int, i as int, bpr as int);
            assert((i + 1) * bpr <= img.buffer@.len());
        }
        let ghost row = raw_all.subrange(i * bpr, (i + 1) * bpr);
        assert(row =~= img.buffer@.subrange(i * bpr, (i + 1) * bpr));
        assert(i > 0 ==> up =~= img.buffer@.subrange((i - 1) * bpr, i * bpr));
        let ghost old_buf = filter_buf;
        let scores: [u64; 5] = filter_row(&mut filter_buf, img.buffer.as_slice(), bpp, bpr, i);

        let mut best_filter_type: usize = 0;
        let ghost sc = row_scores(row, up, bpp as nat);
        assert(row == scanline(img.buffer@, i as int, bpr as nat));
        assert(i > 0 ==> up == scanline(img.buffer@, i - 1, bpr as nat));
        assert(i > 0 ==> forall|m: int| 0 <= m < 5 ==> scores@[m] == #[trigger] sc[m]);
        for k in 0..5
            invariant
                0 <= best_filter_type < 5,
                i == 0 ==> scores@ == seq![u64::MAX, 0, u64::MAX, u64::MAX, u64::MAX],
                i == 0 ==> best_filter_type == (if k >= 2 {
                    1usize
                } else {
                    0usize
                }),
                i > 0 ==> forall|m: int| 0 <= m < 5 ==> scores@[m] == #[trigger] sc[m],
                i > 0 && k >= 1 ==> best_filter_type == first_min(sc, k as int),
                i > 0 && k == 0 ==> best_filter_type == 0,
        {
            if scores[k] < scores[best_filter_type] {
                best_filter_type = k;
            }
        }
        let ghost k = if i == 0 {
            FILTER_SUB
        } else {
            chosen_filter(row, up, bpp as nat)
        };
        assert(best_filter_type == k);
        let ghost rest = raw_all.skip(i * bpr);
        proof {
            lemma_filter_rows_unfold(rest, up, i == 0, bpp as nat, bpr as nat);
        }
        assert(rest.take(bpr as int) =~= row);
        assert(rest.skip(bpr as int) =~= raw_all.skip((i + 1) * bpr));
        assert(filter_buf@[best_filter_type as int]@ =~= seq![k] + filter_bytes(
            k,
            row,
            up,
            bpp as nat,
        ));
        assert forall|m: int| 0 <= m < 5 implies filter_buffer_ok(
            #[trigger] filter_buf@[m]@,
            m,
            bpr as nat,
        ) by {
            assert(filter_buffer_ok(old_buf@[m]@, m, bpr as nat));
        }

        let ghost before = filtered_image@;
        filtered_image.extend_from_slice(filter_buf[best_filter_type].as_slice());
        assert(filtered_image@ =~= before + filter_buf[best_filter_type as int]@);
        proof {
            up = row;
        }
    }
    assert(raw_all.skip(height * bpr) =~= Seq::<u8>::empty());
    proof {
        lemma_filter_rows_short(Seq::<u8>::empty(), up, height == 0, bpp as nat, bpr as nat);
    }

    let cap: usize = compress_bound(filtered_image.len());
    let (compressed, return_code) = compress_slice(
        cap,
        filtered_image.as_slice(),
        DEFLATE_LEVEL,
        DEFLATE_WINDOW_BITS,
        DEFLATE_MEM_LEVEL,
    );
    if return_code != 0 {
        return None;
    }
    return Some(compressed);
}

/// A bit depth that the encoder accepts.
pub open spec fn valid_bit_depth(bit_depth: u8) -> bool {
    bit_depth == 1 || bit_depth == 2 || bit_depth == 4 || bit_depth == 8 || bit_depth == 16
}

/// The image passes the encoder's checks: it has pixels and channels, an
/// accepted bit depth, and a color type.
pub open spec fn header_accepted(img: ImageModel) -> bool {
    &&& img.width != 0
    &&& img.height != 0
    &&& img.channels != 0
    &&& valid_bit_depth(img.bit_depth)
    &&& color_type_of(img.channels, img.palette.len() != 0) is Some
}

/// What `write` needs of an image that passes its checks (see
/// `scanlines_fit`).
pub open spec fn write_requires(img: ImageModel) -> bool {
    header_accepted(img) ==> scanlines_fit(img, img.palette.len() != 0)
}

/// The eight bytes of the PNG signature.
pub open spec fn signature_bytes() -> Seq<u8> {
    u32_be_bytes((PNG_SIGNATURE / 0x1_0000_0000) as u32) + u32_be_bytes(
        (PNG_SIGNATURE % 0x1_0000_0000) as u32,
    )
}

/// The header chunk's data.
pub open spec fn ihdr_data(width: u32, height: u32, bit_depth: u8, color_type: u8) -> Seq<u8> {
    u32_be_bytes(width) + u32_be_bytes(height) + seq![bit_depth, color_type, 0u8, 0u8, 0u8]
}

/// The palette and transparency chunks of an image with a palette.
pub open spec fn palette_chunks(palette: Seq<u8>) -> Seq<u8> {
    chunk_bytes(u32_be_bytes(PLTE), plte_entries(palette, palette.len() / 4)) + chunk_bytes(
        u32_be_bytes(tRNS),
        trns_entries(palette, palette.len() / 4),
    )
}

/// The PNG stream that `write` encodes an image into: the signature, the
/// header chunk, the palette and transparency chunks if the image has a
/// palette, one image data chunk, and the end chunk.
///
/// `None` where the width, the height or the channels are 0, the bit depth is
/// not 1, 2, 4, 8 or 16, an image without palette has more than four channels,
/// or compression fails.
pub open spec fn spec_write(img: ImageModel) -> Option<Seq<u8>> {
    if img.width == 0 || img.height == 0 || img.channels == 0 || !valid_bit_depth(img.bit_depth) {
        None
    } else {
        let pal = img.palette.len() != 0;
        match color_type_of(img.channels, pal) {
            None => None,
            Some(color_type) => match idat_data(img, pal) {
                None => None,
                Some(idat) => Some(
                    signature_bytes() + chunk_bytes(
                        u32_be_bytes(IHDR),
                        ihdr_data(img.width, img.height, img.bit_depth, color_type),
                    ) + (if pal {
                        palette_chunks(img.palette)
                    } else {
                        Seq::empty()
                    }) + chunk_bytes(u32_be_bytes(IDAT), idat) + chunk_bytes(
                        u32_be_bytes(IEND),
                        Seq::empty(),
                    ),
                ),
            },
        }
    }
}

impl Image {
    /// Encodes the image as a PNG stream (see `spec_write`).
    pub fn write(&self) -> (res: Option<Vec<u8>>)
        requires
            write_requires(self@),
        ensures
            opt_bytes(res) == spec_write(self@),
            header_accepted(self@) && compress_bound_exact(
                filtered_len(self@, self@.palette.len() != 0),
            ) ==> res is Some,
    {
        if self.width == 0 || self.height == 0 || self.channels == 0 || (match self.bit_depth {
            1 | 2 | 4 | 8 | 16 => false,
            _ => true,
        }) {
            return None;
        }

        let is_color_type_3: bool = !self.palette.is_empty();

        let color_type: u8 = match get_color_type(self.channels, is_color_type_3) {
            Some(t) => t,
            None => return None,
        };
        let mut ihdr: Vec<u8> = Vec::new();
        push_be_u32(&mut ihdr, self.width);
        push_be_u32(&mut ihdr, self.height);
        ihdr.push(self.bit_depth);
        ihdr.push(color_type);
        ihdr.push(0);
        ihdr.push(0);
        ihdr.push(0);
        assert(ihdr@ =~= ihdr_data(self.width, self.height, self.bit_depth, color_type));

        let mut out: Vec<u8> = Vec::new();
        push_be_u32(&mut out, (PNG_SIGNATURE / 0x1_0000_0000) as u32);
        push_be_u32(&mut out, (PNG_SIGNATURE % 0x1_0000_0000) as u32);
        write_chunk(&type_bytes(IHDR), ihdr.as_slice(), &mut out);

        if !self.palette.is_empty() {
            let (plte, trns) = make_plte_trns(self.palette.as_slice());
            write_chunk(&type_bytes(PLTE), plte.as_slice(), &mut out);
            write_chunk(&type_bytes(tRNS), trns.as_slice(), &mut out);
        }
        let ghost head = out@;
        proof {
            lemma_filtered_image_data_len(self@, is_color_type_3);
        }

        let idat: Vec<u8> = match make_idat(self, is_color_type_3) {
            Some(d) => d,
            None => return None,
        };
        write_chunk(&type_bytes(IDAT), idat.as_slice(), &mut out);

        let empty: Vec<u8> = Vec::new();
        write_chunk(&type_bytes(IEND), empty.as_slice(), &mut out);
        assert(out@ =~= head + chunk_bytes(u32_be_bytes(IDAT), idat@) + chunk_bytes(
            u32_be_bytes(IEND),
            Seq::empty(),
        ));
        return Some(out);
    }
}

} // verus!

//! Rebuilding one scanline from its filtered bytes, one function per filter
//! type (and for the first scanline, where the scanline above is all zero).
//! Each writes the first `bpr` bytes of `dst` and leaves the rest of it.
use vstd::prelude::*;

use crate::filter::{
    add_mod, paeth_predict, recon_byte, recon_row, zeros, FILTER_AVG, FILTER_PAETH, FILTER_SUB,
    FILTER_UP,
};

verus! {

/// `dst` holds the rebuilt bytes of `src` under filter `k` before position
/// `j`, and its bytes from `j` on are those of `old_dst`.
pub open spec fn rebuilt_upto(
    k: u8,
    src: Seq<u8>,
    prev: Seq<u8>,
    bpp: nat,
    dst: Seq<u8>,
    old_dst: Seq<u8>,
    j: int,
) -> bool {
    &&& dst.len() == old_dst.len()
    &&& forall|i: int| 0 <= i < j ==> dst[i] == recon_byte(k, src, prev, bpp, i)
    &&& forall|i: int| j <= i < dst.len() ==> dst[i] == old_dst[i]
}

/// The first `bpr` bytes of `new_dst` are `row`, the rest those of `old_dst`.
pub open spec fn row_written(new_dst: Seq<u8>, old_dst: Seq<u8>, row: Seq<u8>, bpr: nat) -> bool {
    &&& new_dst.len() == old_dst.len()
    &&& new_dst.take(bpr as int) == row
    &&& new_dst.skip(bpr as int) == old_dst.skip(bpr as int)
}

proof fn lemma_rebuilt_row(
    k: u8,
    src: Seq<u8>,
    prev: Seq<u8>,
    bpp: nat,
    dst: Seq<u8>,
    old_dst: Seq<u8>,
    bpr: nat,
)
    requires
        rebuilt_upto(k, src, prev, bpp, dst, old_dst, bpr as int),
        src.len() == bpr,
        bpr <= dst.len(),
    ensures
        row_written(dst, old_dst, recon_row(k, src, prev, bpp), bpr),
{
    assert(dst.take(bpr as int) =~= recon_row(k, src, prev, bpp));
    assert(dst.skip(bpr as int) =~= old_dst.skip(bpr as int));
}

/// Filter type none: the scanline is its filtered bytes.
pub fn none(src: &[u8], dst: &mut [u8], bpr: usize)
    requires
        bpr <= src@.len(),
        bpr <= old(dst)@.len(),
    ensures
        row_written(final(dst)@, old(dst)@, src@.take(bpr as int), bpr as nat),
{
    let ghost old_dst = dst@;
    for i in 0..bpr
        invariant
            bpr <= src@.len(),
            bpr <= old_dst.len(),
            dst@.len() == old_dst.len(),
            forall|m: int| 0 <= m < i ==> dst@[m] == src@[m],
            forall|m: int| i <= m < dst@.len() ==> dst@[m] == old_dst[m],
    {
        dst[i] = src[i];
    }
    assert(dst@.take(bpr as int) =~= src@.take(bpr as int));
    assert(dst@.skip(bpr as int) =~= old_dst.skip(bpr as int));
}

/// Filter type sub: each byte adds the rebuilt byte `bpp` places to its left.
pub fn sub(src: &[u8], dst: &mut [u8], bpp: usize, bpr: usize)
    requires
        1 <= bpp <= bpr,
        bpr <= src@.len(),
        bpr <= old(dst)@.len(),
    ensures
        row_written(
            final(dst)@,
            old(dst)@,
            recon_row(FILTER_SUB, src@.take(bpr as int), zeros(bpr as nat), bpp as nat),
            bpr as nat,
        ),
{
    let ghost old_dst = dst@;
    let ghost s = src@.take(bpr as int);
    let ghost p = zeros(bpr as nat);
    for i in 0..bpp
        invariant
            1 <= bpp <= bpr,
            bpr <= src@.len(),
            bpr <= old_dst.len(),
            s == src@.take(bpr as int),
            p == zeros(bpr as nat),
            rebuilt_upto(FILTER_SUB, s, p, bpp as nat, dst@, old_dst, i as int),
    {
        assert(recon_byte(FILTER_SUB, s, p, bpp as nat, i as int) == src@[i as int]);
        dst[i] = src[i];
    }
    for i in bpp..bpr
        invariant
            1 <= bpp <= bpr,
            bpr <= src@.len(),
            bpr <= old_dst.len(),
            s == src@.take(bpr as int),
            p == zeros(bpr as nat),
            rebuilt_upto(FILTER_SUB, s, p, bpp as nat, dst@, old_dst, i as int),
    {
        let v = src[i].wrapping_add(dst[i - bpp]);
        assert(v == recon_byte(FILTER_SUB, s, p, bpp as nat, i as int));
        dst[i] = v;
    }
    proof {
        lemma_rebuilt_row(FILTER_SUB, s, p, bpp as nat, dst@, old_dst, bpr as nat);
    }
}

/// Filter type up: each byte adds the byte above it.
pub fn up(src: &[u8], prev_dst: &[u8], dst: &mut [u8], bpr: usize)
    requires
        bpr <= src@.len(),
        bpr <= prev_dst@.len(),
        bpr <= old(dst)@.len(),
    ensures
        forall|bpp: nat|
            row_written(
                final(dst)@,
                old(dst)@,
                #[trigger] recon_row(
                    FILTER_UP,
                    src@.take(bpr as int),
                    prev_dst@.take(bpr as int),
                    bpp,
                ),
                bpr as nat,
            ),
{
    let ghost old_dst = dst@;
    let ghost s = src@.take(bpr as int);
    let ghost p = prev_dst@.take(bpr as int);
    for i in 0..bpr
        invariant
            bpr <= src@.len(),
            bpr <= prev_dst@.len(),
            bpr <= old_dst.len(),
            s == src@.take(bpr as int),
            p == prev_dst@.take(bpr as int),
            dst@.len() == old_dst.len(),
            forall|m: int| 0 <= m < i ==> dst@[m] == add_mod(s[m], p[m]),
            forall|m: int| i <= m < dst@.len() ==> dst@[m] == old_dst[m],
    {
        dst[i] = src[i].wrapping_add(prev_dst[i]);
    }
    assert forall|bpp: nat|
        row_written(
            dst@,
            old_dst,
            #[trigger] recon_row(FILTER_UP, s, p, bpp),
            bpr as nat,
        ) by {
        assert(dst@.take(bpr as int) =~= recon_row(FILTER_UP, s, p, bpp));
        assert(dst@.skip(bpr as int) =~= old_dst.skip(bpr as int));
    }
}

/// Filter type average on the first scanline: each byte adds half the
/// rebuilt byte `bpp` places to its left.
pub fn avg_for_line0(src: &[u8], dst: &mut [u8], bpp: usize, bpr: usize)
    requires
        1 <= bpp <= bpr,
        bpr <= src@.len(),
        bpr <= old(dst)@.len(),
    ensures
        row_written(
            final(dst)@,
            old(dst)@,
            recon_row(FILTER_AVG, src@.take(bpr as int), zeros(bpr as nat), bpp as nat),
            bpr as nat,
        ),
{
    let ghost old_dst = dst@;
    let ghost s = src@.take(bpr as int);
    let ghost p = zeros(bpr as nat);
    for i in 0..bpp
        invariant
            1 <= bpp <= bpr,
            bpr <= src@.len(),
            bpr <= old_dst.len(),
            s == src@.take(bpr as int),
            p == zeros(bpr as nat),
            rebuilt_upto(FILTER_AVG, s, p, bpp as nat, dst@, old_dst, i as int),
    {
        assert(recon_byte(FILTER_AVG, s, p, bpp as nat, i as int) == src@[i as int]);
        dst[i] = src[i];
    }
    for i in bpp..bpr
        invariant
            1 <= bpp <= bpr,
            bpr <= src@.len(),
            bpr <= old_dst.len(),
            s == src@.take(bpr as int),
            p == zeros(bpr as nat),
            rebuilt_upto(FILTER_AVG, s, p, bpp as nat, dst@, old_dst, i as int),
    {
        let v = src[i].wrapping_add(dst[i - bpp] / 2);
        assert(v == recon_byte(FILTER_AVG, s, p, bpp as nat, i as int));
        dst[i] = v;
    }
    proof {
        lemma_rebuilt_row(FILTER_AVG, s, p, bpp as nat, dst@, old_dst, bpr as nat);
    }
}

/// Filter type average: each byte adds the mean of the rebuilt byte `bpp`
/// places to its left and the byte above it.
pub fn avg(src: &[u8], prev_dst: &[u8], dst: &mut [u8], bpp: usize, bpr: usize)
    requires
        1 <= bpp <= bpr,
        bpr <= src@.len(),
        bpr <= prev_dst@.len(),
        bpr <= old(dst)@.len(),
    ensures
        row_written(
            final(dst)@,
            old(dst)@,
            recon_row(FILTER_AVG, src@.take(bpr as int), prev_dst@.take(bpr as int), bpp as nat),
            bpr as nat,
        ),
{
    let ghost old_dst = dst@;
    let ghost s = src@.take(bpr as int);
    let ghost p = prev_dst@.take(bpr as int);
    for i in 0..bpp
        invariant
            1 <= bpp <= bpr,
            bpr <= src@.len(),
            bpr <= prev_dst@.len(),
            bpr <= old_dst.len(),
            s == src@.take(bpr as int),
            p == prev_dst@.take(bpr as int),
            rebuilt_upto(FILTER_AVG, s, p, bpp as nat, dst@, old_dst, i as int),
    {
        let v = src[i].wrapping_add(prev_dst[i] / 2);
        assert(v == recon_byte(FILTER_AVG, s, p, bpp as nat, i as int));
        dst[i] = v;
    }
    for i in bpp..bpr
        invariant
            1 <= bpp <= bpr,
            bpr <= src@.len(),
            bpr <= prev_dst@.len(),
            bpr <= old_dst.len(),
            s == src@.take(bpr as int),
            p == prev_dst@.take(bpr as int),
            rebuilt_upto(FILTER_AVG, s, p, bpp as nat, dst@, old_dst, i as int),
    {
        let v = src[i].wrapping_add(((prev_dst[i] as u16 + dst[i - bpp] as u16) / 2) as u8);
        assert(v == recon_byte(FILTER_AVG, s, p, bpp as nat, i as int));
        dst[i] = v;
    }
    proof {
        lemma_rebuilt_row(FILTER_AVG, s, p, bpp as nat, dst@, old_dst, bpr as nat);
    }
}

/// Filter type Paeth: each byte adds the Paeth predictor of the rebuilt byte
/// `bpp` places to its left, the byte above it and the byte above that one.
pub fn paeth(src: &[u8], prev_dst: &[u8], dst: &mut [u8], bpp: usize, bpr: usize)
    requires
        1 <= bpp <= bpr,
        bpr <= src@.len(),
        bpr <= prev_dst@.len(),
        bpr <= old(dst)@.len(),
    ensures
        row_written(
            final(dst)@,
            old(dst)@,
            recon_row(
                FILTER_PAETH,
                src@.take(bpr as int),
                prev_dst@.take(bpr as int),
                bpp as nat,
            ),
            bpr as nat,
        ),
{
    let ghost old_dst = dst@;
    let ghost s = src@.take(bpr as int);
    let ghost pr = prev_dst@.take(bpr as int);
    for i in 0..bpp
        invariant
            1 <= bpp <= bpr,
            bpr <= src@.len(),
            bpr <= prev_dst@.len(),
            bpr <= old_dst.len(),
            s == src@.take(bpr as int),
            pr == prev_dst@.take(bpr as int),
            rebuilt_upto(FILTER_PAETH, s, pr, bpp as nat, dst@, old_dst, i as int),
    {
        let v = src[i].wrapping_add(prev_dst[i]);
        assert(v == recon_byte(FILTER_PAETH, s, pr, bpp as nat, i as int));
        dst[i] = v;
    }
    for i in bpp..bpr
        invariant
            1 <= bpp <= bpr,
            bpr <= src@.len(),
            bpr <= prev_dst@.len(),
            bpr <= old_dst.len(),
            s == src@.take(bpr as int),
            pr == prev_dst@.take(bpr as int),
            rebuilt_upto(FILTER_PAETH, s, pr, bpp as nat, dst@, old_dst, i as int),
    {
        let a: i32 = dst[i - bpp] as i32;
        let b: i32 = prev_dst[i] as i32;
        let c: i32 = prev_dst[i - bpp] as i32;

        let d: u8 = paeth_predict(a, b, c);

        let v = src[i].wrapping_add(d);
        assert(v == recon_byte(FILTER_PAETH, s, pr, bpp as nat, i as int));
        dst[i] = v;
    }
    proof {
        lemma_rebuilt_row(FILTER_PAETH, s, pr, bpp as nat, dst@, old_dst, bpr as nat);
    }
}

} // verus!

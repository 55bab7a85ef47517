//! Decoding a PNG stream.
use vstd::prelude::*;

use crate::filter::{
    filter_rows_with, lemma_recon_none, lemma_recon_sub, lemma_unfilter_filter_rows_with,
    lemma_unfilter_rows_unfold, recon_row, unfilter_rows, zeros,
    FILTER_AVG, FILTER_NONE, FILTER_PAETH, FILTER_SUB, FILTER_UP,
};
use crate::roundtrip::{
    decoder_view, lemma_read_after_write, lemma_written_decoder_view, written_by, zlib_gives_back,
};
use crate::write::{deflate_filtered_result_of, deflate_filtered_with_settings, filtered_image_data};
use crate::zlib::{crc32, crc32_update, decompress_slice, inflate_result, ZLIB_WINDOW_BITS};
use crate::{
    be_u32, be_u64, ceil_div, div_round_up, read_be_u32, read_be_u64, Image, ImageModel, IDAT, IEND,
    IHDR, PLTE, PNG_SIGNATURE, tRNS,
};

pub mod defiler_by_row;

verus! {

/// The bytes of an optional vector.
pub open spec fn opt_bytes(o: Option<Vec<u8>>) -> Option<Seq<u8>> {
    match o {
        Some(v) => Some(v@),
        None => None,
    }
}

/// The image data that `defilter` rebuilds from the filtered data `f` of
/// `height` scanlines: none for an image without scanlines.
pub open spec fn defilter_result(f: Seq<u8>, height: u32, bpp: nat, bpr: nat) -> Option<Seq<u8>> {
    if height == 0 {
        None
    } else {
        unfilter_rows(f, zeros(bpr), bpp, bpr)
    }
}

/// Defiltering undoes filtering, whatever filter type each scanline was
/// filtered with: `height` scanlines of `raw`, each filtered under its type
/// against the scanline above it (a zero scanline above the first), fill
/// `(bpr + 1) * height` bytes and are rebuilt into `raw`.
pub proof fn lemma_defilter_undoes_filters(
    raw: Seq<u8>,
    types: Seq<u8>,
    height: u32,
    bpp: nat,
    bpr: nat,
)
    requires
        height >= 1,
        bpr >= 1,
        types.len() == height,
        raw.len() == height * bpr,
        forall|i: int| 0 <= i < types.len() ==> #[trigger] types[i] <= FILTER_PAETH,
    ensures
        filter_rows_with(raw, zeros(bpr), types, bpp, bpr).len() == (bpr + 1) * height,
        defilter_result(filter_rows_with(raw, zeros(bpr), types, bpp, bpr), height, bpp, bpr)
            == Some(raw),
{
    lemma_unfilter_filter_rows_with(raw, zeros(bpr), types, bpp, bpr);
    assert(height * (bpr + 1) == (bpr + 1) * height) by (nonlinear_arith);
}

proof fn lemma_row_in_bounds(r: int, h: int, w: int)
    requires
        0 <= r < h,
        w >= 0,
    ensures
        r * w + w <= h * w,
        0 <= r * w,
{
    assert(r * w + w == (r + 1) * w) by (nonlinear_arith);
    assert((r + 1) * w <= h * w) by (nonlinear_arith)
        requires
            r + 1 <= h,
            w >= 0,
    ;
    assert(0 <= r * w) by (nonlinear_arith)
        requires
            0 <= r,
            w >= 0,
    ;
}

/// Rebuilds the scanlines of an image from its filtered data: `height`
/// scanlines of `bpr` bytes, each filtered one preceded by its filter type.
/// `None` where a filter type is unknown or the image has no scanline.
pub fn defilter(filter_image: &[u8], img: &Image, bpp: usize, bpr: usize) -> (res: Option<Vec<u8>>)
    requires
        img.height == 0 || (1 <= bpp <= bpr && filter_image@.len() == (bpr + 1) * img.height),
    ensures
        opt_bytes(res) == defilter_result(filter_image@, img.height, bpp as nat, bpr as nat),
{
    let height = img.height;
    if height == 0 {
        return None;
    }
    let ghost f = filter_image@;
    let ghost w = (bpr + 1) as int;
    let mut buf: Vec<u8> = Vec::new();
    let mut prev: Vec<u8> = vec![0u8; bpr];
    assert(prev@ =~= zeros(bpr as nat));
    assert(f.subrange(0, f.len() as int) =~= f);
    let mut pos: usize = 0;
    let mut r: u32 = 0;
    while r < height
        invariant
            1 <= bpp <= bpr,
            f == filter_image@,
            w == bpr + 1,
            f.len() == w * height,
            r <= height,
            pos == r * w,
            pos <= f.len(),
            prev@.len() == bpr,
            r == 0 ==> prev@ == zeros(bpr as nat),
            unfilter_rows(f, zeros(bpr as nat), bpp as nat, bpr as nat) == match unfilter_rows(
                f.subrange(pos as int, f.len() as int),
                prev@,
                bpp as nat,
                bpr as nat,
            ) {
                Some(rest) => Some(buf@ + rest),
                None => None,
            },
        decreases height - r,
    {
        proof {
            lemma_row_in_bounds(r as int, height as int, w);
            assert(w * height == height * w) by (nonlinear_arith);
            assert((r as int + 1) * w == r as int * w + w) by (nonlinear_arith);
        }
        let filter = filter_image[pos];
        let src = &filter_image[pos + 1..pos + 1 + bpr];
        let ghost rest = f.subrange(pos as int, f.len() as int);
        proof {
            lemma_unfilter_rows_unfold(rest, prev@, bpp as nat, bpr as nat);
        }
        assert(rest[0] == filter);
        assert(rest.subrange(1, w) =~= src@);
        assert(src@.take(bpr as int) =~= src@);
        assert(prev@.take(bpr as int) =~= prev@);
        let mut dst: Vec<u8> = vec![0u8; bpr];
        if r == 0 {
            match filter {
                0 => defiler_by_row::none(src, dst.as_mut_slice(), bpr),
                1 => defiler_by_row::sub(src, dst.as_mut_slice(), bpp, bpr),
                2 => defiler_by_row::none(src, dst.as_mut_slice(), bpr),
                3 => defiler_by_row::avg_for_line0(src, dst.as_mut_slice(), bpp, bpr),
                4 => defiler_by_row::sub(src, dst.as_mut_slice(), bpp, bpr),
                _ => return None,
            }
        } else {
            match filter {
                0 => defiler_by_row::none(src, dst.as_mut_slice(), bpr),
                1 => defiler_by_row::sub(src, dst.as_mut_slice(), bpp, bpr),
                2 => defiler_by_row::up(src, prev.as_slice(), dst.as_mut_slice(), bpr),
                3 => defiler_by_row::avg(src, prev.as_slice(), dst.as_mut_slice(), bpp, bpr),
                4 => defiler_by_row::paeth(src, prev.as_slice(), dst.as_mut_slice(), bpp, bpr),
                _ => return None,
            }
        }
        proof {
            lemma_recon_none(src@, prev@, bpr as nat, bpp as nat);
            lemma_recon_sub(src@, prev@, bpr as nat, bpp as nat);
            assert(dst@ =~= dst@.take(bpr as int));
            assert(dst@ == recon_row(filter, src@, prev@, bpp as nat));
            assert(rest.subrange(w, rest.len() as int) =~= f.subrange(
                pos + w,
                f.len() as int,
            ));
        }
        let ghost old_buf = buf@;
        buf.extend_from_slice(dst.as_slice());
        assert(buf@ =~= old_buf + dst@);
        assert(old_buf + (dst@ + Seq::<u8>::empty()) =~= buf@);
        prev = dst;
        pos = pos + 1 + bpr;
        r = r + 1;
        proof {
            assert forall|x: Seq<u8>| old_buf + (dst@ + x) =~= buf@ + x by {}
        }
    }
    assert(pos == f.len()) by {
        assert(w * height == height * w) by (nonlinear_arith);
    }
    assert(f.subrange(pos as int, f.len() as int) =~= Seq::<u8>::empty());
    proof {
        lemma_unfilter_rows_unfold(Seq::<u8>::empty(), prev@, bpp as nat, bpr as nat);
    }
    assert(buf@ + Seq::<u8>::empty() =~= buf@);
    Some(buf)
}

/// The channels of a pixel of color type `color_type` at `bit_depth` bits per
/// sample (a palette pixel counts the four of its RGBA entry); `None` for a
/// combination that the format does not allow.
pub open spec fn channel_of(color_type: u8, bit_depth: u8) -> Option<u8> {
    let low = bit_depth == 1 || bit_depth == 2 || bit_depth == 4 || bit_depth == 8;
    if color_type == 0 {
        if low || bit_depth == 16 {
            Some(1)
        } else {
            None
        }
    } else if color_type == 2 {
        if bit_depth == 8 || bit_depth == 16 {
            Some(3)
        } else {
            None
        }
    } else if color_type == 3 {
        if low {
            Some(4)
        } else {
            None
        }
    } else if color_type == 4 {
        if bit_depth == 8 || bit_depth == 16 {
            Some(2)
        } else {
            None
        }
    } else if color_type == 6 {
        if bit_depth == 8 || bit_depth == 16 {
            Some(4)
        } else {
            None
        }
    } else {
        None
    }
}

/// The combinations of color type and bit depth that the PNG format allows:
/// gray at 1, 2, 4, 8 or 16 bits; palette indices at 1, 2, 4 or 8 bits; RGB,
/// gray with alpha and RGBA at 8 or 16 bits.
pub open spec fn png_allows(color_type: u8, bit_depth: u8) -> bool {
    let low = bit_depth == 1 || bit_depth == 2 || bit_depth == 4 || bit_depth == 8;
    ||| color_type == 0 && (low || bit_depth == 16)
    ||| color_type == 3 && low
    ||| (color_type == 2 || color_type == 4 || color_type == 6) && (bit_depth == 8 || bit_depth
        == 16)
}

/// The decoder accepts exactly the combinations of color type and bit depth
/// that PNG allows, and counts the channels of each: gray 1, gray with alpha
/// 2, RGB 3, RGBA and palette (as RGBA entries) 4.
pub proof fn lemma_channel_of_png(color_type: u8, bit_depth: u8)
    ensures
        channel_of(color_type, bit_depth) is Some <==> png_allows(color_type, bit_depth),
        png_allows(color_type, bit_depth) ==> channel_of(color_type, bit_depth)->0 == (
        if color_type == 0 {
            1u8
        } else if color_type == 4 {
            2u8
        } else if color_type == 2 {
            3u8
        } else {
            4u8
        }),
{
}

/// A pixel is as many bytes as its bits fill, rounded up to a whole byte:
/// its samples times the bit depth, over 8. This is how far back the filters
/// look (two bytes a sample at 16 bits).
pub proof fn lemma_pixel_bytes(color_type: u8, bit_depth: u8)
    requires
        png_allows(color_type, bit_depth),
    ensures
        ({
            let ch = channel_of(color_type, bit_depth)->0;
            bytes_per_pixel(color_type, ch, bit_depth) == ceil_div(
                samples_of(color_type, ch) * bit_depth,
                8,
            )
        }),
{
    let ch = channel_of(color_type, bit_depth)->0;
    let n = samples_of(color_type, ch);
    if bit_depth == 16 {
        vstd::arithmetic::div_mod::lemma_mod_multiples_basic(2 * n, 8);
        vstd::arithmetic::div_mod::lemma_div_multiples_vanish(2 * n, 8);
        assert(n * 16 == (2 * n) * 8 && 8 * (2 * n) == (2 * n) * 8);
    } else if bit_depth == 8 {
        vstd::arithmetic::div_mod::lemma_mod_multiples_basic(n, 8);
        vstd::arithmetic::div_mod::lemma_div_multiples_vanish(n, 8);
        assert(8 * n == n * 8);
    } else {
        assert(n == 1);
    }
}

/// The channels of a pixel of the given color type and bit depth, if the
/// format allows the combination.
pub fn get_channel(color_type: u8, bit_depth: u8) -> (r: Option<u8>)
    ensures
        r == channel_of(color_type, bit_depth),
{
    match color_type {
        0 => match bit_depth {
            1 | 2 | 4 | 8 | 16 => return Some(1),
            _ => return None,
        },
        2 => match bit_depth {
            8 | 16 => return Some(3),
            _ => return None,
        },
        3 => match bit_depth {
            1 | 2 | 4 | 8 => return Some(4),
            _ => return None,
        },
        4 => match bit_depth {
            8 | 16 => return Some(2),
            _ => return None,
        },
        6 => match bit_depth {
            8 | 16 => return Some(4),
            _ => return None,
        },
        _ => return None,
    }
}

/// The filtered image data inflated from the zlib stream `idat`: present only
/// where inflating into `size` bytes succeeds and fills them all.
pub open spec fn inflated(idat: Seq<u8>, size: usize) -> Option<Seq<u8>> {
    let r = inflate_result(idat, ZLIB_WINDOW_BITS, size);
    if r.0.len() != size || r.1 != 0 {
        None
    } else {
        Some(r.0)
    }
}

/// Inflates the image data, `height` scanlines of `bpr + 1` bytes.
fn decompress_idat(idat: &[u8], img: &Image, bpr: usize) -> (res: Option<Vec<u8>>)
    requires
        bpr + 1 <= usize::MAX,
        (bpr + 1) * img.height <= usize::MAX,
    ensures
        opt_bytes(res) == inflated(idat@, ((bpr + 1) * img.height) as usize),
        forall|f: Seq<u8>|
            #[trigger] deflate_filtered_with_settings(f).1 == 0 && deflate_filtered_with_settings(
                f,
            ).0 == idat@ && f.len() == (bpr + 1) * img.height ==> inflated(
                idat@,
                ((bpr + 1) * img.height) as usize,
            ) == Some(f),
{
    let size: usize = (bpr + 1) * img.height as usize;
    let (data, return_code) = decompress_slice(size, idat, ZLIB_WINDOW_BITS);
    if data.len() != size || return_code != 0 {
        return None;
    }
    return Some(data);
}

/// The chunk at `pos` of `d`: its type, its data and the position after it;
/// `None` where `d` ends inside it or its CRC does not match.
#[verifier::opaque]
pub open spec fn chunk_at(d: Seq<u8>, pos: int) -> Option<(u32, Seq<u8>, int)> {
    if pos < 0 || pos + 8 > d.len() {
        None
    } else {
        let len = be_u32(d.subrange(pos, pos + 4));
        let ty = be_u32(d.subrange(pos + 4, pos + 8));
        let end = pos + 8 + len;
        if end + 4 > d.len() {
            None
        } else if be_u32(d.subrange(end, end + 4)) != crc32_update(
            crc32_update(0, d.subrange(pos + 4, pos + 8)),
            d.subrange(pos + 8, end),
        ) {
            None
        } else {
            Some((ty, d.subrange(pos + 8, end), end + 4))
        }
    }
}

/// What the chunks seen so far have given.
pub struct ScanState {
    pub idat: Seq<u8>,
    pub plte: Seq<u8>,
    pub trns: Seq<u8>,
    pub seen_idat: bool,
}

pub open spec fn empty_scan() -> ScanState {
    ScanState { idat: Seq::empty(), plte: Seq::empty(), trns: Seq::empty(), seen_idat: false }
}

/// Reads the chunks of `d` from `pos` on up to the end chunk: the data of the
/// image data chunks in order, and of the palette and transparency chunks.
/// `None` where a chunk cannot be read, a palette or transparency chunk with
/// data comes after another one with data, or the end chunk comes before any
/// image data chunk. (A chunk always ends after its start and within `d`; the
/// spec says so for the recursion to be seen to end.)
pub open spec fn scan_chunks(d: Seq<u8>, pos: int, st: ScanState) -> Option<ScanState>
    decreases d.len() - pos,
{
    match chunk_at(d, pos) {
        None => None,
        Some((ty, data, next)) => {
            if next <= pos || next > d.len() {
                None
            } else if ty == IDAT {
                scan_chunks(d, next, ScanState { idat: st.idat + data, seen_idat: true, ..st })
            } else if ty == PLTE {
                if st.plte.len() != 0 {
                    None
                } else {
                    scan_chunks(d, next, ScanState { plte: data, ..st })
                }
            } else if ty == tRNS {
                if st.trns.len() != 0 {
                    None
                } else {
                    scan_chunks(d, next, ScanState { trns: data, ..st })
                }
            } else if ty == IEND {
                if !st.seen_idat {
                    None
                } else {
                    Some(st)
                }
            } else {
                scan_chunks(d, next, st)
            }
        },
    }
}

/// One chunk of the stream.
struct Chunk {
    chunk_type: u32,
    data: Vec<u8>,
}

impl Chunk {
    /// Reads the chunk at `pos` of `data` and checks its CRC; returns it with
    /// the position after it.
    fn parse_chunk(data: &[u8], pos: usize) -> (res: Option<(Chunk, usize)>)
        requires
            pos <= data@.len(),
        ensures
            match res {
                Some((c, next)) => chunk_at(data@, pos as int) == Some(
                    (c.chunk_type, c.data@, next as int),
                ) && pos < next <= data@.len(),
                None => chunk_at(data@, pos as int) is None,
            },
    {
        reveal(chunk_at);
        if data.len() - pos < 8 {
            return None;
        }
        let chunk_len: u32 = read_be_u32(&data[pos..pos + 4]);
        let chunk_type: u32 = read_be_u32(&data[pos + 4..pos + 8]);
        let len = chunk_len as usize;
        if data.len() - pos - 8 < len || data.len() - pos - 8 - len < 4 {
            return None;
        }
        let end = pos + 8 + len;
        let chunk_data = &data[pos + 8..end];
        let crc: u32 = crc32(crc32(0, &data[pos + 4..pos + 8]), chunk_data);
        if crc != read_be_u32(&data[end..end + 4]) {
            return None;
        }
        let chunk = Chunk { chunk_type, data: vstd::slice::slice_to_vec(chunk_data) };
        return Some((chunk, end + 4));
    }
}

/// The chunks of the stream that the decoder keeps.
struct Parsing {
    idat: Vec<u8>,
    plte: Vec<u8>,
    trns: Vec<u8>,
}

impl Parsing {
    /// Reads the chunks from `pos` on up to the end chunk (see `scan_chunks`).
    fn parse(data: &[u8], pos: usize) -> (res: Option<Parsing>)
        requires
            pos <= data@.len(),
        ensures
            match res {
                Some(p) => scan_chunks(data@, pos as int, empty_scan()) matches Some(st) && st.idat
                    == p.idat@ && st.plte == p.plte@ && st.trns == p.trns@,
                None => scan_chunks(data@, pos as int, empty_scan()) is None,
            },
    {
        let mut parser = Parsing { idat: Vec::new(), plte: Vec::new(), trns: Vec::new() };
        let mut seen_idat = false;
        let mut cur = pos;
        loop
            invariant
                cur <= data@.len(),
                scan_chunks(data@, pos as int, empty_scan()) == scan_chunks(
                    data@,
                    cur as int,
                    ScanState {
                        idat: parser.idat@,
                        plte: parser.plte@,
                        trns: parser.trns@,
                        seen_idat,
                    },
                ),
            decreases data@.len() - cur,
        {
            let ghost st = ScanState {
                idat: parser.idat@,
                plte: parser.plte@,
                trns: parser.trns@,
                seen_idat,
            };
            let (chunk, next) = match Chunk::parse_chunk(data, cur) {
                Some(c) => c,
                None => return None,
            };
            let chunk_type = chunk.chunk_type;
            if chunk_type == IDAT {
                let mut chunk_data = chunk.data;
                parser.idat.append(&mut chunk_data);
                seen_idat = true;
            } else if chunk_type == PLTE {
                if !parser.plte.is_empty() {
                    return None;
                }
                parser.plte = chunk.data;
            } else if chunk_type == tRNS {
                if !parser.trns.is_empty() {
                    return None;
                }
                parser.trns = chunk.data;
            } else if chunk_type == IEND {
                if !seen_idat {
                    return None;
                }
                return Some(parser);
            }
            cur = next;
        }
    }
}

/// Palette entry `i` as RGBA: its three bytes in `plte`, and its alpha from
/// `trns` where `trns` has one, else opaque.
pub open spec fn palette_entry(plte: Seq<u8>, trns: Seq<u8>, i: int) -> Seq<u8> {
    seq![
        plte[3 * i],
        plte[3 * i + 1],
        plte[3 * i + 2],
        if i < trns.len() {
            trns[i]
        } else {
            0xFF
        },
    ]
}

/// The first `n` palette entries as RGBA.
pub open spec fn rgba_entries(plte: Seq<u8>, trns: Seq<u8>, n: nat) -> Seq<u8>
    decreases n,
{
    if n == 0 {
        Seq::empty()
    } else {
        rgba_entries(plte, trns, (n - 1) as nat) + palette_entry(plte, trns, n - 1)
    }
}

proof fn lemma_rgba_entries_bytes(plte: Seq<u8>, trns: Seq<u8>, n: nat)
    requires
        3 * n <= plte.len(),
    ensures
        rgba_entries(plte, trns, n).len() == 4 * n,
        forall|j: int|
            0 <= j < 4 * n ==> #[trigger] rgba_entries(plte, trns, n)[j] == (if j % 4 == 3 {
                if j / 4 < trns.len() {
                    trns[j / 4]
                } else {
                    255u8
                }
            } else {
                plte[3 * (j / 4) + j % 4]
            }),
    decreases n,
{
    if n > 0 {
        lemma_rgba_entries_bytes(plte, trns, (n - 1) as nat);
        let prev = rgba_entries(plte, trns, (n - 1) as nat);
        let e = palette_entry(plte, trns, n - 1);
        assert forall|j: int| 0 <= j < 4 * n implies #[trigger] rgba_entries(plte, trns, n)[j] == (
        if j % 4 == 3 {
            if j / 4 < trns.len() {
                trns[j / 4]
            } else {
                255u8
            }
        } else {
            plte[3 * (j / 4) + j % 4]
        }) by {
            if j >= 4 * (n - 1) {
                let m = j - 4 * (n - 1);
                assert(j / 4 == n - 1 && j % 4 == m) by (nonlinear_arith)
                    requires
                        m == j - 4 * (n - 1),
                        0 <= m < 4,
                ;
                assert(rgba_entries(plte, trns, n)[j] == e[m]);
            } else {
                assert(rgba_entries(plte, trns, n)[j] == prev[j]);
            }
        }
    }
}

/// Every byte of the RGBA palette, as the palette and transparency chunks
/// give it: entry `i` (one for each whole color of the palette chunk) holds
/// the red, green and blue of color `i` of the palette chunk, and as alpha
/// byte `i` of the transparency chunk where it has one, else 255 (opaque),
/// also where there is no transparency chunk at all.
pub proof fn lemma_rgba_palette_bytes(plte: Seq<u8>, trns: Seq<u8>)
    ensures
        rgba_palette(plte, trns).len() == 4 * (plte.len() / 3),
        forall|j: int|
            0 <= j < rgba_palette(plte, trns).len() ==> #[trigger] rgba_palette(plte, trns)[j] == (
            if j % 4 == 3 {
                if j / 4 < trns.len() {
                    trns[j / 4]
                } else {
                    255u8
                }
            } else {
                plte[3 * (j / 4) + j % 4]
            }),
{
    lemma_rgba_entries_bytes(plte, trns, plte.len() / 3);
}

/// The RGBA palette of the palette chunk data `plte` (three bytes an entry, a
/// partial entry ignored) and the transparency chunk data `trns`.
pub open spec fn rgba_palette(plte: Seq<u8>, trns: Seq<u8>) -> Seq<u8> {
    rgba_entries(plte, trns, plte.len() / 3)
}

fn make_palette(plte: &[u8], trns: &[u8]) -> (palette: Vec<u8>)
    ensures
        palette@ == rgba_palette(plte@, trns@),
{
    let entries: usize = plte.len() / 3;
    let mut palette: Vec<u8> = Vec::new();
    for i in 0..entries
        invariant
            entries == plte@.len() / 3,
            palette@ == rgba_entries(plte@, trns@, i as nat),
    {
        let alpha: u8 = if !trns.is_empty() && i < trns.len() {
            trns[i]
        } else {
            0xFF
        };
        assert(i * 3 + 3 <= plte@.len()) by (nonlinear_arith)
            requires
                i < entries,
                entries == plte@.len() / 3,
        ;
        assert(plte@.len() == plte.len());
        palette.push(plte[i * 3]);
        palette.push(plte[i * 3 + 1]);
        palette.push(plte[i * 3 + 2]);
        palette.push(alpha);
        assert(palette@ =~= rgba_entries(plte@, trns@, (i + 1) as nat));
    }
    palette
}

/// An optional image's value.
pub open spec fn opt_image(o: Option<Image>) -> Option<ImageModel> {
    match o {
        Some(img) => Some(img@),
        None => None,
    }
}

/// The CRC of the header chunk, over its type and its data.
pub open spec fn header_crc(d: Seq<u8>) -> u32 {
    crc32_update(crc32_update(0, d.subrange(12, 16)), d.subrange(16, 29))
}

/// `d` opens with the PNG signature and a well-formed header chunk.
pub open spec fn header_ok(d: Seq<u8>) -> bool {
    &&& d.len() >= 33
    &&& be_u64(d.take(8)) == PNG_SIGNATURE
    &&& be_u32(d.subrange(8, 12)) == 13
    &&& be_u32(d.subrange(12, 16)) == IHDR
    &&& be_u32(d.subrange(29, 33)) == header_crc(d)
}

/// The samples that a scanline holds per pixel: one palette index for color
/// type 3, else one per channel.
pub open spec fn samples_of(color_type: u8, channels: u8) -> int {
    if color_type == 3 {
        1
    } else {
        channels as int
    }
}

/// The bytes of a complete pixel, at least one, that the filters look back.
pub open spec fn bytes_per_pixel(color_type: u8, channels: u8, bit_depth: u8) -> int {
    if color_type == 3 {
        1
    } else {
        channels * (if bit_depth == 16 {
            2int
        } else {
            1int
        })
    }
}

/// The bytes of a scanline of `width` pixels.
pub open spec fn bytes_per_row(width: u32, bit_depth: u8, samples: int) -> int {
    ceil_div(width * bit_depth * samples, 8)
}

/// The image that `imread` decodes from the bytes `d` of a PNG stream.
///
/// `None` where the signature or the header chunk is wrong, the color type
/// and bit depth do not go together, compression, filter or interlace method
/// is not 0, the scanlines are empty (width 0) or their sizes do not fit in a
/// `usize`, the chunks up to the end chunk cannot be read (see `scan_chunks`),
/// the image data does not inflate to exactly `height` filtered scanlines, a
/// scanline has an unknown filter type, the image has no scanline, or a
/// palette image has no palette data.
pub open spec fn spec_imread(d: Seq<u8>) -> Option<ImageModel> {
    if !header_ok(d) {
        None
    } else {
        let width = be_u32(d.subrange(16, 20));
        let height = be_u32(d.subrange(20, 24));
        let bit_depth = d[24];
        let color_type = d[25];
        match channel_of(color_type, bit_depth) {
            None => None,
            Some(channels) => {
                let samples = samples_of(color_type, channels);
                let bpp = bytes_per_pixel(color_type, channels, bit_depth);
                let bpr = bytes_per_row(width, bit_depth, samples);
                if d[26] != 0 || d[27] != 0 || d[28] != 0 {
                    None
                } else if width * bit_depth * samples > usize::MAX || (bpr + 1) * height
                    > usize::MAX || bpr == 0 {
                    None
                } else {
                    decoded_image(
                        d,
                        width,
                        height,
                        bit_depth,
                        color_type,
                        channels,
                        bpp as nat,
                        bpr as nat,
                    )
                }
            },
        }
    }
}

/// The image decoded from the chunks of `d` after the header, for the header
/// fields given, with `bpp` bytes a pixel and `bpr` bytes a scanline.
pub open spec fn decoded_image(
    d: Seq<u8>,
    width: u32,
    height: u32,
    bit_depth: u8,
    color_type: u8,
    channels: u8,
    bpp: nat,
    bpr: nat,
) -> Option<ImageModel> {
    match scan_chunks(d, 33, empty_scan()) {
        None => None,
        Some(st) => match inflated(st.idat, ((bpr + 1) * height) as usize) {
            None => None,
            Some(f) => match defilter_result(f, height, bpp, bpr) {
                None => None,
                Some(buffer) => {
                    if color_type == 3 && st.plte.len() == 0 {
                        None
                    } else {
                        Some(
                            ImageModel {
                                buffer,
                                width,
                                height,
                                channels,
                                bit_depth,
                                palette: if color_type == 3 {
                                    rgba_palette(st.plte, st.trns)
                                } else {
                                    Seq::empty()
                                },
                            },
                        )
                    }
                },
            },
        },
    }
}

fn decode_image(
    data: &[u8],
    width: u32,
    height: u32,
    bit_depth: u8,
    color_type: u8,
    channels: u8,
    bpp: usize,
    bpr: usize,
) -> (res: Option<Image>)
    requires
        data@.len() >= 33,
        1 <= bpp <= bpr,
        bpr + 1 <= usize::MAX,
        (bpr + 1) * height <= usize::MAX,
    ensures
        opt_image(res) == decoded_image(
            data@,
            width,
            height,
            bit_depth,
            color_type,
            channels,
            bpp as nat,
            bpr as nat,
        ),
        scan_chunks(data@, 33, empty_scan()) matches Some(st) ==> forall|f: Seq<u8>|
            #[trigger] deflate_filtered_with_settings(f).1 == 0 && deflate_filtered_with_settings(
                f,
            ).0 == st.idat && f.len() == (bpr + 1) * height ==> inflated(
                st.idat,
                ((bpr + 1) * height) as usize,
            ) == Some(f),
{
    let parsed_data: Parsing = match Parsing::parse(data, 33) {
        Some(p) => p,
        None => return None,
    };
    let mut img = Image {
        buffer: Vec::new(),
        width,
        height,
        channels,
        bit_depth,
        palette: Vec::new(),
    };
    let filter_image: Vec<u8> = match decompress_idat(parsed_data.idat.as_slice(), &img, bpr) {
        Some(f) => f,
        None => return None,
    };
    img.buffer = match defilter(filter_image.as_slice(), &img, bpp, bpr) {
        Some(b) => b,
        None => return None,
    };

    if color_type == 3 {
        if parsed_data.plte.is_empty() {
            return None;
        }
        img.palette = make_palette(parsed_data.plte.as_slice(), parsed_data.trns.as_slice());
    }
    return Some(img);
}

/// The bytes of a scanline of `width` pixels of `samples` samples of
/// `bit_depth` bits; `None` where the bits of a scanline do not fit in a
/// `usize`.
fn row_bytes(width: u32, bit_depth: u8, samples: usize) -> (r: Option<usize>)
    requires
        samples >= 1,
    ensures
        match r {
            Some(bpr) => width * bit_depth * samples <= usize::MAX && bpr == bytes_per_row(
                width,
                bit_depth,
                samples as int,
            ),
            None => width * bit_depth * samples > usize::MAX,
        },
{
    let bits: usize = match (width as usize).checked_mul(bit_depth as usize) {
        Some(b) => match b.checked_mul(samples) {
            Some(b) => b,
            None => return None,
        },
        None => {
            assert(width * bit_depth * samples > usize::MAX) by (nonlinear_arith)
                requires
                    width * bit_depth > usize::MAX,
                    samples >= 1,
            ;
            return None;
        },
    };
    Some(div_round_up(bits, 8))
}

/// A scanline of at least one byte holds a complete pixel.
proof fn lemma_pixel_fits_row(width: u32, bit_depth: u8, color_type: u8, channels: u8)
    requires
        channel_of(color_type, bit_depth) == Some(channels),
        bytes_per_row(width, bit_depth, samples_of(color_type, channels)) >= 1,
    ensures
        1 <= bytes_per_pixel(color_type, channels, bit_depth) <= bytes_per_row(
            width,
            bit_depth,
            samples_of(color_type, channels),
        ),
{
    let samples = samples_of(color_type, channels);
    let bits = width * bit_depth * samples;
    assert(samples >= 1);
    assert(bit_depth >= 1);
    if width == 0 {
        assert(bits == 0) by (nonlinear_arith)
            requires
                width == 0,
                bits == width * bit_depth * samples,
        ;
    }
    assert(bits >= bit_depth * samples) by (nonlinear_arith)
        requires
            width >= 1,
            bits == width * bit_depth * samples,
            bit_depth * samples >= 0,
    ;
    if bit_depth == 16 {
        assert(bits >= 16 * samples);
    } else if bit_depth == 8 {
        assert(bits >= 8 * samples);
    }
}

/// Decodes the bytes of a PNG stream into an image (see `spec_imread`).
///
/// Reading back what was written: for a stream that `Image::write` made of an
/// image that reads back as written (see `written_by`), the result is that
/// image.
pub fn imread(data: &[u8]) -> (res: Option<Image>)
    ensures
        opt_image(res) == spec_imread(data@),
        forall|img: ImageModel| #[trigger] written_by(img, data@) ==> opt_image(res) == Some(img),
{
    proof {
        assert forall|img: ImageModel| #[trigger] written_by(img, data@) implies decoder_view(
            data@,
            img,
        ) by {
            lemma_written_decoder_view(img, data@);
        }
    }
    if data.len() < 33 {
        return None;
    }
    let mut crc: u32 = crc32(0, &data[12..16]);
    crc = crc32(crc, &data[16..29]);

    if read_be_u64(&data[0..8]) != PNG_SIGNATURE || read_be_u32(&data[8..12]) != 13
        || read_be_u32(&data[12..16]) != IHDR || read_be_u32(&data[29..33]) != crc {
        return None;
    }
    assert(data@.subrange(0, 8) =~= data@.take(8));

    let width = read_be_u32(&data[16..20]);
    let height = read_be_u32(&data[20..24]);
    let bit_depth: u8 = data[24];
    let color_type: u8 = data[25];
    let channels: u8 = match get_channel(color_type, bit_depth) {
        Some(c) => c,
        None => return None,
    };
    if data[26] != 0 || data[27] != 0 || data[28] != 0 {
        return None;
    }

    let bpp: usize = if color_type == 3 {
        1
    } else if bit_depth == 16 {
        channels as usize * 2
    } else {
        channels as usize
    };
    let samples: usize = if color_type == 3 {
        1
    } else {
        channels as usize
    };
    let bpr: usize = match row_bytes(width, bit_depth, samples) {
        Some(b) => b,
        None => return None,
    };
    if bpr == 0 {
        return None;
    }
    if (bpr + 1).checked_mul(height as usize).is_none() {
        return None;
    }
    proof {
        lemma_pixel_fits_row(width, bit_depth, color_type, channels);
    }

    let res = decode_image(data, width, height, bit_depth, color_type, channels, bpp, bpr);
    proof {
        assert forall|img: ImageModel| #[trigger] written_by(img, data@) implies opt_image(res)
            == Some(img) by {
            let f = filtered_image_data(img, img.palette.len() != 0);
            assert(decoder_view(data@, img));
            assert(inflated(
                deflate_filtered_result_of(f),
                ((bpr + 1) * height) as usize,
            ) == Some(f));
            assert(zlib_gives_back(img));
            lemma_read_after_write(img, data@);
        }
    }
    res
}

} // verus!

//! Reading back what was written: the stream that `Image::write` makes of an
//! image decodes, under `imread`, to the same image.
use vstd::prelude::*;

use crate::filter::{
    filter_bytes, filter_rows, lemma_filter_rows_len, lemma_recon_filter_row, lemma_recon_none,
    lemma_recon_sub, lemma_unfilter_filter_rows, lemma_unfilter_rows_unfold, recon_row,
    unfilter_rows, zeros, FILTER_NONE, FILTER_SUB,
};
use crate::read::{
    bytes_per_pixel, bytes_per_row, channel_of, chunk_at, defilter_result, empty_scan, header_ok,
    decoded_image, inflated, palette_entry, png_allows, rgba_entries, rgba_palette, samples_of, scan_chunks, spec_imread,
    ScanState,
};
use crate::write::{
    deflate_filtered_with_settings, lemma_chunk_bytes_len, chunk_bytes, color_type_of, deflate_filtered_result_of, filtered_image_data, header_accepted,
    idat_data, ihdr_data, write_requires, palette_chunks, plte_entries, row_result, scanlines_fit, signature_bytes, spec_write,
    trns_entries, write_bpp, write_samples,
};
use crate::zlib::{inflate_result, ZLIB_WINDOW_BITS};
use crate::{be_u32, be_u64, lemma_be_u32_of_bytes, u32_be_bytes, ImageModel, IDAT, IEND, IHDR, PLTE, tRNS};

verus! {

proof fn lemma_palette_split_prefix(p: Seq<u8>, m: nat, n: nat)
    requires
        m <= n,
        4 * n <= p.len(),
    ensures
        plte_entries(p, n).len() == 3 * n,
        trns_entries(p, n).len() == n,
        plte_entries(p, n).take(3 * m as int) == plte_entries(p, m),
        trns_entries(p, n).take(m as int) == trns_entries(p, m),
    decreases n,
{
    if n > 0 {
        if m == n {
            lemma_palette_split_prefix(p, (m - 1) as nat, (n - 1) as nat);
            assert(plte_entries(p, n).take(3 * m as int) =~= plte_entries(p, n));
            assert(trns_entries(p, n).take(m as int) =~= trns_entries(p, n));
        } else {
            lemma_palette_split_prefix(p, m, (n - 1) as nat);
            assert(plte_entries(p, n).take(3 * m as int) =~= plte_entries(p, (n - 1) as nat).take(3 * m as int));
            assert(trns_entries(p, n).take(m as int) =~= trns_entries(p, (n - 1) as nat).take(
                m as int,
            ));
        }
    }
}

proof fn lemma_rgba_entries_rejoin(p: Seq<u8>, m: nat, n: nat)
    requires
        m <= n,
        4 * n <= p.len(),
    ensures
        rgba_entries(plte_entries(p, n), trns_entries(p, n), m) == p.take(4 * m as int),
    decreases m,
{
    let plte = plte_entries(p, n);
    let trns = trns_entries(p, n);
    if m == 0 {
        assert(p.take(0) =~= Seq::<u8>::empty());
    } else {
        lemma_rgba_entries_rejoin(p, (m - 1) as nat, n);
        lemma_palette_split_prefix(p, m, n);
        let i = m - 1;
        lemma_palette_split_prefix(p, i as nat, i as nat);
        assert(plte_entries(p, m)[3 * i] == p[4 * i]);
        assert(plte_entries(p, m)[3 * i + 1] == p[4 * i + 1]);
        assert(plte_entries(p, m)[3 * i + 2] == p[4 * i + 2]);
        assert(trns_entries(p, m)[i] == p[4 * i + 3]);
        assert(plte[3 * i] == plte_entries(p, m)[3 * i]);
        assert(plte[3 * i + 1] == plte_entries(p, m)[3 * i + 1]);
        assert(plte[3 * i + 2] == plte_entries(p, m)[3 * i + 2]);
        assert(trns[i] == trns_entries(p, m)[i]);
        assert(palette_entry(plte, trns, i) =~= p.subrange(4 * i, 4 * m as int));
        assert(p.take(4 * i) + p.subrange(4 * i, 4 * m as int) =~= p.take(4 * m as int));
    }
}

/// Splitting an RGBA palette of whole entries into palette and transparency
/// chunk data and joining them again gives the palette back.
pub proof fn lemma_palette_round_trip(p: Seq<u8>)
    requires
        p.len() % 4 == 0,
    ensures
        rgba_palette(plte_entries(p, p.len() / 4), trns_entries(p, p.len() / 4)) == p,
{
    let n = p.len() / 4;
    lemma_palette_split_prefix(p, n, n);
    assert(plte_entries(p, n).len() / 3 == n);
    lemma_rgba_entries_rejoin(p, n, n);
    assert(p.take(4 * n as int) =~= p);
}

/// A chunk reads back as written: where the bytes of `d` at `pos` are the
/// chunk that the encoder writes for the type `ty` and the data `data` (its
/// length, type, data and CRC), the decoder reads at `pos` a chunk of type
/// `ty` with data `data`, and goes on right after it.
pub proof fn lemma_chunk_at_written(d: Seq<u8>, pos: int, ty: u32, data: Seq<u8>)
    requires
        0 <= pos,
        data.len() <= u32::MAX,
        pos + 12 + data.len() <= d.len(),
        d.subrange(pos, pos + 12 + data.len()) == chunk_bytes(u32_be_bytes(ty), data),
    ensures
        chunk_at(d, pos) == Some((ty, data, pos + 12 + data.len())),
{
    reveal(chunk_at);
    reveal(chunk_bytes);
    let n: int = data.len() as int;
    let c = chunk_bytes(u32_be_bytes(ty), data);
    let crc = crate::zlib::crc32_update(crate::zlib::crc32_update(0, u32_be_bytes(ty)), data);
    lemma_be_u32_of_bytes(n as u32);
    lemma_be_u32_of_bytes(ty);
    lemma_be_u32_of_bytes(crc);
    let end = pos + 8 + n;
    let big = d.subrange(pos, pos + 12 + n);
    let a = u32_be_bytes(n as u32);
    let b = u32_be_bytes(ty);
    let e = u32_be_bytes(crc);
    assert(c == a + b + data + e);
    assert(big.subrange(0, 4) =~= a);
    assert(big.subrange(4, 8) =~= b);
    assert(big.subrange(8, 8 + n) =~= data);
    assert(big.subrange(8 + n, 12 + n) =~= e);
    assert(d.subrange(pos, pos + 4) =~= big.subrange(0, 4));
    assert(d.subrange(pos + 4, pos + 8) =~= big.subrange(4, 8));
    assert(d.subrange(pos + 8, end) =~= big.subrange(8, 8 + n));
    assert(d.subrange(end, end + 4) =~= big.subrange(8 + n, 12 + n));
}

/// An image that the decoder reads back as written: it passes the encoder's
/// checks and meets `write`'s needs, its buffer holds exactly `height`
/// scanlines, its color type and bit depth form a combination that PNG allows
/// (a palette image has four channels, its RGBA entries, and at most 8 bits;
/// below 8 bits an image without palette is gray), and a palette holds whole
/// RGBA entries whose colors fit in a chunk.
pub open spec fn read_back_compatible(img: ImageModel) -> bool {
    let pal = img.palette.len() != 0;
    let samples = write_samples(img, pal);
    let bpr = bytes_per_row(img.width, img.bit_depth, samples);
    &&& header_accepted(img)
    &&& scanlines_fit(img, pal)
    &&& img.buffer.len() == bpr * img.height
    &&& if pal {
        img.channels == 4 && img.bit_depth <= 8
    } else {
        img.bit_depth >= 8 || img.channels == 1
    }
    &&& pal ==> img.palette.len() % 4 == 0 && 3 * (img.palette.len() / 4) <= u32::MAX
}

/// zlib inflates the image data chunk that it deflated for the image back into
/// the filtered image data.
pub open spec fn zlib_gives_back(img: ImageModel) -> bool {
    let f = filtered_image_data(img, img.palette.len() != 0);
    inflate_result(deflate_filtered_result_of(f), ZLIB_WINDOW_BITS, f.len() as usize) == (f, 0i32)
}

/// The color type that the encoder writes for the image.
pub open spec fn written_color_type(img: ImageModel) -> u8 {
    color_type_of(img.channels, img.palette.len() != 0)->0
}

/// The stream that the encoder writes for the image, with `idat` its image
/// data chunk's data.
pub open spec fn written_stream(img: ImageModel, idat: Seq<u8>) -> Seq<u8> {
    signature_bytes() + chunk_bytes(
        u32_be_bytes(IHDR),
        ihdr_data(img.width, img.height, img.bit_depth, written_color_type(img)),
    ) + (if img.palette.len() != 0 {
        palette_chunks(img.palette)
    } else {
        Seq::empty()
    }) + chunk_bytes(u32_be_bytes(IDAT), idat) + chunk_bytes(u32_be_bytes(IEND), Seq::empty())
}

proof fn lemma_written_header(img: ImageModel, idat: Seq<u8>)
    ensures
        header_ok(written_stream(img, idat)),
        be_u32(written_stream(img, idat).subrange(16, 20)) == img.width,
        be_u32(written_stream(img, idat).subrange(20, 24)) == img.height,
        written_stream(img, idat)[24] == img.bit_depth,
        written_stream(img, idat)[25] == written_color_type(img),
        written_stream(img, idat)[26] == 0,
        written_stream(img, idat)[27] == 0,
        written_stream(img, idat)[28] == 0,
{
    let bytes = written_stream(img, idat);
    let ct = written_color_type(img);
    let ihdr = ihdr_data(img.width, img.height, img.bit_depth, ct);
    let sig = signature_bytes();
    let crc = crate::zlib::crc32_update(crate::zlib::crc32_update(0, u32_be_bytes(IHDR)), ihdr);
    let h = chunk_bytes(u32_be_bytes(IHDR), ihdr);
    lemma_be_u32_of_bytes(0x89504E47);
    lemma_be_u32_of_bytes(0x0D0A1A0A);
    lemma_be_u32_of_bytes(13);
    lemma_be_u32_of_bytes(IHDR);
    lemma_be_u32_of_bytes(img.width);
    lemma_be_u32_of_bytes(img.height);
    lemma_be_u32_of_bytes(crc);
    assert(sig.len() == 8);
    assert(ihdr.len() == 13);
    assert(h == u32_be_bytes(13) + u32_be_bytes(IHDR) + ihdr + u32_be_bytes(crc)) by {
        reveal(chunk_bytes);
    }
    assert(h.len() == 25);
    let front = sig + h;
    assert(bytes.subrange(0, 33) =~= front);
    assert(bytes.take(8) =~= sig);
    assert(be_u64(sig) == crate::PNG_SIGNATURE) by {
        assert(sig.subrange(4, 8) =~= u32_be_bytes(0x0D0A1A0A));
    }
    assert(bytes.subrange(8, 12) =~= u32_be_bytes(13));
    assert(bytes.subrange(12, 16) =~= u32_be_bytes(IHDR));
    assert(bytes.subrange(16, 29) =~= ihdr);
    assert(bytes.subrange(29, 33) =~= u32_be_bytes(crc));
    assert(bytes.subrange(16, 20) =~= u32_be_bytes(img.width));
    assert(bytes.subrange(20, 24) =~= u32_be_bytes(img.height));
    assert(bytes[24] == front[24]);
    assert(bytes[25] == front[25]);
    assert(bytes[26] == front[26]);
    assert(bytes[27] == front[27]);
    assert(bytes[28] == front[28]);
}

/// The chunks that the encoder writes after the header, as the decoder reads
/// them.
pub open spec fn written_scan(img: ImageModel, idat: Seq<u8>) -> ScanState {
    let pal = img.palette.len() != 0;
    ScanState {
        idat: Seq::empty() + idat,
        plte: if pal {
            plte_entries(img.palette, img.palette.len() / 4)
        } else {
            Seq::empty()
        },
        trns: if pal {
            trns_entries(img.palette, img.palette.len() / 4)
        } else {
            Seq::empty()
        },
        seen_idat: true,
    }
}

proof fn lemma_concat_middle(a: Seq<u8>, b: Seq<u8>, c: Seq<u8>)
    ensures
        (a + b + c).subrange(a.len() as int, (a.len() + b.len()) as int) == b,
        (a + b).subrange(a.len() as int, (a.len() + b.len()) as int) == b,
{
    assert((a + b + c).subrange(a.len() as int, (a.len() + b.len()) as int) =~= b);
    assert((a + b).subrange(a.len() as int, (a.len() + b.len()) as int) =~= b);
}

/// The image data chunk and the end chunk at `q` of `d` read as the end of the
/// chunks.
proof fn lemma_scan_idat_iend(d: Seq<u8>, q: int, idat: Seq<u8>, st: ScanState)
    requires
        0 <= q,
        idat.len() <= u32::MAX,
        d.len() == q + 24 + idat.len(),
        d.subrange(q, q + 12 + idat.len()) == chunk_bytes(u32_be_bytes(IDAT), idat),
        d.subrange(q + 12 + idat.len(), q + 24 + idat.len()) == chunk_bytes(
            u32_be_bytes(IEND),
            Seq::<u8>::empty(),
        ),
    ensures
        scan_chunks(d, q, st) == Some(ScanState { idat: st.idat + idat, seen_idat: true, ..st }),
{
    let e = q + 12 + idat.len();
    let st_end = ScanState { idat: st.idat + idat, seen_idat: true, ..st };
    lemma_chunk_at_written(d, e, IEND, Seq::empty());
    assert(scan_chunks(d, e, st_end) == Some(st_end));
    lemma_chunk_at_written(d, q, IDAT, idat);
}

/// The palette and transparency chunks at 33 of `d` read as the palette.
proof fn lemma_scan_palette(d: Seq<u8>, plte: Seq<u8>, trns: Seq<u8>, rest: Option<ScanState>)
    requires
        plte.len() <= u32::MAX,
        trns.len() <= u32::MAX,
        45 + plte.len() + 12 + trns.len() <= d.len(),
        d.subrange(33, 45 + plte.len() as int) == chunk_bytes(u32_be_bytes(PLTE), plte),
        d.subrange(45 + plte.len() as int, 57 + plte.len() as int + trns.len() as int) == chunk_bytes(
            u32_be_bytes(tRNS),
            trns,
        ),
        rest == scan_chunks(
            d,
            57 + plte.len() as int + trns.len() as int,
            ScanState { plte, trns, ..empty_scan() },
        ),
    ensures
        scan_chunks(d, 33, empty_scan()) == rest,
{
    let a: int = 45 + plte.len() as int;
    lemma_chunk_at_written(d, a, tRNS, trns);
    assert(scan_chunks(d, a, ScanState { plte, ..empty_scan() }) == rest);
    lemma_chunk_at_written(d, 33, PLTE, plte);
}

proof fn lemma_subrange_of_prefix(a: Seq<u8>, b: Seq<u8>, i: int, j: int)
    requires
        0 <= i <= j <= a.len(),
    ensures
        (a + b).subrange(i, j) == a.subrange(i, j),
{
    assert((a + b).subrange(i, j) =~= a.subrange(i, j));
}

proof fn lemma_pair_parts(a: Seq<u8>, b: Seq<u8>, c: Seq<u8>)
    ensures
        (a + (b + c)).subrange(a.len() as int, (a.len() + b.len()) as int) == b,
        (a + (b + c)).subrange(
            (a.len() + b.len()) as int,
            (a.len() + b.len() + c.len()) as int,
        ) == c,
{
    assert((a + (b + c)).subrange(a.len() as int, (a.len() + b.len()) as int) =~= b);
    assert((a + (b + c)).subrange(
        (a.len() + b.len()) as int,
        (a.len() + b.len() + c.len()) as int,
    ) =~= c);
}

proof fn lemma_written_chunks(img: ImageModel, idat: Seq<u8>)
    requires
        idat.len() <= u32::MAX,
        3 * (img.palette.len() / 4) <= u32::MAX,
    ensures
        scan_chunks(written_stream(img, idat), 33, empty_scan()) == Some(written_scan(img, idat)),
{
    let bytes = written_stream(img, idat);
    let pal = img.palette.len() != 0;
    let ct = written_color_type(img);
    let ihdr = ihdr_data(img.width, img.height, img.bit_depth, ct);
    let sig = signature_bytes();
    let h = chunk_bytes(u32_be_bytes(IHDR), ihdr);
    let p = if pal {
        palette_chunks(img.palette)
    } else {
        Seq::<u8>::empty()
    };
    let ic = chunk_bytes(u32_be_bytes(IDAT), idat);
    let ec = chunk_bytes(u32_be_bytes(IEND), Seq::<u8>::empty());
    assert(sig.len() == 8);
    assert(ihdr.len() == 13);
    lemma_chunk_bytes_len(u32_be_bytes(IHDR), ihdr);
    lemma_chunk_bytes_len(u32_be_bytes(IDAT), idat);
    lemma_chunk_bytes_len(u32_be_bytes(IEND), Seq::empty());
    assert(h.len() == 25);
    assert(ic.len() == 12 + idat.len());
    assert(ec.len() == 12);
    let front = sig + h + p;
    assert(bytes == front + ic + ec);
    lemma_concat_middle(front, ic, ec);
    lemma_concat_middle(front + ic, ec, Seq::empty());
    let q: int = 33 + p.len() as int;
    let st0 = ScanState {
        plte: written_scan(img, idat).plte,
        trns: written_scan(img, idat).trns,
        ..empty_scan()
    };
    lemma_scan_idat_iend(bytes, q, idat, st0);
    assert(ScanState { idat: st0.idat + idat, seen_idat: true, ..st0 } == written_scan(img, idat));
    if pal {
        let n = img.palette.len() / 4;
        let plte = plte_entries(img.palette, n);
        let trns = trns_entries(img.palette, n);
        lemma_palette_split_prefix(img.palette, n, n);
        lemma_be_u32_of_bytes(PLTE);
        lemma_be_u32_of_bytes(tRNS);
        lemma_be_u32_of_bytes(plte.len() as u32);
        lemma_be_u32_of_bytes(trns.len() as u32);
        let pc = chunk_bytes(u32_be_bytes(PLTE), plte);
        let tc = chunk_bytes(u32_be_bytes(tRNS), trns);
        lemma_chunk_bytes_len(u32_be_bytes(PLTE), plte);
        lemma_chunk_bytes_len(u32_be_bytes(tRNS), trns);
        assert(p == pc + tc);
        assert(front == (sig + h) + (pc + tc));
        lemma_pair_parts(sig + h, pc, tc);
        lemma_subrange_of_prefix(front + ic, ec, 33, 33 + pc.len() as int);
        lemma_subrange_of_prefix(front, ic, 33, 33 + pc.len() as int);
        lemma_subrange_of_prefix(
            front + ic,
            ec,
            33 + pc.len() as int,
            33 + pc.len() as int + tc.len() as int,
        );
        lemma_subrange_of_prefix(front, ic, 33 + pc.len() as int, 33 + pc.len() as int + tc.len() as int);
        lemma_scan_palette(bytes, plte, trns, Some(written_scan(img, idat)));
    } else {
        assert(st0 == empty_scan());
    }
}

/// `bytes` is what `write` makes of `img`, an image that the decoder reads
/// back as written, with its compressed image data small enough for one
/// chunk.
pub open spec fn written_by(img: ImageModel, bytes: Seq<u8>) -> bool {
    &&& read_back_compatible(img)
    &&& spec_write(img) == Some(bytes)
    &&& deflate_filtered_result_of(filtered_image_data(img, img.palette.len() != 0)).len()
        <= u32::MAX
}

/// What the decoder finds in the stream `d` that the encoder wrote for `img`
/// before it inflates the image data: the header fields, pixel and scanline
/// sizes it can handle, and the chunks.
pub open spec fn decoder_view(d: Seq<u8>, img: ImageModel) -> bool {
    let pal = img.palette.len() != 0;
    let f = filtered_image_data(img, pal);
    let samples = write_samples(img, pal);
    let bpp = write_bpp(samples, img.bit_depth);
    let bpr = bytes_per_row(img.width, img.bit_depth, samples);
    &&& header_ok(d)
    &&& be_u32(d.subrange(16, 20)) == img.width
    &&& be_u32(d.subrange(20, 24)) == img.height
    &&& d[24] == img.bit_depth
    &&& d[25] == written_color_type(img)
    &&& d[26] == 0 && d[27] == 0 && d[28] == 0
    &&& channel_of(d[25], d[24]) == Some(img.channels)
    &&& samples_of(d[25], img.channels) == samples
    &&& bytes_per_pixel(d[25], img.channels, img.bit_depth) == bpp
    &&& img.width * img.bit_depth * samples <= usize::MAX
    &&& 1 <= bpp <= bpr
    &&& (bpr + 1) * img.height <= usize::MAX
    &&& img.height >= 1
    &&& scan_chunks(d, 33, empty_scan()) == Some(written_scan(img, deflate_filtered_result_of(f)))
    &&& f.len() == (bpr + 1) * img.height
    &&& deflate_filtered_with_settings(f).1 == 0
}

/// The decoder finds in the stream that the encoder wrote what `decoder_view`
/// says.
pub proof fn lemma_written_decoder_view(img: ImageModel, bytes: Seq<u8>)
    requires
        written_by(img, bytes),
    ensures
        decoder_view(bytes, img),
{
    let pal = img.palette.len() != 0;
    let ct = written_color_type(img);
    let f = filtered_image_data(img, pal);
    let idat = deflate_filtered_result_of(f);
    assert(idat_data(img, pal) == Some(idat));
    assert(bytes == written_stream(img, idat));
    lemma_written_header(img, idat);
    lemma_written_chunks(img, idat);
    let samples = write_samples(img, pal);
    let bpp = write_bpp(samples, img.bit_depth);
    let bpr = bytes_per_row(img.width, img.bit_depth, samples);
    assert(samples_of(ct, img.channels) == samples);
    assert(bytes_per_pixel(ct, img.channels, img.bit_depth) == bpp);
    let raw = img.buffer.take(bpr * img.height);
    assert(bpr * img.height == img.height * bpr) by (nonlinear_arith);
    lemma_filter_rows_len(raw, zeros(bpr as nat), true, bpp as nat, bpr as nat, img.height as nat);
    assert(f.len() == (bpr + 1) * img.height) by (nonlinear_arith)
        requires
            f.len() == img.height * (bpr + 1),
    ;
}

/// Reading back what was written: for an image that the decoder can read as
/// written, whose compressed image data fits in one chunk, and on which zlib
/// inflates what it deflated, `imread` decodes the stream that `write` encodes
/// to the same image.
pub proof fn lemma_read_after_write(img: ImageModel, bytes: Seq<u8>)
    requires
        written_by(img, bytes),
        zlib_gives_back(img),
    ensures
        spec_imread(bytes) == Some(img),
{
    lemma_written_decoder_view(img, bytes);
    let pal = img.palette.len() != 0;
    let f = filtered_image_data(img, pal);
    let idat = deflate_filtered_result_of(f);
    let st_end = written_scan(img, idat);
    let samples = write_samples(img, pal);
    let bpp = write_bpp(samples, img.bit_depth);
    let bpr = bytes_per_row(img.width, img.bit_depth, samples);

    // The image data.
    assert(st_end.idat =~= idat);
    let raw = img.buffer.take(bpr * img.height);
    assert(raw =~= img.buffer);
    assert(inflated(st_end.idat, ((bpr + 1) * img.height) as usize) == Some(f));
    assert((bpr * img.height) % bpr == 0) by (nonlinear_arith)
        requires
            bpr >= 1,
            img.height >= 0,
    ;
    lemma_unfilter_filter_rows(raw, zeros(bpr as nat), true, bpp as nat, bpr as nat);
    assert(defilter_result(f, img.height, bpp as nat, bpr as nat) == Some(img.buffer));

    // The palette.
    if pal {
        lemma_palette_round_trip(img.palette);
        lemma_palette_split_prefix(img.palette, img.palette.len() / 4, img.palette.len() / 4);
    }
}

/// Unfiltering `n` rows of filtered image data gives `n` scanlines.
proof fn lemma_unfilter_rows_len(f: Seq<u8>, prev: Seq<u8>, bpp: nat, bpr: nat, n: nat)
    requires
        f.len() == n * (bpr + 1),
        unfilter_rows(f, prev, bpp, bpr) is Some,
    ensures
        unfilter_rows(f, prev, bpp, bpr)->0.len() == n * bpr,
    decreases n,
{
    lemma_unfilter_rows_unfold(f, prev, bpp, bpr);
    if n == 0 {
        assert(f.len() == 0) by (nonlinear_arith)
            requires
                f.len() == n * (bpr + 1),
                n == 0,
        ;
        assert(n * bpr == 0) by (nonlinear_arith)
            requires
                n == 0,
        ;
    } else {
        assert(f.len() == (n - 1) * (bpr + 1) + bpr + 1) by (nonlinear_arith)
            requires
                f.len() == n * (bpr + 1),
                n >= 1,
        ;
        let row = recon_row(f[0], f.subrange(1, bpr + 1 as int), prev, bpp);
        lemma_unfilter_rows_len(
            f.subrange(bpr + 1 as int, f.len() as int),
            row,
            bpp,
            bpr,
            (n - 1) as nat,
        );
        assert(n * bpr == (n - 1) * bpr + bpr) by (nonlinear_arith)
            requires
                n >= 1,
        ;
    }
}

/// The palette that the decoder keeps is the data of one chunk, so its length
/// fits in a `u32`.
proof fn lemma_scan_palette_fits(d: Seq<u8>, pos: int, st: ScanState)
    requires
        st.plte.len() <= u32::MAX,
    ensures
        scan_chunks(d, pos, st) matches Some(r) ==> r.plte.len() <= u32::MAX,
    decreases d.len() - pos,
{
    reveal(chunk_at);
    match chunk_at(d, pos) {
        None => {},
        Some((ty, data, next)) => {
            if next <= pos || next > d.len() {
            } else if ty == IDAT {
                lemma_scan_palette_fits(d, next, ScanState { idat: st.idat + data, seen_idat: true, ..st });
            } else if ty == PLTE {
                if st.plte.len() == 0 {
                    lemma_scan_palette_fits(d, next, ScanState { plte: data, ..st });
                }
            } else if ty == tRNS {
                if st.trns.len() == 0 {
                    lemma_scan_palette_fits(d, next, ScanState { trns: data, ..st });
                }
            } else if ty == IEND {
            } else {
                lemma_scan_palette_fits(d, next, st);
            }
        },
    }
}

proof fn lemma_rgba_entries_len(plte: Seq<u8>, trns: Seq<u8>, n: nat)
    ensures
        rgba_entries(plte, trns, n).len() == 4 * n,
    decreases n,
{
    if n > 0 {
        lemma_rgba_entries_len(plte, trns, (n - 1) as nat);
    }
}

/// A decoded image holds `height` scanlines of the size its header gives,
/// at least one scanline of at least one byte, and whole RGBA palette
/// entries.
pub proof fn lemma_decoded_shape(d: Seq<u8>, img: ImageModel)
    requires
        spec_imread(d) == Some(img),
    ensures
        img.width >= 1,
        img.height >= 1,
        img.buffer.len() == bytes_per_row(
            img.width,
            img.bit_depth,
            samples_of(d[25], img.channels),
        ) * img.height,
        img.palette.len() % 4 == 0,
        3 * (img.palette.len() / 4) <= u32::MAX,
        channel_of(d[25], img.bit_depth) == Some(img.channels),
{
    let bd = d[24];
    let ct = d[25];
    let w = be_u32(d.subrange(16, 20));
    let h = be_u32(d.subrange(20, 24));
    assert(header_ok(d));
    assert(channel_of(ct, bd) is Some);
    let ch = channel_of(ct, bd)->0;
    let samples = samples_of(ct, ch);
    let bpp = bytes_per_pixel(ct, ch, bd);
    let bpr = bytes_per_row(w, bd, samples);
    assert(spec_imread(d) == decoded_image(d, w, h, bd, ct, ch, bpp as nat, bpr as nat));
    assert(img.width == w && img.height == h && img.channels == ch && img.bit_depth == bd);
    assert(!(w * bd * samples > usize::MAX || (bpr + 1) * h > usize::MAX || bpr == 0));
    let st = scan_chunks(d, 33, empty_scan())->0;
    let f = inflated(st.idat, ((bpr + 1) * img.height) as usize)->0;
    assert(defilter_result(f, h, bpp as nat, bpr as nat) == Some(img.buffer));
    assert(f.len() == (bpr + 1) * img.height);
    lemma_unfilter_rows_len(f, zeros(bpr as nat), bpp as nat, bpr as nat, img.height as nat);
    assert((bpr + 1) * img.height == img.height * (bpr + 1)) by (nonlinear_arith);
    assert(img.height * bpr == bpr * img.height) by (nonlinear_arith);
    if img.width == 0 {
        assert(img.width * bd * samples == 0) by (nonlinear_arith)
            requires
                img.width == 0,
        ;
    }
    if ct == 3 {
        lemma_rgba_entries_len(st.plte, st.trns, st.plte.len() / 3);
        lemma_scan_palette_fits(d, 33, empty_scan());
    }
}

/// Writing what was read: an image that `imread` decodes meets what `write`
/// needs and reads back as written (see `read_back_compatible`), unless its
/// palette chunk holds no whole entry.
pub proof fn lemma_decoded_is_writable(d: Seq<u8>, img: ImageModel)
    requires
        spec_imread(d) == Some(img),
        d[25] == 3 ==> img.palette.len() != 0,
    ensures
        read_back_compatible(img),
        write_requires(img),
{
    lemma_decoded_shape(d, img);
    let ct = d[25];
    let pal = img.palette.len() != 0;
    let samples = write_samples(img, pal);
    assert(pal <==> ct == 3);
    assert(color_type_of(img.channels, pal) == Some(ct));
    assert(samples == samples_of(ct, img.channels));
    let bpr = bytes_per_row(img.width, img.bit_depth, samples);
    assert(write_bpp(samples, img.bit_depth) == bytes_per_pixel(ct, img.channels, img.bit_depth));
    assert(bpr * img.height == img.height * bpr) by (nonlinear_arith);
}

/// The row decoders undo what `filter_row` writes into a filter buffer: where
/// the buffer holds, after its type byte, the scanline `raw` filtered under
/// `k` against the scanline `up` above it, the `raw.len()` bytes after the
/// type byte rebuild under `k` against `up` into `raw`. Under filter type none
/// they are `raw` itself, and under sub they rebuild into `raw` against a zero
/// scanline as well, which is the one the sub decoder uses.
pub proof fn lemma_row_decoders_undo_filter(
    old_buf: Seq<u8>,
    k: u8,
    raw: Seq<u8>,
    up: Seq<u8>,
    bpp: nat,
)
    requires
        raw.len() == up.len(),
        old_buf.len() >= raw.len() + 1,
    ensures
        ({
            let bpr = raw.len();
            let s = row_result(old_buf, filter_bytes(k, raw, up, bpp), bpr).skip(1).take(bpr as int);
            &&& recon_row(k, s, up, bpp) == raw
            &&& k == FILTER_NONE ==> s == raw
            &&& k == FILTER_SUB ==> recon_row(FILTER_SUB, s, zeros(bpr), bpp) == raw
        }),
{
    let bpr = raw.len();
    let fb = filter_bytes(k, raw, up, bpp);
    let s = row_result(old_buf, fb, bpr).skip(1).take(bpr as int);
    assert(s =~= fb);
    lemma_recon_filter_row(k, raw, up, bpp);
    lemma_recon_none(s, up, bpr, bpp);
    lemma_recon_sub(s, up, bpr, bpp);
}

/// Each color type that the encoder writes reads back, at every bit depth
/// that PNG allows for it, with the channels it was written for: the image's
/// own one to four channels, or four (RGBA entries) for a palette image.
pub proof fn lemma_written_color_type_channels(channels: u8, bit_depth: u8, is_color_type_3: bool)
    requires
        color_type_of(channels, is_color_type_3) is Some,
        png_allows(color_type_of(channels, is_color_type_3)->0, bit_depth),
    ensures
        channel_of(color_type_of(channels, is_color_type_3)->0, bit_depth) == Some(
            if is_color_type_3 {
                4u8
            } else {
                channels
            },
        ),
{
}

/// The chunk kinds that the decoder keeps or that end the stream.
pub open spec fn kept_chunk_type(ty: u32) -> bool {
    ty == IDAT || ty == PLTE || ty == tRNS || ty == IEND
}

/// A chunk of any other type is skipped wherever it stands, before or after
/// image data: reading the chunks from it gives what reading them from right
/// after it gives, whatever has been read so far.
pub proof fn lemma_scan_skips_other_chunk(d: Seq<u8>, pos: int, st: ScanState, ty: u32, data: Seq<u8>)
    requires
        0 <= pos,
        data.len() <= u32::MAX,
        pos + 12 + data.len() <= d.len(),
        d.subrange(pos, pos + 12 + data.len()) == chunk_bytes(u32_be_bytes(ty), data),
        !kept_chunk_type(ty),
    ensures
        scan_chunks(d, pos, st) == scan_chunks(d, pos + 12 + data.len(), st),
{
    lemma_chunk_at_written(d, pos, ty, data);
}

/// The chunk at `x.len() + k` of `x + y` is the chunk at `k` of `y`.
proof fn lemma_chunk_at_shift(x: Seq<u8>, y: Seq<u8>, k: int)
    requires
        0 <= k,
    ensures
        chunk_at(x + y, x.len() + k) == match chunk_at(y, k) {
            Some((t, data, next)) => Some((t, data, next + x.len())),
            None => None,
        },
{
    reveal(chunk_at);
    let d = x + y;
    let o = x.len() as int;
    if k + 8 <= y.len() {
        assert(d.subrange(o + k, o + k + 4) =~= y.subrange(k, k + 4));
        assert(d.subrange(o + k + 4, o + k + 8) =~= y.subrange(k + 4, k + 8));
        let len = be_u32(y.subrange(k, k + 4));
        let end = k + 8 + len;
        if end + 4 <= y.len() {
            assert(d.subrange(o + end, o + end + 4) =~= y.subrange(end, end + 4));
            assert(d.subrange(o + k + 8, o + end) =~= y.subrange(k + 8, end));
        }
    }
}

/// Reading the chunks of `x + y` from `x.len() + k` is reading those of `y`
/// from `k`: what comes before does not matter.
proof fn lemma_scan_shift(x: Seq<u8>, y: Seq<u8>, k: int, st: ScanState)
    requires
        0 <= k,
    ensures
        scan_chunks(x + y, x.len() + k, st) == scan_chunks(y, k, st),
    decreases y.len() - k,
{
    lemma_chunk_at_shift(x, y, k);
    match chunk_at(y, k) {
        None => {},
        Some((ty, data, next)) => {
            if next <= k || next > y.len() {
            } else if ty == IDAT {
                lemma_scan_shift(x, y, next, ScanState { idat: st.idat + data, seen_idat: true, ..st });
            } else if ty == PLTE {
                lemma_scan_shift(x, y, next, ScanState { plte: data, ..st });
            } else if ty == tRNS {
                lemma_scan_shift(x, y, next, ScanState { trns: data, ..st });
            } else if ty == IEND {
            } else {
                lemma_scan_shift(x, y, next, st);
            }
        },
    }
}

/// Inserting a well-formed chunk of a type the decoder does not keep at a
/// chunk boundary changes nothing that the decoder reads from there on,
/// whether image data came before or not.
pub proof fn lemma_scan_insert_other_chunk(
    a: Seq<u8>,
    b: Seq<u8>,
    ty: u32,
    data: Seq<u8>,
    st: ScanState,
)
    requires
        data.len() <= u32::MAX,
        !kept_chunk_type(ty),
    ensures
        scan_chunks(a + chunk_bytes(u32_be_bytes(ty), data) + b, a.len() as int, st) == scan_chunks(
            a + b,
            a.len() as int,
            st,
        ),
{
    let c = chunk_bytes(u32_be_bytes(ty), data);
    lemma_chunk_bytes_len(u32_be_bytes(ty), data);
    let d = a + c + b;
    assert(d.subrange(a.len() as int, (a.len() + c.len()) as int) =~= c);
    lemma_scan_skips_other_chunk(d, a.len() as int, st, ty, data);
    lemma_scan_shift(a + c, b, 0, st);
    lemma_scan_shift(a, b, 0, st);
}

/// Inserting a well-formed chunk of a type the decoder does not keep right
/// after the header chunk leaves the decoded image as it was.
pub proof fn lemma_imread_insert_other_chunk(a: Seq<u8>, b: Seq<u8>, ty: u32, data: Seq<u8>)
    requires
        a.len() == 33,
        data.len() <= u32::MAX,
        !kept_chunk_type(ty),
    ensures
        spec_imread(a + chunk_bytes(u32_be_bytes(ty), data) + b) == spec_imread(a + b),
{
    let c = chunk_bytes(u32_be_bytes(ty), data);
    lemma_chunk_bytes_len(u32_be_bytes(ty), data);
    let d1 = a + c + b;
    let d2 = a + b;
    lemma_scan_insert_other_chunk(a, b, ty, data, empty_scan());
    assert(d1.take(8) =~= d2.take(8));
    assert(d1.subrange(8, 12) =~= d2.subrange(8, 12));
    assert(d1.subrange(12, 16) =~= d2.subrange(12, 16));
    assert(d1.subrange(16, 20) =~= d2.subrange(16, 20));
    assert(d1.subrange(20, 24) =~= d2.subrange(20, 24));
    assert(d1.subrange(16, 29) =~= d2.subrange(16, 29));
    assert(d1.subrange(29, 33) =~= d2.subrange(29, 33));
    assert(d1[24] == d2[24] && d1[25] == d2[25] && d1[26] == d2[26] && d1[27] == d2[27] && d1[28]
        == d2[28]);
    assert(header_ok(d1) == header_ok(d2));
}

} // verus!

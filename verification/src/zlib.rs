//! The calls into zlib-rs: the CRC-32 of chunks and the zlib streams of
//! image data.
use vstd::prelude::*;

verus! {

/// The window size of zlib's default configuration, as a power of two.
pub const ZLIB_WINDOW_BITS: i32 = 15;

/// The CRC-32 that `zlib_rs::crc32::crc32` computes when it updates the
/// running checksum `start` with the bytes `data`.
pub uninterp spec fn crc32_update(start: u32, data: Seq<u8>) -> u32;

/// What `zlib_rs::decompress_slice` yields for the zlib stream `input`,
/// inflated with `window_bits` into an output buffer of `capacity` bytes:
/// the bytes written and the return code (`ReturnCode::Ok` is 0).
pub uninterp spec fn inflate_result(input: Seq<u8>, window_bits: i32, capacity: usize) -> (
    Seq<u8>,
    i32,
);

/// What `zlib_rs::compress_slice` yields for `input`, compressed into an output
/// buffer of `capacity` bytes with the deflate method, the filtered strategy
/// and the given level, window bits and memory level: the bytes written and
/// the return code (`ReturnCode::Ok` is 0).
pub uninterp spec fn deflate_filtered_result(
    input: Seq<u8>,
    capacity: usize,
    level: i32,
    window_bits: i32,
    mem_level: i32,
) -> (Seq<u8>, i32);

/// What `zlib_rs::compress_bound` returns for an input of `source_len` bytes.
pub uninterp spec fn compress_bound_of(source_len: usize) -> usize;

/// zlib's bound on the compressed size of `len` bytes, counted without
/// wrapping: the bytes themselves, one more for no bytes and one more for
/// fewer than nine, an eighth of them rounded up, three bytes of block
/// overhead and six of the zlib wrapper.
pub open spec fn zlib_compress_bound(len: int) -> int {
    len + (if len == 0 {
        1int
    } else {
        0int
    }) + (if len < 9 {
        1int
    } else {
        0int
    }) + (len + 7) / 8 + 3 + 6
}

/// An input length for which no step of `zlib_rs::compress_bound` wraps on
/// any target: `len + 7` fits in 32 bits (a C `unsigned long` is at least
/// that wide) and the whole bound fits in a `usize`.
pub open spec fn compress_bound_exact(len: int) -> bool {
    &&& 0 <= len
    &&& len + 7 <= 0xFFFF_FFFF
    &&& zlib_compress_bound(len) <= usize::MAX
}

/// Calls `zlib_rs::crc32::crc32`, which updates the running CRC-32 `start`
/// with the bytes of `buf`. Claimed: the result is `crc32_update(start, buf@)`.
#[verifier::external_body]
pub(crate) fn crc32(start: u32, buf: &[u8]) -> (r: u32)
    ensures
        r == crc32_update(start, buf@),
{
    zlib_rs::crc32::crc32(start, buf)
}

/// Calls `zlib_rs::decompress_slice` on `input` with an output buffer of
/// `capacity` bytes and `InflateConfig { window_bits }`, and returns the
/// written prefix of the buffer with the return code as an `i32`.
/// Claimed: the result is `inflate_result(input@, window_bits, capacity)`;
/// no more than `capacity` bytes are written; and a stream that
/// `zlib_rs::compress_slice` produced with return code `Ok` from `src`, with
/// the same window bits and valid level and memory level, inflates into a
/// buffer of exactly `src.len()` bytes to `src` with return code `Ok`.
#[verifier::external_body]
pub(crate) fn decompress_slice(capacity: usize, input: &[u8], window_bits: i32) -> (res: (
    Vec<u8>,
    i32,
))
    ensures
        res.0@ == inflate_result(input@, window_bits, capacity).0,
        res.1 == inflate_result(input@, window_bits, capacity).1,
        res.0@.len() <= capacity,
        forall|src: Seq<u8>, cap: usize, level: i32, mem_level: i32|
            {
                &&& #[trigger] deflate_filtered_result(src, cap, level, window_bits, mem_level).1
                    == 0
                &&& deflate_filtered_result(src, cap, level, window_bits, mem_level).0 == input@
                &&& capacity == src.len()
                &&& 9 <= window_bits <= 15
                &&& 0 <= level <= 9
                &&& 1 <= mem_level <= 9
            } ==> res.0@ == src && res.1 == 0,
{
    let mut output = vec![0u8; capacity];
    let (data, rc) = zlib_rs::decompress_slice(
        &mut output,
        input,
        zlib_rs::InflateConfig { window_bits },
    );
    (data.to_vec(), rc as i32)
}

/// Calls `zlib_rs::compress_slice` on `input` with an output buffer of
/// `capacity` bytes and a `DeflateConfig` of the deflate method, the filtered
/// strategy and the given level, window bits and memory level, and returns the
/// written prefix of the buffer with the return code as an `i32`.
/// Claimed: the result is
/// `deflate_filtered_result(input@, capacity, level, window_bits, mem_level)`;
/// no more than `capacity` bytes are written; and with zlib's default window
/// bits and memory level, a valid level and a buffer of at least
/// `zlib_rs::compress_bound` bytes (where that bound does not wrap), the
/// return code is `Ok`. That last claim rests on `compress_bound`'s
/// documentation (compression with that much space never fails for want of
/// output space) and on `compress_with_flush`, which maps the end of the
/// stream to `Ok`; it leaves out a failure to allocate the compressor's own
/// state, which the library treats as any other exhaustion of memory.
#[verifier::external_body]
pub(crate) fn compress_slice(
    capacity: usize,
    input: &[u8],
    level: i32,
    window_bits: i32,
    mem_level: i32,
) -> (res: (Vec<u8>, i32))
    ensures
        res.0@ == deflate_filtered_result(input@, capacity, level, window_bits, mem_level).0,
        res.1 == deflate_filtered_result(input@, capacity, level, window_bits, mem_level).1,
        res.0@.len() <= capacity,
        ({
            &&& compress_bound_exact(input@.len() as int)
            &&& capacity >= zlib_compress_bound(input@.len() as int)
            &&& 0 <= level <= 9
            &&& window_bits == 15
            &&& mem_level == 8
        }) ==> res.1 == 0,
{
    let mut output = vec![0u8; capacity];
    let config = zlib_rs::DeflateConfig {
        level,
        method: zlib_rs::Method::Deflated,
        window_bits,
        mem_level,
        strategy: zlib_rs::Strategy::Filtered,
    };
    let (data, rc) = zlib_rs::compress_slice(&mut output, input, config);
    (data.to_vec(), rc as i32)
}

/// Calls `zlib_rs::compress_bound`, the size of an output buffer that is
/// always large enough for the compressed stream of `source_len` bytes.
/// Claimed: the result is `compress_bound_of(source_len)`, and where no step
/// of its wrapping arithmetic wraps, it is `zlib_compress_bound(source_len)`.
/// Not said: the result for longer inputs, which depends on the width of the
/// target's C `unsigned long`.
#[verifier::external_body]
pub(crate) fn compress_bound(source_len: usize) -> (r: usize)
    ensures
        r == compress_bound_of(source_len),
        compress_bound_exact(source_len as int) ==> r == zlib_compress_bound(source_len as int),
{
    zlib_rs::compress_bound(source_len)
}

} // verus!

//! A small PNG codec: decoding of non-interlaced PNG streams into raw
//! scanlines, and encoding of raw scanlines into PNG streams, with the
//! scanline filters of the format proved to be undone by the decoder.
use vstd::prelude::*;

pub mod filter;
pub mod read;
pub mod roundtrip;
pub mod write;
pub mod zlib;

verus! {

/// A decoded image.
///
/// `buffer` holds `height` scanlines of `bytes_per_row` bytes each, already
/// unfiltered. For a palette image the scanlines hold palette indices and
/// `palette` holds one RGBA quadruple per entry; otherwise `palette` is empty.
#[derive(Debug, Default, PartialEq, Eq)]
pub struct Image {
    pub buffer: Vec<u8>,
    pub width: u32,
    pub height: u32,
    pub channels: u8,
    pub bit_depth: u8,
    pub palette: Vec<u8>,
}

/// The mathematical value of an [`Image`].
#[verifier::ext_equal]
pub struct ImageModel {
    pub buffer: Seq<u8>,
    pub width: u32,
    pub height: u32,
    pub channels: u8,
    pub bit_depth: u8,
    pub palette: Seq<u8>,
}

impl View for Image {
    type V = ImageModel;

    open spec fn view(&self) -> ImageModel {
        ImageModel {
            buffer: self.buffer@,
            width: self.width,
            height: self.height,
            channels: self.channels,
            bit_depth: self.bit_depth,
            palette: self.palette@,
        }
    }
}

/// The eight bytes that open every PNG stream, read as a big-endian `u64`.
pub const PNG_SIGNATURE: u64 = 0x89504E470D0A1A0A;

/// Chunk types, each its four ASCII letters read as a big-endian `u32`.
pub const IHDR: u32 = 0x49484452;

pub const IDAT: u32 = 0x49444154;

pub const IEND: u32 = 0x49454E44;

pub const PLTE: u32 = 0x504C5445;

#[allow(non_upper_case_globals)]
pub const tRNS: u32 = 0x74524E53;

/// The big-endian value of the first four bytes of `s`.
pub open spec fn be_u32(s: Seq<u8>) -> u32
    recommends
        s.len() >= 4,
{
    (s[0] as int * 0x1000000 + s[1] as int * 0x10000 + s[2] as int * 0x100 + s[3] as int) as u32
}

/// The big-endian value of the first eight bytes of `s`.
pub open spec fn be_u64(s: Seq<u8>) -> u64
    recommends
        s.len() >= 8,
{
    (be_u32(s) as int * 0x1_0000_0000 + be_u32(s.subrange(4, 8)) as int) as u64
}

/// The four bytes of `x`, most significant first.
pub open spec fn u32_be_bytes(x: u32) -> Seq<u8> {
    seq![
        (x / 0x1000000) as u8,
        ((x / 0x10000) % 0x100) as u8,
        ((x / 0x100) % 0x100) as u8,
        (x % 0x100) as u8,
    ]
}

/// `a / b` rounded up.
pub open spec fn ceil_div(a: int, b: int) -> int {
    if a % b == 0 {
        a / b
    } else {
        a / b + 1
    }
}

/// Reading back the bytes of a `u32` gives the `u32`.
pub proof fn lemma_be_u32_of_bytes(x: u32)
    ensures
        u32_be_bytes(x).len() == 4,
        be_u32(u32_be_bytes(x)) == x,
{
    let b = u32_be_bytes(x);
    assert(b[0] as int == x / 0x1000000);
    assert(b[1] as int == (x / 0x10000) % 0x100);
    assert(b[2] as int == (x / 0x100) % 0x100);
    assert(b[3] as int == x % 0x100);
    assert(x as int == (x / 0x1000000) * 0x1000000 + ((x / 0x10000) % 0x100) * 0x10000 + ((x
        / 0x100) % 0x100) * 0x100 + x % 0x100) by (nonlinear_arith);
}

/// Reads a big-endian `u32` from the first four bytes of `bytes`.
pub fn read_be_u32(bytes: &[u8]) -> (r: u32)
    requires
        bytes@.len() >= 4,
    ensures
        r == be_u32(bytes@),
{
    let r: u32 = (bytes[0] as u32) * 0x1000000 + (bytes[1] as u32) * 0x10000 + (bytes[2] as u32)
        * 0x100 + (bytes[3] as u32);
    r
}

/// Reads a big-endian `u64` from the first eight bytes of `bytes`.
pub fn read_be_u64(bytes: &[u8]) -> (r: u64)
    requires
        bytes@.len() >= 8,
    ensures
        r == be_u64(bytes@),
{
    let hi: u32 = read_be_u32(bytes);
    let lo: u32 = read_be_u32(&bytes[4..8]);
    (hi as u64) * 0x1_0000_0000 + (lo as u64)
}

/// `a / b` rounded up.
pub fn div_round_up(a: usize, b: usize) -> (r: usize)
    requires
        b != 0,
    ensures
        r == ceil_div(a as int, b as int),
{
    let q: usize = a / b;
    if a % b != 0 {
        assert(b >= 2);
        assert(q <= a / 2) by (nonlinear_arith)
            requires
                q == a / b,
                b >= 2,
        ;
        q + 1
    } else {
        q
    }
}

} // verus!

use slp_png_rs::read::defiler_by_row::{avg, avg_for_line0, none, paeth, sub, up};
use slp_png_rs::read::{defilter, get_channel, imread};
use slp_png_rs::write::{filter_row, get_color_type, make_plte_trns, type_bytes};
use slp_png_rs::{div_round_up, read_be_u32, read_be_u64, Image};

const RGB_ALL_FILTERS: &[u8] = &[137, 80, 78, 71, 13, 10, 26, 10, 0, 0, 0, 13, 73, 72, 68, 82, 0, 0, 0, 3, 0, 0, 0, 5, 8, 2, 0, 0, 0, 15, 19, 193, 245, 0, 0, 0, 39, 73, 68, 65, 84, 120, 156, 99, 96, 21, 144, 86, 51, 180, 113, 15, 138, 101, 212, 50, 117, 80, 4, 3, 38, 85, 24, 96, 246, 13, 138, 80, 6, 3, 22, 32, 15, 34, 11, 0, 192, 112, 7, 116, 165, 213, 20, 167, 0, 0, 0, 0, 73, 69, 78, 68, 174, 66, 96, 130];
const RGB_FIRST_ROW_FILTER_0: &[u8] = &[137, 80, 78, 71, 13, 10, 26, 10, 0, 0, 0, 13, 73, 72, 68, 82, 0, 0, 0, 3, 0, 0, 0, 1, 8, 2, 0, 0, 0, 148, 130, 131, 227, 0, 0, 0, 18, 73, 68, 65, 84, 120, 156, 99, 96, 21, 144, 86, 51, 180, 113, 15, 138, 5, 0, 6, 19, 1, 186, 33, 186, 68, 70, 0, 0, 0, 0, 73, 69, 78, 68, 174, 66, 96, 130];
const RGB_FIRST_ROW_FILTER_1: &[u8] = &[137, 80, 78, 71, 13, 10, 26, 10, 0, 0, 0, 13, 73, 72, 68, 82, 0, 0, 0, 3, 0, 0, 0, 1, 8, 2, 0, 0, 0, 148, 130, 131, 227, 0, 0, 0, 14, 73, 68, 65, 84, 120, 156, 99, 100, 21, 144, 86, 4, 3, 0, 4, 51, 0, 248, 151, 161, 221, 24, 0, 0, 0, 0, 73, 69, 78, 68, 174, 66, 96, 130];
const RGB_FIRST_ROW_FILTER_2: &[u8] = &[137, 80, 78, 71, 13, 10, 26, 10, 0, 0, 0, 13, 73, 72, 68, 82, 0, 0, 0, 3, 0, 0, 0, 1, 8, 2, 0, 0, 0, 148, 130, 131, 227, 0, 0, 0, 18, 73, 68, 65, 84, 120, 156, 99, 98, 21, 144, 86, 51, 180, 113, 15, 138, 5, 0, 6, 39, 1, 188, 67, 61, 29, 174, 0, 0, 0, 0, 73, 69, 78, 68, 174, 66, 96, 130];
const RGB_FIRST_ROW_FILTER_3: &[u8] = &[137, 80, 78, 71, 13, 10, 26, 10, 0, 0, 0, 13, 73, 72, 68, 82, 0, 0, 0, 3, 0, 0, 0, 1, 8, 2, 0, 0, 0, 148, 130, 131, 227, 0, 0, 0, 18, 73, 68, 65, 84, 120, 156, 99, 102, 21, 144, 86, 209, 212, 55, 177, 178, 7, 0, 5, 66, 1, 93, 84, 235, 230, 54, 0, 0, 0, 0, 73, 69, 78, 68, 174, 66, 96, 130];
const RGB_FIRST_ROW_FILTER_4: &[u8] = &[137, 80, 78, 71, 13, 10, 26, 10, 0, 0, 0, 13, 73, 72, 68, 82, 0, 0, 0, 3, 0, 0, 0, 1, 8, 2, 0, 0, 0, 148, 130, 131, 227, 0, 0, 0, 14, 73, 68, 65, 84, 120, 156, 99, 97, 21, 144, 86, 4, 3, 0, 4, 81, 0, 251, 52, 172, 63, 174, 0, 0, 0, 0, 73, 69, 78, 68, 174, 66, 96, 130];
const PALETTE_2X2: &[u8] = &[137, 80, 78, 71, 13, 10, 26, 10, 0, 0, 0, 13, 73, 72, 68, 82, 0, 0, 0, 2, 0, 0, 0, 2, 8, 3, 0, 0, 0, 69, 104, 253, 22, 0, 0, 0, 9, 80, 76, 84, 69, 255, 0, 0, 0, 255, 0, 0, 0, 255, 45, 74, 205, 138, 0, 0, 0, 2, 116, 82, 78, 83, 128, 64, 59, 204, 20, 227, 0, 0, 0, 14, 73, 68, 65, 84, 120, 156, 99, 96, 96, 100, 96, 98, 4, 0, 0, 15, 0, 5, 43, 220, 100, 79, 0, 0, 0, 0, 73, 69, 78, 68, 174, 66, 96, 130];
const GRAY16_2X2: &[u8] = &[137, 80, 78, 71, 13, 10, 26, 10, 0, 0, 0, 13, 73, 72, 68, 82, 0, 0, 0, 2, 0, 0, 0, 2, 16, 0, 0, 0, 0, 7, 77, 142, 187, 0, 0, 0, 18, 73, 68, 65, 84, 120, 156, 99, 20, 50, 153, 57, 147, 229, 237, 25, 38, 83, 0, 16, 128, 3, 110, 138, 205, 38, 237, 0, 0, 0, 0, 73, 69, 78, 68, 174, 66, 96, 130];
const GRAY8_1X1_HEAD: &[u8] = &[137, 80, 78, 71, 13, 10, 26, 10, 0, 0, 0, 13, 73, 72, 68, 82, 0, 0, 0, 1, 0, 0, 0, 1, 8, 0, 0, 0, 0, 58, 126, 155, 85];
const IEND_CHUNK: &[u8] = &[0, 0, 0, 0, 73, 69, 78, 68, 174, 66, 96, 130];
const PLTE_TRNS_CHUNKS: &[u8] = &[0, 0, 0, 6, 80, 76, 84, 69, 10, 20, 30, 40, 50, 60, 213, 27, 180, 233, 0, 0, 0, 2, 116, 82, 78, 83, 7, 8, 55, 9, 211, 205];
const BAD_FILTER: &[u8] = &[137, 80, 78, 71, 13, 10, 26, 10, 0, 0, 0, 13, 73, 72, 68, 82, 0, 0, 0, 3, 0, 0, 0, 1, 8, 2, 0, 0, 0, 148, 130, 131, 227, 0, 0, 0, 18, 73, 68, 65, 84, 120, 156, 99, 101, 21, 144, 86, 51, 180, 113, 15, 138, 5, 0, 6, 69, 1, 191, 10, 102, 92, 64, 0, 0, 0, 0, 73, 69, 78, 68, 174, 66, 96, 130];
const WITH_TEXT_CHUNK: &[u8] = &[137, 80, 78, 71, 13, 10, 26, 10, 0, 0, 0, 13, 73, 72, 68, 82, 0, 0, 0, 3, 0, 0, 0, 1, 8, 2, 0, 0, 0, 148, 130, 131, 227, 0, 0, 0, 10, 116, 69, 88, 116, 67, 111, 109, 109, 101, 110, 116, 0, 104, 105, 162, 162, 88, 102, 0, 0, 0, 18, 73, 68, 65, 84, 120, 156, 99, 96, 21, 144, 86, 51, 180, 113, 15, 138, 5, 0, 6, 19, 1, 186, 33, 186, 68, 70, 0, 0, 0, 0, 73, 69, 78, 68, 174, 66, 96, 130];
const DOUBLE_PLTE: &[u8] = &[137, 80, 78, 71, 13, 10, 26, 10, 0, 0, 0, 13, 73, 72, 68, 82, 0, 0, 0, 2, 0, 0, 0, 2, 8, 3, 0, 0, 0, 69, 104, 253, 22, 0, 0, 0, 9, 80, 76, 84, 69, 255, 0, 0, 0, 255, 0, 0, 0, 255, 45, 74, 205, 138, 0, 0, 0, 3, 80, 76, 84, 69, 1, 2, 3, 13, 135, 100, 213, 0, 0, 0, 14, 73, 68, 65, 84, 120, 156, 99, 96, 96, 100, 96, 98, 4, 0, 0, 15, 0, 5, 43, 220, 100, 79, 0, 0, 0, 0, 73, 69, 78, 68, 174, 66, 96, 130];
const PALETTE_NO_PLTE: &[u8] = &[137, 80, 78, 71, 13, 10, 26, 10, 0, 0, 0, 13, 73, 72, 68, 82, 0, 0, 0, 2, 0, 0, 0, 2, 8, 3, 0, 0, 0, 69, 104, 253, 22, 0, 0, 0, 14, 73, 68, 65, 84, 120, 156, 99, 96, 96, 100, 96, 98, 4, 0, 0, 15, 0, 5, 43, 220, 100, 79, 0, 0, 0, 0, 73, 69, 78, 68, 174, 66, 96, 130];
const IEND_FIRST: &[u8] = &[137, 80, 78, 71, 13, 10, 26, 10, 0, 0, 0, 13, 73, 72, 68, 82, 0, 0, 0, 1, 0, 0, 0, 1, 8, 0, 0, 0, 0, 58, 126, 155, 85, 0, 0, 0, 0, 73, 69, 78, 68, 174, 66, 96, 130];
const INTERLACED: &[u8] = &[137, 80, 78, 71, 13, 10, 26, 10, 0, 0, 0, 13, 73, 72, 68, 82, 0, 0, 0, 1, 0, 0, 0, 1, 8, 0, 0, 0, 1, 77, 121, 171, 195, 0, 0, 0, 10, 73, 68, 65, 84, 120, 156, 99, 96, 7, 0, 0, 9, 0, 8, 32, 35, 195, 140, 0, 0, 0, 0, 73, 69, 78, 68, 174, 66, 96, 130];
const RGB4: &[u8] = &[137, 80, 78, 71, 13, 10, 26, 10, 0, 0, 0, 13, 73, 72, 68, 82, 0, 0, 0, 1, 0, 0, 0, 1, 4, 2, 0, 0, 0, 85, 135, 190, 223, 0, 0, 0, 10, 73, 68, 65, 84, 120, 156, 99, 96, 7, 0, 0, 9, 0, 8, 32, 35, 195, 140, 0, 0, 0, 0, 73, 69, 78, 68, 174, 66, 96, 130];
const SHORT_DATA: &[u8] = &[137, 80, 78, 71, 13, 10, 26, 10, 0, 0, 0, 13, 73, 72, 68, 82, 0, 0, 0, 1, 0, 0, 0, 2, 8, 0, 0, 0, 0, 188, 234, 233, 251, 0, 0, 0, 10, 73, 68, 65, 84, 120, 156, 99, 96, 7, 0, 0, 9, 0, 8, 32, 35, 195, 140, 0, 0, 0, 0, 73, 69, 78, 68, 174, 66, 96, 130];
const ZERO_WIDTH: &[u8] = &[137, 80, 78, 71, 13, 10, 26, 10, 0, 0, 0, 13, 73, 72, 68, 82, 0, 0, 0, 0, 0, 0, 0, 1, 8, 0, 0, 0, 0, 213, 188, 240, 107, 0, 0, 0, 9, 73, 68, 65, 84, 120, 156, 99, 0, 0, 0, 1, 0, 1, 94, 255, 125, 249, 0, 0, 0, 0, 73, 69, 78, 68, 174, 66, 96, 130];
const SPLIT_IDAT: &[u8] = &[137, 80, 78, 71, 13, 10, 26, 10, 0, 0, 0, 13, 73, 72, 68, 82, 0, 0, 0, 3, 0, 0, 0, 1, 8, 2, 0, 0, 0, 148, 130, 131, 227, 0, 0, 0, 5, 73, 68, 65, 84, 120, 156, 99, 96, 21, 48, 9, 86, 238, 0, 0, 0, 13, 73, 68, 65, 84, 144, 86, 51, 180, 113, 15, 138, 5, 0, 6, 19, 1, 186, 248, 190, 252, 150, 0, 0, 0, 0, 73, 69, 78, 68, 174, 66, 96, 130];
const GRAY1_10X2: &[u8] = &[137, 80, 78, 71, 13, 10, 26, 10, 0, 0, 0, 13, 73, 72, 68, 82, 0, 0, 0, 10, 0, 0, 0, 2, 1, 0, 0, 0, 0, 73, 26, 112, 125, 0, 0, 0, 14, 73, 68, 65, 84, 120, 156, 99, 216, 124, 128, 105, 81, 3, 0, 8, 79, 2, 152, 6, 187, 246, 0, 0, 0, 0, 0, 73, 69, 78, 68, 174, 66, 96, 130];

const RGB_ROWS: [[u8; 9]; 5] = [
    [5, 16, 27, 38, 49, 60, 71, 82, 93],
    [42, 53, 64, 75, 86, 97, 108, 119, 130],
    [79, 90, 101, 112, 123, 134, 145, 156, 167],
    [116, 127, 138, 149, 160, 171, 182, 193, 204],
    [153, 164, 175, 186, 197, 208, 219, 230, 241],
];

fn rgb_rows(n: usize) -> Vec<u8> {
    let mut v = Vec::new();
    for r in RGB_ROWS.iter().take(n) {
        v.extend_from_slice(r);
    }
    v
}

fn image(width: u32, height: u32, channels: u8, bit_depth: u8, buffer: Vec<u8>, palette: Vec<u8>) -> Image {
    Image { buffer, width, height, channels, bit_depth, palette }
}

#[test]
fn reads_every_filter_type() {
    let img = imread(RGB_ALL_FILTERS).expect("decodes");
    assert_eq!(img.width, 3);
    assert_eq!(img.height, 5);
    assert_eq!(img.channels, 3);
    assert_eq!(img.bit_depth, 8);
    assert_eq!(img.buffer, rgb_rows(5));
    assert!(img.palette.is_empty());
}

#[test]
fn reads_every_filter_type_on_the_first_row() {
    for data in [
        RGB_FIRST_ROW_FILTER_0,
        RGB_FIRST_ROW_FILTER_1,
        RGB_FIRST_ROW_FILTER_2,
        RGB_FIRST_ROW_FILTER_3,
        RGB_FIRST_ROW_FILTER_4,
    ] {
        let img = imread(data).expect("decodes");
        assert_eq!(img.buffer, rgb_rows(1));
    }
}

#[test]
fn reads_palette_with_transparency() {
    let img = imread(PALETTE_2X2).expect("decodes");
    assert_eq!((img.width, img.height, img.channels, img.bit_depth), (2, 2, 4, 8));
    assert_eq!(img.buffer, vec![0, 1, 2, 1]);
    assert_eq!(img.palette, vec![255, 0, 0, 128, 0, 255, 0, 64, 0, 0, 255, 255]);
}

#[test]
fn reads_sixteen_bit_gray() {
    let img = imread(GRAY16_2X2).expect("decodes");
    assert_eq!((img.width, img.height, img.channels, img.bit_depth), (2, 2, 1, 16));
    assert_eq!(img.buffer, vec![0x12, 0x34, 0xAB, 0xCD, 0xFF, 0x00, 0x01, 0x02]);
}

#[test]
fn reads_one_bit_gray() {
    let img = imread(GRAY1_10X2).expect("decodes");
    assert_eq!((img.width, img.height, img.channels, img.bit_depth), (10, 2, 1, 1));
    assert_eq!(img.buffer, vec![0b10110011, 0b11000000, 0b01010101, 0b01000000]);
}

#[test]
fn reads_image_data_split_over_chunks_and_skips_other_chunks() {
    assert_eq!(imread(SPLIT_IDAT).expect("decodes").buffer, rgb_rows(1));
    assert_eq!(imread(WITH_TEXT_CHUNK).expect("decodes").buffer, rgb_rows(1));
}

#[test]
fn rejects_malformed_streams() {
    assert!(imread(BAD_FILTER).is_none());
    assert!(imread(DOUBLE_PLTE).is_none());
    assert!(imread(PALETTE_NO_PLTE).is_none());
    assert!(imread(IEND_FIRST).is_none());
    assert!(imread(INTERLACED).is_none());
    assert!(imread(RGB4).is_none());
    assert!(imread(SHORT_DATA).is_none());
    assert!(imread(ZERO_WIDTH).is_none());
    assert!(imread(&RGB_ALL_FILTERS[..32]).is_none());
    assert!(imread(&RGB_ALL_FILTERS[..RGB_ALL_FILTERS.len() - 1]).is_none());
    assert!(imread(&[]).is_none());
}

#[test]
fn rejects_bad_signature_and_bad_crc() {
    let mut bad_sig = RGB_ALL_FILTERS.to_vec();
    bad_sig[1] = b'Q';
    assert!(imread(&bad_sig).is_none());
    let mut bad_header_crc = RGB_ALL_FILTERS.to_vec();
    bad_header_crc[30] ^= 1;
    assert!(imread(&bad_header_crc).is_none());
    let mut bad_data_crc = RGB_ALL_FILTERS.to_vec();
    let n = bad_data_crc.len();
    bad_data_crc[n - 13] ^= 0x80;
    assert!(imread(&bad_data_crc).is_none());
}

#[test]
fn writes_signature_header_and_end() {
    let img = image(1, 1, 1, 8, vec![200], Vec::new());
    let bytes = img.write().expect("encodes");
    assert_eq!(&bytes[..33], GRAY8_1X1_HEAD);
    assert_eq!(&bytes[bytes.len() - 12..], IEND_CHUNK);
}

#[test]
fn writes_palette_and_transparency_chunks() {
    let img = image(1, 1, 4, 8, vec![1], vec![10, 20, 30, 7, 40, 50, 60, 8]);
    let bytes = img.write().expect("encodes");
    assert_eq!(bytes[25], 3);
    assert_eq!(&bytes[33..33 + PLTE_TRNS_CHUNKS.len()], PLTE_TRNS_CHUNKS);
}

#[test]
fn write_rejects_what_it_cannot_encode() {
    assert!(image(0, 1, 1, 8, vec![], Vec::new()).write().is_none());
    assert!(image(1, 0, 1, 8, vec![], Vec::new()).write().is_none());
    assert!(image(1, 1, 0, 8, vec![0], Vec::new()).write().is_none());
    assert!(image(1, 1, 1, 3, vec![0], Vec::new()).write().is_none());
    assert!(image(1, 1, 5, 8, vec![0; 5], Vec::new()).write().is_none());
}

fn round_trip(img: Image) {
    let bytes = img.write().expect("encodes");
    let back = imread(&bytes).expect("decodes");
    assert_eq!(back, img);
}

#[test]
fn reads_back_what_it_writes() {
    round_trip(image(3, 5, 3, 8, rgb_rows(5), Vec::new()));
    round_trip(image(2, 2, 1, 16, vec![0x12, 0x34, 0xAB, 0xCD, 0xFF, 0x00, 0x01, 0x02], Vec::new()));
    round_trip(image(10, 2, 1, 1, vec![0b10110011, 0b11000000, 0b01010101, 0b01000000], Vec::new()));
    round_trip(image(2, 3, 2, 8, (0..12).map(|x| (x * 29 % 256) as u8).collect(), Vec::new()));
    round_trip(image(4, 3, 4, 16, (0..96).map(|x| (x * 71 % 256) as u8).collect(), Vec::new()));
    round_trip(image(2, 2, 4, 8, vec![0, 1, 2, 1], vec![255, 0, 0, 128, 0, 255, 0, 64, 0, 0, 255, 255]));
    round_trip(image(5, 2, 4, 2, vec![0b00011011, 0b01000000, 0b11100100, 0b10000000], vec![1, 2, 3, 4, 5, 6, 7, 8, 9, 10, 11, 12, 13, 14, 15, 16]));
}

#[test]
fn reads_back_a_larger_image() {
    let (w, h) = (37u32, 23u32);
    let buffer: Vec<u8> = (0..(w * h * 4)).map(|x| ((x * x) % 251) as u8).collect();
    round_trip(image(w, h, 4, 8, buffer, Vec::new()));
}

#[test]
fn big_endian_reads() {
    assert_eq!(read_be_u32(&[0x12, 0x34, 0x56, 0x78, 0x9A]), 0x12345678);
    assert_eq!(read_be_u64(&[0x89, 0x50, 0x4E, 0x47, 0x0D, 0x0A, 0x1A, 0x0A]), 0x89504E470D0A1A0A);
    assert_eq!(type_bytes(0x49484452), *b"IHDR");
}

#[test]
fn rounds_up() {
    assert_eq!(div_round_up(0, 8), 0);
    assert_eq!(div_round_up(1, 8), 1);
    assert_eq!(div_round_up(8, 8), 1);
    assert_eq!(div_round_up(9, 8), 2);
    assert_eq!(div_round_up(7, 1), 7);
}

#[test]
fn channels_of_color_types() {
    assert_eq!(get_channel(0, 1), Some(1));
    assert_eq!(get_channel(0, 16), Some(1));
    assert_eq!(get_channel(0, 3), None);
    assert_eq!(get_channel(2, 8), Some(3));
    assert_eq!(get_channel(2, 4), None);
    assert_eq!(get_channel(3, 4), Some(4));
    assert_eq!(get_channel(3, 16), None);
    assert_eq!(get_channel(4, 16), Some(2));
    assert_eq!(get_channel(6, 8), Some(4));
    assert_eq!(get_channel(5, 8), None);
    assert_eq!(get_color_type(1, false), Some(0));
    assert_eq!(get_color_type(2, false), Some(4));
    assert_eq!(get_color_type(3, false), Some(2));
    assert_eq!(get_color_type(4, false), Some(6));
    assert_eq!(get_color_type(5, false), None);
    assert_eq!(get_color_type(5, true), Some(3));
}

#[test]
fn splits_palette() {
    let (plte, trns) = make_plte_trns(&[1, 2, 3, 4, 5, 6, 7, 8, 9]);
    assert_eq!(plte, vec![1, 2, 3, 5, 6, 7]);
    assert_eq!(trns, vec![4, 8]);
}

#[test]
fn row_filters_rebuild_scanlines() {
    let prev = [10u8, 20, 30, 40];
    let src = [1u8, 2, 250, 4];
    let mut dst = [9u8; 5];
    none(&src, &mut dst, 4);
    assert_eq!(dst, [1, 2, 250, 4, 9]);
    sub(&src, &mut dst, 2, 4);
    assert_eq!(dst, [1, 2, 251, 6, 9]);
    up(&src, &prev, &mut dst, 4);
    assert_eq!(dst, [11, 22, 24, 44, 9]);
    avg_for_line0(&src, &mut dst, 2, 4);
    assert_eq!(dst, [1, 2, 250, 5, 9]);
    avg(&src, &prev, &mut dst, 2, 4);
    assert_eq!(dst, [6, 12, 12, 30, 9]);
    paeth(&src, &prev, &mut dst, 2, 4);
    assert_eq!(dst, [11, 22, 24, 44, 9]);
}

#[test]
fn defilters_an_image() {
    let img = image(2, 2, 1, 8, Vec::new(), Vec::new());
    // first row sub, second row up
    let f = [1u8, 5, 3, 2, 1, 1];
    assert_eq!(defilter(&f, &img, 1, 2), Some(vec![5, 8, 6, 9]));
    assert_eq!(defilter(&[7u8, 0, 0, 0, 0, 0], &img, 1, 2), None);
    let empty = image(2, 0, 1, 8, Vec::new(), Vec::new());
    assert_eq!(defilter(&[], &empty, 1, 2), None);
}

#[test]
fn filters_rows_and_scores_them() {
    let src = [10u8, 20, 30, 15, 25, 35];
    let mut bufs: [Vec<u8>; 5] = [vec![0, 0, 0, 0], vec![1, 0, 0, 0], vec![2, 0, 0, 0], vec![3, 0, 0, 0], vec![4, 0, 0, 0]];
    let scores = filter_row(&mut bufs, &src, 1, 3, 0);
    assert_eq!(scores, [u64::MAX, 0, u64::MAX, u64::MAX, u64::MAX]);
    assert_eq!(bufs[1], vec![1, 10, 10, 10]);
    assert_eq!(bufs[0], vec![0, 0, 0, 0]);
    let scores = filter_row(&mut bufs, &src, 1, 3, 1);
    assert_eq!(bufs[0], vec![0, 15, 25, 35]);
    assert_eq!(bufs[1], vec![1, 15, 10, 10]);
    assert_eq!(bufs[2], vec![2, 5, 5, 5]);
    assert_eq!(bufs[3], vec![3, 10, 8, 8]);
    assert_eq!(bufs[4], vec![4, 5, 5, 5]);
    assert_eq!(scores, [75, 35, 15, 26, 15]);
}

#[test]
fn writes_back_what_it_reads() {
    for data in [RGB_ALL_FILTERS, PALETTE_2X2, GRAY16_2X2, GRAY1_10X2, SPLIT_IDAT, WITH_TEXT_CHUNK] {
        let img = imread(data).expect("decodes");
        let bytes = img.write().expect("encodes");
        assert_eq!(imread(&bytes).expect("decodes again"), img);
    }
}

#[test]
fn defilter_undoes_every_filter_choice() {
    let src = rgb_rows(5);
    let bpp = 3;
    let bpr = 9;
    let mut bufs: [Vec<u8>; 5] = [vec![0; 10], vec![1; 10], vec![2; 10], vec![3; 10], vec![4; 10]];
    for k in 0..5 {
        bufs[k][0] = k as u8;
    }
    for choice in 0..5usize {
        let mut filtered = Vec::new();
        for i in 0..5 {
            filter_row(&mut bufs, &src, bpp, bpr, i);
            let k = if i == 0 { 1 } else { (choice + i) % 5 };
            filtered.extend_from_slice(&bufs[k]);
        }
        let img = image(3, 5, 3, 8, Vec::new(), Vec::new());
        assert_eq!(defilter(&filtered, &img, bpp, bpr), Some(src.clone()));
    }
}

#[test]
fn defilter_of_no_scanlines_is_none_for_any_data() {
    let empty = image(3, 0, 1, 8, Vec::new(), Vec::new());
    assert_eq!(defilter(&[1u8, 2, 3, 4, 5], &empty, 0, 7), None);
    assert_eq!(defilter(&[9u8], &empty, 4, 2), None);
}

#[test]
fn row_decoders_undo_filter_row() {
    let src = rgb_rows(3);
    let bpp = 3;
    let bpr = 9;
    let mut bufs: [Vec<u8>; 5] = [vec![0; 10], vec![1; 10], vec![2; 10], vec![3; 10], vec![4; 10]];
    for k in 0..5 {
        bufs[k][0] = k as u8;
    }
    let row = |i: usize| src[i * bpr..(i + 1) * bpr].to_vec();

    filter_row(&mut bufs, &src, bpp, bpr, 0);
    let mut out = vec![0u8; bpr + 2];
    sub(&bufs[1][1..], &mut out, bpp, bpr);
    assert_eq!(out[..bpr].to_vec(), row(0));

    for i in 1..3 {
        filter_row(&mut bufs, &src, bpp, bpr, i);
        let prev = row(i - 1);
        let mut out = vec![0u8; bpr];
        none(&bufs[0][1..], &mut out, bpr);
        assert_eq!(out, row(i));
        let mut out = vec![0u8; bpr];
        sub(&bufs[1][1..], &mut out, bpp, bpr);
        assert_eq!(out, row(i));
        let mut out = vec![0u8; bpr];
        up(&bufs[2][1..], &prev, &mut out, bpr);
        assert_eq!(out, row(i));
        let mut out = vec![0u8; bpr];
        avg(&bufs[3][1..], &prev, &mut out, bpp, bpr);
        assert_eq!(out, row(i));
        let mut out = vec![0u8; bpr];
        paeth(&bufs[4][1..], &prev, &mut out, bpp, bpr);
        assert_eq!(out, row(i));
    }
}

#[test]
fn defilter_undoes_any_filter_types() {
    // Three scanlines filtered under types up, Paeth and average, the first
    // against a zero scanline.
    let bpp = 1;
    let bpr = 3;
    let raw = [10u8, 200, 30, 15, 25, 35, 0, 255, 7];
    let f = [
        2u8, 10, 200, 30, //
        4, 5, 81, 10, //
        3, 249, 243, 118,
    ];
    let img = image(3, 3, 1, 8, Vec::new(), Vec::new());
    assert_eq!(defilter(&f, &img, bpp, bpr), Some(raw.to_vec()));
}

#[test]
fn writing_a_small_image_succeeds() {
    let img = image(2, 1, 1, 8, vec![5, 6], Vec::new());
    let bytes = img.write().expect("encodes");
    assert_eq!(imread(&bytes).expect("decodes"), img);
}

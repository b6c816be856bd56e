use miniz_oxide::inflate::decompress_to_vec;
use rustgzip::deflate::deflate;
use rustgzip::gzip::{gzip_compress, gzip_member};

fn round_trip(data: &[u8]) -> Vec<u8> {
    let out = deflate(data);
    let back = decompress_to_vec(&out).expect("a valid DEFLATE stream");
    assert_eq!(back, data);
    out
}

fn pseudo_random(n: usize, seed: u64) -> Vec<u8> {
    let mut x = seed;
    (0..n)
        .map(|_| {
            x ^= x << 13;
            x ^= x >> 7;
            x ^= x << 17;
            (x >> 24) as u8
        })
        .collect()
}

/// BFINAL and BTYPE of the first block.
fn first_header_bits(out: &[u8]) -> (bool, u8) {
    let b = out[0];
    (b & 1 == 1, (b >> 1) & 3)
}

#[test]
fn test_deflate() {
    let raw = Vec::from("Hello, world, world");
    let dst: Vec<u8> = deflate(raw.as_slice());
    println!("{:?}", dst);
    assert_eq!(decompress_to_vec(&dst).unwrap(), raw);
}

#[test]
fn test_all() {
    let raw = "Hello, world!\nHello, Rust!\nRust is the best language!\n";
    let dst: Vec<u8> = deflate(raw.as_bytes());
    println!("{:?}", dst);
    assert_eq!(decompress_to_vec(&dst).unwrap(), raw.as_bytes());
}

#[test]
fn deflate_empty_is_empty() {
    assert!(deflate(&[]).is_empty());
}

#[test]
fn deflate_single_byte() {
    let out = round_trip(b"a");
    assert!(out.len() <= 5);
    let (bfinal, _) = first_header_bits(&out);
    assert!(bfinal);
}

#[test]
fn deflate_zeros_round_trip() {
    round_trip(&vec![0u8; 32769]);
}

#[test]
fn deflate_all_byte_values() {
    let data: Vec<u8> = (0..=255u8).collect();
    round_trip(&data);
}

#[test]
fn deflate_random_megabyte() {
    let data = pseudo_random(1 << 20, 0x9E37_79B9_7F4A_7C15);
    let out = round_trip(&data);
    assert!(out.len() <= data.len() + data.len() / 100 + 64, "{} bytes", out.len());
}

#[test]
fn deflate_repetitive_input_is_small() {
    let data = "abc".repeat(10000);
    let out = round_trip(data.as_bytes());
    assert!(out.len() * 100 < data.len(), "{} bytes", out.len());
}

#[test]
fn deflate_many_blocks() {
    let mut data = pseudo_random(200_000, 7);
    for i in 0..data.len() {
        if i % 3 == 0 {
            data[i] = b'x';
        }
    }
    round_trip(&data);
}

#[test]
fn deflate_text_round_trip() {
    let text = "It was the best of times, it was the worst of times, it was the age of wisdom. ".repeat(300);
    round_trip(text.as_bytes());
}

#[test]
fn gzip_of_empty_input() {
    let out = gzip_compress(&[], b"x", 0);
    assert_eq!(out.len(), 20);
    assert_eq!(&out[..4], &[0x1f, 0x8b, 0x08, 0x08]);
    assert_eq!(&out[10..12], b"x\0");
    assert_eq!(&out[12..], &[0u8; 8]);
}

#[test]
fn gzip_member_layout() {
    let data = b"hello gzip";
    let deflated = deflate(data);
    let out = gzip_member(data, &deflated, b"f.txt", 0x01020304);
    assert_eq!(&out[..10], &[0x1f, 0x8b, 0x08, 0x08, 0x04, 0x03, 0x02, 0x01, 0x00, 0x03]);
    assert_eq!(&out[10..16], b"f.txt\0");
    let body = &out[16..out.len() - 8];
    assert_eq!(decompress_to_vec(body).unwrap(), data);
    let crc = u32::from_le_bytes([out[out.len() - 8], out[out.len() - 7], out[out.len() - 6], out[out.len() - 5]]);
    assert_eq!(crc, crc32_reference(data));
    assert_eq!(&out[out.len() - 4..], &(data.len() as u32).to_le_bytes());
}

fn crc32_reference(data: &[u8]) -> u32 {
    let mut crc: u32 = 0xFFFF_FFFF;
    for &b in data {
        crc ^= b as u32;
        for _ in 0..8 {
            crc = if crc & 1 == 1 { (crc >> 1) ^ 0xEDB8_8320 } else { crc >> 1 };
        }
    }
    !crc
}

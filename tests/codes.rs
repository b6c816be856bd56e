use rustgzip::block::fixed_codes;
use rustgzip::huffman::HuffmanCodes;
use rustgzip::symbol::{dist_repr, length_repr, reverse_bits};

#[test]
fn test_huffman_from_bitlen() {
    let a = HuffmanCodes::build_from_codelens(&[2, 1, 3, 3]).unwrap();
    let got: Vec<(u32, u32)> = (0..a.len()).map(|s| a.code(s)).collect();
    println!("{:?}", got);
    assert_eq!(got, vec![(2, 0b10), (1, 0b0), (3, 0b110), (3, 0b111)]);

    let b = HuffmanCodes::build_from_codelens(&[3, 3, 3, 3, 3, 2, 4, 4]).unwrap();
    let got: Vec<(u32, u32)> = (0..b.len()).map(|s| b.code(s)).collect();
    println!("{:?}", got);
    assert_eq!(
        got,
        vec![
            (3, 0b010),
            (3, 0b011),
            (3, 0b100),
            (3, 0b101),
            (3, 0b110),
            (2, 0b00),
            (4, 0b1110),
            (4, 0b1111)
        ]
    );
}

#[test]
fn test_length_repr() {
    let all: Vec<(u16, u8, u8)> = (3..=258u16).map(length_repr).collect();
    println!("{:?}", all);
    assert_eq!(length_repr(3), (257, 0, 0));
    assert_eq!(length_repr(11), (265, 1, 0));
    assert_eq!(length_repr(12), (265, 1, 1));
    assert_eq!(length_repr(258), (285, 0, 0));
}

#[test]
fn test_dist_repr() {
    println!("{:?}", dist_repr(8191));
    assert_eq!(dist_repr(1), (0, 0, 0));
    assert_eq!(dist_repr(5), (4, 1, 0));
    assert_eq!(dist_repr(32768), (29, 13, 8191));
}

#[test]
fn test_reverse_bits() {
    assert_eq!(reverse_bits(0b0010_1001, 5), 0b0001_0010);
}

#[test]
fn length_repr_covers_every_length() {
    for len in 3..=258u16 {
        let (code, bits, extra) = length_repr(len);
        assert!((257..=285).contains(&code));
        assert!((extra as u32) < (1u32 << bits));
    }
    assert_eq!(length_repr(10), (264, 0, 0));
    assert_eq!(length_repr(227), (284, 5, 0));
    assert_eq!(length_repr(257), (284, 5, 30));
}

#[test]
fn dist_repr_boundaries() {
    assert_eq!(dist_repr(4), (3, 0, 0));
    assert_eq!(dist_repr(7), (5, 1, 0));
    assert_eq!(dist_repr(24577), (29, 13, 0));
}

#[test]
fn build_from_codelens_rejects_over_full() {
    assert!(HuffmanCodes::build_from_codelens(&[1, 1, 1]).is_err());
    assert!(HuffmanCodes::build_from_codelens(&[16, 1]).is_err());
}

#[test]
fn build_from_codelens_accepts_one_missing_code() {
    // One code of the longest length missing: accepted, canonical codes.
    let t = HuffmanCodes::build_from_codelens(&[2, 2, 2]).unwrap();
    assert_eq!(t.code(0), (2, 0b00));
    assert_eq!(t.code(1), (2, 0b01));
    assert_eq!(t.code(2), (2, 0b10));
    assert!(HuffmanCodes::build_from_codelens(&[1]).is_ok());
    assert!(HuffmanCodes::build_from_codelens(&[0, 0]).is_ok());
}

#[test]
fn build_from_codelens_rejects_more_missing() {
    assert!(HuffmanCodes::build_from_codelens(&[2, 2]).is_err());
    assert!(HuffmanCodes::build_from_codelens(&[2]).is_err());
    assert!(HuffmanCodes::build_from_codelens(&[3, 3, 3, 3, 3, 3]).is_err());
}

#[test]
fn fixed_codes_are_the_canonical_fixed_code() {
    let mut lens = vec![8u32; 288];
    for l in lens.iter_mut().take(256).skip(144) {
        *l = 9;
    }
    for l in lens.iter_mut().take(280).skip(256) {
        *l = 7;
    }
    let built = HuffmanCodes::build_from_codelens(&lens).unwrap();
    let (lit, dist) = fixed_codes();
    for s in 0..288 {
        assert_eq!(built.code(s), lit.code(s));
    }
    assert_eq!(lit.code(0), (8, 0b0011_0000));
    assert_eq!(lit.code(256), (7, 0));
    assert_eq!(dist.code(17), (5, 17));
}

#[test]
fn set_code_replaces_one_entry() {
    let mut t = HuffmanCodes::empty(4);
    t.set_code(2, (3, 0b101));
    assert_eq!(t.code(2), (3, 0b101));
    assert_eq!(t.code(1), (0, 0));
}

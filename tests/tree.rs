use rustgzip::circular_buf::CircularBuf;
use rustgzip::huffman::{
    check_full_lengths, check_lengths, limited_codelens_from_freq, HuffmanCodes, HuffmanTree,
};
use rustgzip::lz77::lz77_lazy_encode;
use rustgzip::symbol::Symbol;

fn code_bits(len: u32, code: u32) -> Vec<bool> {
    (0..len).rev().map(|i| (code >> i) & 1 == 1).collect()
}

#[test]
fn tree_decodes_rfc_example() {
    let lens = [3, 3, 3, 3, 3, 2, 4, 4];
    let tree = HuffmanTree::build_canonical_from_codelens(&lens).unwrap();
    let codes = HuffmanCodes::build_from_codelens(&lens).unwrap();
    let mut stream = Vec::new();
    let message: Vec<u16> = vec![5, 0, 7, 6, 2, 5, 5, 1, 3, 4];
    for &s in &message {
        let (len, code) = codes.code(s as usize);
        stream.extend(code_bits(len, code));
    }
    let mut pos = 0;
    let mut out = Vec::new();
    while pos < stream.len() {
        let (s, next) = tree.decode_char(&stream, pos).unwrap();
        out.push(s);
        pos = next;
    }
    assert_eq!(out, message);
}

#[test]
fn tree_rejects_invalid_lengths() {
    assert!(HuffmanTree::build_canonical_from_codelens(&[1, 1, 1]).is_err());
    assert!(HuffmanTree::build_canonical_from_codelens(&[2, 2]).is_err());
    assert!(HuffmanTree::build_canonical_from_codelens(&[2, 2, 2]).is_ok());
}

#[test]
fn tree_decode_stops_at_missing_branch() {
    let tree = HuffmanTree::build_canonical_from_codelens(&[1]).unwrap();
    assert_eq!(tree.decode_char(&[false], 0).unwrap(), (0, 1));
    assert!(tree.decode_char(&[true], 0).is_err());
    assert!(tree.decode_char(&[], 0).is_err());
}

#[test]
fn new_tree_is_leaf() {
    let t = HuffmanTree::new(Some(3));
    assert!(t.is_leaf());
    assert_eq!(t.decode_char(&[], 0).unwrap(), (3, 0));
}

#[test]
fn tree_from_frequencies() {
    let freqs = [10u32, 0, 3, 3, 1, 20];
    let tree = HuffmanTree::build_canonical_from_freq(&freqs).unwrap();
    let lens = limited_codelens_from_freq(&freqs, 15);
    let codes = HuffmanCodes::build_from_codelens(&lens).unwrap();
    for s in [0usize, 2, 3, 4, 5] {
        let (len, code) = codes.code(s);
        let bits = code_bits(len, code);
        assert_eq!(tree.decode_char(&bits, 0).unwrap(), (s as u16, bits.len()));
    }
}

#[test]
fn limited_lengths_respect_the_limit() {
    // Fibonacci weights force a deep unconstrained tree.
    let mut freqs = vec![0u32; 19];
    let (mut a, mut b) = (1u32, 1u32);
    for f in freqs.iter_mut().take(18) {
        *f = a;
        let c = a + b;
        a = b;
        b = c;
    }
    let lens = limited_codelens_from_freq(&freqs, 7);
    for (i, &l) in lens.iter().enumerate() {
        if freqs[i] > 0 {
            assert!((1..=7).contains(&l), "symbol {} has length {}", i, l);
        } else {
            assert_eq!(l, 0);
        }
    }
    assert!(check_lengths(&lens, 7));
    assert!(check_full_lengths(&lens, 7));
}

#[test]
fn limited_lengths_single_and_empty() {
    assert_eq!(limited_codelens_from_freq(&[0, 0, 5, 0], 15), vec![0, 0, 1, 0]);
    assert_eq!(limited_codelens_from_freq(&[0, 0, 0], 15), vec![0, 0, 0]);
    assert_eq!(limited_codelens_from_freq(&[1, 1], 15), vec![1, 1]);
}

#[test]
fn limited_lengths_are_optimal_on_small_input() {
    let lens = limited_codelens_from_freq(&[1, 1, 2, 4], 15);
    assert_eq!(lens, vec![3, 3, 2, 1]);
    let capped = limited_codelens_from_freq(&[1, 1, 2, 4], 2);
    assert_eq!(capped, vec![2, 2, 2, 2]);
}

#[test]
fn lazy_encode_replays() {
    let text = b"abracadabra abracadabra abracadabra";
    let syms = lz77_lazy_encode(text);
    let mut out: Vec<u8> = Vec::new();
    for s in &syms {
        match *s {
            Symbol::Literal(b) => out.push(b),
            Symbol::Pointer { length, distance } => {
                for _ in 0..(length as usize + 3) {
                    let b = out[out.len() - distance as usize];
                    out.push(b);
                }
            }
        }
    }
    assert_eq!(out, text);
    assert!(syms.len() < text.len());
}

#[test]
fn front_and_back_mut_write_in_place() {
    let mut buf: CircularBuf<u8> = CircularBuf::with_capacity(2);
    assert!(buf.front_mut().is_none());
    buf.push_back(1);
    buf.push_back(2);
    buf.push_back(3);
    *buf.front_mut().unwrap() = 20;
    *buf.back_mut().unwrap() = 30;
    assert_eq!(buf.index(0), 20);
    assert_eq!(buf.index(1), 30);
}

#[test]
fn tree_from_frequencies_degenerate() {
    let empty = HuffmanTree::build_canonical_from_freq(&[0, 0, 0]).unwrap();
    assert!(empty.decode_char(&[false], 0).is_err());
    let single = HuffmanTree::build_canonical_from_freq(&[0, 7, 0]).unwrap();
    assert_eq!(single.decode_char(&[false], 0).unwrap(), (1, 1));
}

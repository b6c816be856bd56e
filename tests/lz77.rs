use rustgzip::circular_buf::CircularBuf;
use rustgzip::lz77::{longest_match, lz77_encode_block, MatchIndex};
use rustgzip::symbol::{Lz77Status, Symbol, LOOKAHEAD_SIZE, WINDOW_SIZE};
use std::io::Read;

fn encode_all(input: &[u8]) -> Vec<Symbol> {
    let mut window = CircularBuf::with_capacity(WINDOW_SIZE);
    let mut lookahead = CircularBuf::with_capacity(LOOKAHEAD_SIZE);
    let mut index = MatchIndex::new();
    let mut pos: usize = 0;
    let mut out = Vec::new();
    loop {
        match lz77_encode_block(input, &mut pos, &mut window, &mut lookahead, &mut index, 65535) {
            Lz77Status::Normal(b) => out.extend(b),
            Lz77Status::LastBlock(b) => {
                out.extend(b);
                return out;
            }
        }
    }
}

fn replay(symbols: &[Symbol]) -> Vec<u8> {
    let mut out: Vec<u8> = Vec::new();
    for s in symbols {
        match *s {
            Symbol::Literal(b) => out.push(b),
            Symbol::Pointer { length, distance } => {
                let d = distance as usize;
                assert!(d >= 1 && d <= 32768 && d <= out.len());
                for _ in 0..(length as usize + 3) {
                    let b = out[out.len() - d];
                    out.push(b);
                }
            }
        }
    }
    out
}

#[test]
fn test_longest_match() {
    let mut window = CircularBuf::with_capacity(WINDOW_SIZE);
    let mut lookahead = CircularBuf::with_capacity(LOOKAHEAD_SIZE);

    let l = "Hello, world!\nHello, Rust!\nRust is the best language!\n".as_bytes();

    for b in l {
        lookahead.push_back(*b);
    }

    for _ in 0..14 {
        window.push_back(lookahead.pop_front().unwrap());
    }

    assert_eq!(longest_match(&window, &lookahead), Some((7, 14)));
}

#[test]
fn test_lz77_encode() {
    let input = Vec::from("Hello, world!\nHello, Rust!\nRust is the best language!\n");
    let mut window = CircularBuf::with_capacity(WINDOW_SIZE);
    let mut lookahead = CircularBuf::with_capacity(LOOKAHEAD_SIZE);
    let mut index = MatchIndex::new();
    let mut pos: usize = 0;

    let block = lz77_encode_block(&input, &mut pos, &mut window, &mut lookahead, &mut index, 65535);

    match block {
        Lz77Status::LastBlock(blk) => {
            for s in &blk {
                println!("{}, ", s.to_string());
            }
            assert_eq!(replay(&blk), input);
        }
        _ => panic!("Should be the last block"),
    };
}

#[test]
fn test_symbol_display() {
    assert_eq!(format!("{}", Symbol::Literal(10).to_string()), "0A");
    assert_eq!(format!("{}", Symbol::Pointer { length: 3, distance: 6 }.to_string()), "(3,6)");
}

#[test]
fn test_read_eof() {
    let mut reader = std::io::BufReader::new(std::io::Cursor::new(vec![2u8; 1]));
    let mut buf = [0u8; 1];

    let mut r = reader.read_exact(&mut buf);
    assert!(r.is_ok());
    assert_eq!(buf, [2u8]);

    r = reader.read_exact(&mut buf);
    assert!(r.is_err());
    assert_eq!(r.unwrap_err().kind(), std::io::ErrorKind::UnexpectedEof);

    r = reader.read_exact(&mut buf);
    assert!(r.is_err());
    assert_eq!(r.unwrap_err().kind(), std::io::ErrorKind::UnexpectedEof);
}

#[test]
fn lz77_replay_reproduces_input() {
    let mut data = Vec::new();
    let mut x: u32 = 12345;
    for i in 0..100000u32 {
        x = x.wrapping_mul(1103515245).wrapping_add(12345);
        data.push(if i % 7 < 3 { (x >> 24) as u8 % 4 } else { b"abcdefgh"[(i % 8) as usize] });
    }
    let syms = encode_all(&data);
    assert_eq!(replay(&syms), data);
}

#[test]
fn lz77_pointers_are_in_range() {
    let text = "Hello, world!\nHello, Rust!\nRust is the best language!\n".repeat(50);
    let syms = encode_all(text.as_bytes());
    let mut decoded = 0usize;
    for s in &syms {
        match *s {
            Symbol::Literal(_) => decoded += 1,
            Symbol::Pointer { length, distance } => {
                let len = length as usize + 3;
                assert!(len >= 3 && len <= 258);
                assert!(distance >= 1 && distance as usize <= 32768);
                assert!(distance as usize <= decoded);
                decoded += len;
            }
        }
    }
    assert_eq!(decoded, text.len());
}

#[test]
fn lz77_hello_has_pointer_back_fourteen() {
    let syms = encode_all(b"Hello, world!\nHello, Rust!\nRust is the best language!\n");
    assert!(syms.iter().any(|s| matches!(*s, Symbol::Pointer { length, distance: 14 } if length as usize + 3 >= 5)));
}

#[test]
fn lz77_zeros_use_max_length_pointers() {
    let data = vec![0u8; 32769];
    let syms = encode_all(&data);
    let max_ptrs = syms
        .iter()
        .filter(|s| matches!(**s, Symbol::Pointer { length: 255, .. }))
        .count();
    assert!(max_ptrs >= 100);
    assert_eq!(replay(&syms), data);
}

#[test]
fn lz77_all_bytes_once_are_literals() {
    let data: Vec<u8> = (0..=255u8).collect();
    let syms = encode_all(&data);
    assert_eq!(syms.len(), 256);
    assert!(syms.iter().all(|s| matches!(*s, Symbol::Literal(_))));
}

#[test]
fn lz77_empty_input_is_last_block() {
    let syms = encode_all(&[]);
    assert!(syms.is_empty());
}

#[test]
fn longest_match_none_without_three_byte_repeat() {
    let mut window = CircularBuf::with_capacity(WINDOW_SIZE);
    let mut lookahead = CircularBuf::with_capacity(LOOKAHEAD_SIZE);
    for b in b"abcd" {
        window.push_back(*b);
    }
    for b in b"abxabc" {
        lookahead.push_back(*b);
    }
    assert_eq!(longest_match(&window, &lookahead), None);
}

#[test]
fn longest_match_prefers_nearest_of_equal_length() {
    let mut window = CircularBuf::with_capacity(WINDOW_SIZE);
    let mut lookahead = CircularBuf::with_capacity(LOOKAHEAD_SIZE);
    for b in b"abcXabcY" {
        window.push_back(*b);
    }
    for b in b"abcZ" {
        lookahead.push_back(*b);
    }
    assert_eq!(longest_match(&window, &lookahead), Some((3, 4)));
}

#[test]
fn circular_buf_evicts_front_when_full() {
    let mut buf: CircularBuf<u8> = CircularBuf::with_capacity(3);
    assert!(buf.is_empty());
    assert_eq!(buf.push_back(1), None);
    assert_eq!(buf.push_back(2), None);
    assert_eq!(buf.push_back(3), None);
    assert!(buf.is_full());
    assert_eq!(buf.push_back(4), Some(1));
    assert_eq!(buf.len(), 3);
    assert_eq!(buf.index(0), 2);
    assert_eq!(buf.index(2), 4);
    assert_eq!(buf.pop_front(), Some(2));
    assert_eq!(buf.capacity(), 3);
    buf.clear();
    assert!(buf.is_empty());
    assert_eq!(buf.pop_front(), None);
}

#[test]
fn longest_match_stays_inside_the_window() {
    let mut window = CircularBuf::with_capacity(WINDOW_SIZE);
    let mut lookahead = CircularBuf::with_capacity(LOOKAHEAD_SIZE);
    window.push_back(0u8);
    for _ in 0..3 {
        lookahead.push_back(0u8);
    }
    assert_eq!(longest_match(&window, &lookahead), None);
    for _ in 0..3 {
        window.push_back(0u8);
    }
    assert_eq!(longest_match(&window, &lookahead), Some((3, 3)));
}

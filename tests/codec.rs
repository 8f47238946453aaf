use lz77::{
    apply_token, decode, drain_to_tuple, drain_to_tuple_with, encode, find_tokens,
    largest_factor_under_val, par_drain_to_tuple, read_u16_vec, reconstruct, serialize_tokens,
    symbols_to_bytes, CodecError, Token, WINDOW,
};

fn tok(offset: usize, length: usize, literal: u16) -> Token {
    Token { offset, length, literal }
}

fn round_trip(b: &[u8]) {
    let c = encode(b).unwrap();
    let d = decode(&c, b.len() % 2 == 1).unwrap();
    assert_eq!(d, b.to_vec());
}

fn sample(n: usize) -> Vec<u8> {
    let mut v = Vec::new();
    let mut x: u32 = 12345;
    for i in 0..n {
        x = x.wrapping_mul(1103515245).wrapping_add(12345);
        if i % 7 < 3 {
            v.push((x >> 16) as u8);
        } else {
            v.push((i % 5) as u8);
        }
    }
    v
}

#[test]
fn round_trip_empty() {
    let c = encode(&[]).unwrap();
    assert!(c.is_empty());
    assert_eq!(decode(&c, false).unwrap(), Vec::<u8>::new());
}

#[test]
fn round_trip_single_byte() {
    round_trip(&[0x41]);
}

#[test]
fn round_trip_short_inputs() {
    round_trip(&[1, 2]);
    round_trip(&[1, 2, 3]);
    round_trip(&[7, 7, 7, 7, 7, 7, 7, 7, 7]);
    round_trip(b"abababababcabcabcabc");
}

#[test]
fn round_trip_longer_than_window() {
    let b = sample(2 * 2 * WINDOW + 1001);
    round_trip(&b);
    let mut rep = Vec::new();
    for i in 0..(3 * 2 * WINDOW) {
        rep.push((i % 251) as u8);
    }
    round_trip(&rep);
}

#[test]
fn odd_input_without_the_flag_keeps_the_padding_byte() {
    let c = encode(&[9, 8, 7]).unwrap();
    assert_eq!(decode(&c, false).unwrap(), vec![9, 8, 7, 0]);
    assert_eq!(decode(&c, true).unwrap(), vec![9, 8, 7]);
}

#[test]
fn encode_exact_container() {
    let c = encode(&[1, 2, 1, 2, 1, 2, 3, 4]).unwrap();
    assert_eq!(
        c,
        vec![0, 0, 0, 0, 1, 2, 0, 1, 0, 1, 1, 2, 0, 0, 0, 0, 3, 4]
    );
}

#[test]
fn token_validity_on_long_input() {
    let b = sample(3 * WINDOW);
    let s = read_u16_vec(&b);
    let ts = find_tokens(&s);
    let mut pos = 0usize;
    for t in &ts {
        if t.offset > 0 {
            assert!(t.offset <= WINDOW);
            assert!(t.offset <= pos);
            assert!(t.length >= 1 && t.length <= t.offset);
        } else {
            assert_eq!(t.length, 0);
        }
        pos += t.length + 1;
    }
    assert_eq!(pos, s.len());
}

#[test]
fn earliest_match_is_taken_over_a_longer_closer_one() {
    let (a, z, b, q) = (0x0a0a, 0x0b0b, 0x0c0c, 0x0d0d);
    let s = vec![a, z, a, b, a, b, q];
    let ts = find_tokens(&s);
    assert_eq!(
        ts,
        vec![tok(0, 0, a), tok(0, 0, z), tok(2, 1, b), tok(4, 1, b), tok(0, 0, q)]
    );
}

#[test]
fn last_symbol_is_a_bare_literal() {
    let s = vec![5, 5];
    assert_eq!(find_tokens(&s), vec![tok(0, 0, 5), tok(0, 0, 5)]);
    let s = vec![5, 5, 6];
    assert_eq!(find_tokens(&s), vec![tok(0, 0, 5), tok(1, 1, 6)]);
}

fn words_of(ts: &[Token]) -> Vec<u16> {
    let mut w = Vec::new();
    for t in ts {
        w.push(t.offset as u16);
        w.push(t.length as u16);
        w.push(t.literal);
    }
    w
}

#[test]
fn degrouping_gives_the_same_tokens_for_any_worker_count() {
    let ts: Vec<Token> = (0..6u16).map(|i| tok(i as usize, (i * 2) as usize, 100 + i)).collect();
    let w = words_of(&ts);
    let one = drain_to_tuple_with(&w, 1).unwrap();
    let two = drain_to_tuple_with(&w, 2).unwrap();
    let three = drain_to_tuple_with(&w, 3).unwrap();
    let six = drain_to_tuple_with(&w, 6).unwrap();
    let par = par_drain_to_tuple(&w).unwrap();
    assert_eq!(one, ts);
    assert_eq!(two, ts);
    assert_eq!(three, ts);
    assert_eq!(six, ts);
    assert_eq!(par, ts);
    assert_eq!(drain_to_tuple(&w), ts);
}

#[test]
fn degrouping_rejects_irregular_streams() {
    let w: Vec<u16> = vec![0; 12];
    assert_eq!(drain_to_tuple_with(&w, 3), Err(CodecError::IrregularTokenStream));
    assert_eq!(drain_to_tuple_with(&w, 0), Err(CodecError::IrregularTokenStream));
    assert_eq!(drain_to_tuple_with(&vec![], 1), Err(CodecError::IrregularTokenStream));
    assert_eq!(par_drain_to_tuple(&vec![]), Err(CodecError::IrregularTokenStream));
    assert_eq!(par_drain_to_tuple(&vec![1, 2]), Err(CodecError::IrregularTokenStream));
}

#[test]
fn worker_count_is_the_largest_divisor_under_the_cap() {
    assert_eq!(largest_factor_under_val(6, 100), Some(6));
    assert_eq!(largest_factor_under_val(202, 100), Some(2));
    assert_eq!(largest_factor_under_val(101, 100), Some(1));
    assert_eq!(largest_factor_under_val(1000, 100), Some(100));
    assert_eq!(largest_factor_under_val(0, 100), None);
    assert_eq!(largest_factor_under_val(5, 0), None);
}

#[test]
fn self_overlapping_copy_repeats_the_run() {
    let (a, x) = (0x4141, 0x5858);
    let mut out = vec![a];
    assert_eq!(apply_token(&mut out, tok(1, 50, x)), Ok(()));
    let mut want = vec![a; 51];
    want.push(x);
    assert_eq!(out, want);
}

#[test]
fn overlapping_copy_with_a_longer_period() {
    let mut out = vec![1, 2, 3];
    assert_eq!(apply_token(&mut out, tok(2, 5, 9)), Ok(()));
    assert_eq!(out, vec![1, 2, 3, 2, 3, 2, 3, 2, 9]);
}

#[test]
fn bad_back_references_are_rejected() {
    let mut out = vec![1, 2];
    assert_eq!(apply_token(&mut out, tok(3, 1, 0)), Err(CodecError::InvalidBackReference));
    assert_eq!(apply_token(&mut out, tok(0, 2, 0)), Err(CodecError::InvalidBackReference));
    assert_eq!(out, vec![1, 2]);
    assert_eq!(reconstruct(&vec![tok(1, 1, 4)]), Err(CodecError::InvalidBackReference));
    assert_eq!(decode(&[0, 5, 0, 1, 0, 7], false), Err(CodecError::InvalidBackReference));
}

#[test]
fn one_byte_file_is_one_literal_token() {
    let s = read_u16_vec(&[0x41]);
    assert_eq!(s, vec![0x4100]);
    assert_eq!(find_tokens(&s), vec![tok(0, 0, 0x4100)]);
    let c = encode(&[0x41]).unwrap();
    assert_eq!(c, vec![0, 0, 0, 0, 0x41, 0]);
    assert_eq!(decode(&c, true).unwrap(), vec![0x41]);
}

#[test]
fn oversized_length_is_an_encoding_overflow() {
    let ts = vec![tok(0, 0, 1), tok(1, 70000, 2)];
    assert_eq!(serialize_tokens(&ts), Err(CodecError::EncodingOverflow));
    let ts = vec![tok(65536, 1, 2)];
    assert_eq!(serialize_tokens(&ts), Err(CodecError::EncodingOverflow));
    let ts = vec![tok(65535, 65535, 2)];
    assert_eq!(serialize_tokens(&ts).unwrap(), vec![0xff, 0xff, 0xff, 0xff, 0, 2]);
}

#[test]
fn malformed_container_is_rejected() {
    assert_eq!(decode(&[0, 0, 0, 0], false), Err(CodecError::MalformedContainer));
    assert_eq!(decode(&[0, 0, 0, 0, 1, 2, 3], false), Err(CodecError::MalformedContainer));
    assert_eq!(decode(&[0, 0, 0, 0, 1], false).unwrap(), vec![1, 0]);
}

#[test]
fn symbols_are_big_endian_both_ways() {
    assert_eq!(read_u16_vec(&[0x12, 0x34, 0x56]), vec![0x1234, 0x5600]);
    assert_eq!(read_u16_vec(&[]), Vec::<u16>::new());
    assert_eq!(symbols_to_bytes(&vec![0x1234, 0xabcd]), vec![0x12, 0x34, 0xab, 0xcd]);
}

#[test]
fn literal_token_helpers() {
    let t = Token::literal(7);
    assert!(t.is_literal());
    assert!(!tok(1, 1, 7).is_literal());
}

//! Tests of the bit streams and the integer codes, including a cross-check
//! against an independent bit stream implementation.

use webgraph::bit_reader::BufferedBitStreamRead;
use webgraph::bit_stream::BufferedBitStreamReader;
use webgraph::bit_writer::BufferedBitStreamWrite;
use webgraph::bits::BitOrder;
use webgraph::utils::{int2nat, nat2int, GraphError};
use webgraph::codes::{len_delta, len_gamma, len_zeta};
use webgraph::comp_flags::Code;
use webgraph::stats::best_code;
use dsi_bitstream::codes::{DeltaRead, GammaRead};
use dsi_bitstream::impls::{BufBitReader, MemWordReader};
use dsi_bitstream::traits::{BE, LE};

#[test]
fn test_signed_gap_encoding() {
    assert_eq!(nat2int(0), 0);
    assert_eq!(nat2int(1), -1);
    assert_eq!(nat2int(2), 1);
    assert_eq!(nat2int(3), -2);
    assert_eq!(nat2int(4), 2);
    for x in [0u64, 1, 2, 3, 4, 1000, u64::MAX, u64::MAX - 1] {
        assert_eq!(int2nat(nat2int(x)), x);
    }
    for x in [0i64, 1, -1, 2, -2, i64::MAX, i64::MIN] {
        assert_eq!(nat2int(int2nat(x)), x);
    }
}

#[test]
fn test_word_stream_read_bits() {
    let mut r = BufferedBitStreamReader::new(vec![0x0706050403020100u64, 0xffff]);
    for expect in [0x00u64, 0x01, 0x02, 0x03, 0x04, 0x05, 0x06, 0x07] {
        assert_eq!(r.read_bits(8).unwrap(), expect);
    }
    assert_eq!(r.read_bits(16).unwrap(), 0xffff);
    assert_eq!(r.read_bits(48).unwrap(), 0);
    assert_eq!(r.read_bits(1), Err(GraphError::BackendIo));
}

#[test]
fn test_word_stream_read_unary() {
    // bit 3 set, then bit 7 (three more zeros), then bit 64
    let mut r = BufferedBitStreamReader::new(vec![0x88u64, 0x1u64]);
    assert_eq!(r.read_unary().unwrap(), 3);
    assert_eq!(r.read_unary().unwrap(), 3);
    assert_eq!(r.read_unary().unwrap(), 56);
    assert_eq!(r.read_unary(), Err(GraphError::BackendIo));
}

fn round_trip_codes(order: BitOrder) {
    let values = [0u64, 1, 2, 3, 4, 5, 31, 32, 100, 1023, 12345, 1 << 20, (1 << 32) + 7];
    let mut w = BufferedBitStreamWrite::new(order);
    for &v in values.iter() {
        w.write_unary(v % 64).unwrap();
        w.write_gamma(v).unwrap();
        w.write_delta(v).unwrap();
        w.write_zeta(v, 3).unwrap();
        w.write_zeta(v, 2).unwrap();
        w.write_minimal_binary(v % 100, 100).unwrap();
    }
    w.flush();
    let words = w.into_words();
    let mut r = BufferedBitStreamRead::new(order, words);
    for &v in values.iter() {
        assert_eq!(r.read_unary().unwrap(), v % 64);
        assert_eq!(r.read_gamma().unwrap(), v);
        assert_eq!(r.read_delta().unwrap(), v);
        assert_eq!(r.read_zeta(3).unwrap(), v);
        assert_eq!(r.read_zeta(2).unwrap(), v);
        assert_eq!(r.read_minimal_binary(100).unwrap(), v % 100);
    }
}

#[test]
fn test_code_round_trips_m2l() {
    round_trip_codes(BitOrder::M2L);
}

#[test]
fn test_code_round_trips_l2m() {
    round_trip_codes(BitOrder::L2M);
}

#[test]
fn test_read_fragmentation() {
    // the same bits give the same values however the reads are fragmented
    let mut w = BufferedBitStreamWrite::new(BitOrder::L2M);
    w.write_bits(0xabcd, 16).unwrap();
    w.write_bits(0x1234, 16).unwrap();
    w.flush();
    let words = w.into_words();
    let mut a = BufferedBitStreamRead::new(BitOrder::L2M, words.clone());
    let whole = a.read_bits(32).unwrap();
    let mut b = BufferedBitStreamRead::new(BitOrder::L2M, words.clone());
    let mut pieces: u64 = 0;
    for k in 0..4 {
        pieces |= b.read_bits(8).unwrap() << (8 * k);
    }
    assert_eq!(whole, pieces);
    assert_eq!(whole, 0x1234abcd);
}

#[test]
fn test_seek_and_skip() {
    let mut w = BufferedBitStreamWrite::new(BitOrder::M2L);
    for v in 0..100u64 {
        w.write_gamma(v).unwrap();
    }
    w.flush();
    let words = w.into_words();
    let mut r = BufferedBitStreamRead::new(BitOrder::M2L, words);
    assert_eq!(r.read_gamma().unwrap(), 0);
    let mark = r.get_position();
    assert_eq!(r.read_gamma().unwrap(), 1);
    assert_eq!(r.read_gamma().unwrap(), 2);
    r.seek_bit(mark).unwrap();
    assert_eq!(r.read_gamma().unwrap(), 1);
    r.seek_bit(0).unwrap();
    r.skip_bits(mark).unwrap();
    assert_eq!(r.read_gamma().unwrap(), 1);
    let p = r.peek_bits(3).unwrap();
    let v = r.read_bits(3).unwrap();
    assert_eq!(p as u64, v);
}

#[test]
fn test_codes_cross_check_le() {
    // an independent reader decodes this library's little-endian stream
    let values = [0u64, 1, 2, 3, 10, 100, 1000, 123456];
    let mut w = BufferedBitStreamWrite::new(BitOrder::L2M);
    for &v in values.iter() {
        w.write_gamma(v).unwrap();
        w.write_delta(v).unwrap();
    }
    w.flush();
    let words = w.into_words();
    let mut r = BufBitReader::<LE, _>::new(MemWordReader::<u32, _>::new(words));
    for &v in values.iter() {
        assert_eq!(r.read_gamma().unwrap(), v);
        assert_eq!(r.read_delta().unwrap(), v);
    }
}

#[test]
fn test_codes_cross_check_be() {
    // an independent reader decodes this library's big-endian stream
    let values = [0u64, 1, 2, 3, 10, 100, 1000, 123456];
    let mut w = BufferedBitStreamWrite::new(BitOrder::M2L);
    for &v in values.iter() {
        w.write_gamma(v).unwrap();
        w.write_delta(v).unwrap();
    }
    w.flush();
    // this library's backing words hold the file's big-endian bytes already;
    // the independent reader expects native words and swaps them itself, so
    // hand it byte-swapped words to meet at the same byte stream
    let words: Vec<u32> = w.into_words().iter().map(|w| w.swap_bytes()).collect();
    let mut r = BufBitReader::<BE, _>::new(MemWordReader::<u32, _>::new(words));
    for &v in values.iter() {
        assert_eq!(r.read_gamma().unwrap(), v);
        assert_eq!(r.read_delta().unwrap(), v);
    }
}

#[test]
fn test_read_bits_bad_argument() {
    let mut r = BufferedBitStreamRead::new(BitOrder::M2L, vec![0u32; 4]);
    assert_eq!(r.read_bits(65).err(), Some(GraphError::BadArgument));
    assert_eq!(r.read_bits(0).unwrap(), 0);
    assert_eq!(r.peek_bits(33).err(), Some(GraphError::BadArgument));
    let mut s = BufferedBitStreamRead::new(BitOrder::L2M, vec![]);
    assert_eq!(s.read_bits(8).err(), Some(GraphError::BackendIo));
    assert_eq!(s.skip_bits(1).err(), Some(GraphError::BackendIo));
}

#[test]
fn test_code_advisory_matches_lengths() {
    let vals: Vec<u64> = vec![0, 1, 2, 3, 7, 100, 1000, 12345, 1 << 20];
    let (best, cost) = best_code(&vals);
    let total = |f: &dyn Fn(u64) -> usize| vals.iter().map(|&v| f(v) as u128).sum::<u128>();
    let tg = total(&|v| len_gamma(v));
    let td = total(&|v| len_delta(v));
    let t2 = total(&|v| len_zeta(v, 2));
    let t3 = total(&|v| len_zeta(v, 3));
    let min = tg.min(td).min(t2).min(t3);
    assert_eq!(cost, min);
    let best_total = match best {
        Code::Gamma => tg,
        Code::Delta => td,
        Code::Zeta { k: 2 } => t2,
        Code::Zeta { k: 3 } => t3,
        _ => panic!("not an advisory candidate"),
    };
    assert_eq!(best_total, min);
}

#[test]
fn test_code_advisory_all_zero() {
    // a zero costs one bit under γ and δ, so four zeros cost four bits
    let (best, cost) = best_code(&vec![0, 0, 0, 0]);
    assert_eq!(cost, 4);
    assert!(best == Code::Gamma || best == Code::Delta);
}

//! Block layout of a file.

use atp_experiment::blocks::{div_ceil, BlockInfo, Layout};
use atp_experiment::fec::{coded_symbol_size, BlockDecoder};

#[test]
fn layout_math() {
    let l = Layout::new(2_500_000, 1 << 20, 1200);
    assert_eq!(l.num_blocks, 3);
    assert_eq!(l.block_len(0), 1 << 20);
    assert_eq!(l.block_len(2), 2_500_000 - 2 * (1 << 20));
    assert_eq!(l.range(1), (1 << 20)..(2 << 20));
    assert_eq!(l.source_symbols(0), (1u64 << 20).div_ceil(1200) as u32);
}

#[test]
fn single_short_block() {
    let l = Layout::new(10, 1 << 20, 1200);
    assert_eq!(l.num_blocks, 1);
    assert_eq!(l.block_len(0), 10);
    assert_eq!(l.source_symbols(0), 1);
}

#[test]
fn blocks_cover_the_file_without_overlap() {
    let l = Layout::new(777_777, 256 * 1024, 1200);
    let mut at = 0u64;
    for b in 0..l.num_blocks {
        let r = l.range(b);
        assert_eq!(r.start, at);
        assert_eq!(r.end - r.start, l.block_len(b));
        at = r.end;
    }
    assert_eq!(at, 777_777);
    assert_eq!(l.block_len(0), 256 * 1024);
    assert_eq!(l.block_len(2), 777_777 - 2 * 256 * 1024);
}

#[test]
fn blocks_join_to_the_file() {
    let data: Vec<u8> = (0..1000u32).map(|i| (i % 251) as u8).collect();
    let l = Layout::new(1000, 64, 16);
    let mut joined: Vec<u8> = Vec::new();
    for b in 0..l.num_blocks {
        let r = l.range(b);
        joined.extend_from_slice(&data[r.start as usize..r.end as usize]);
    }
    assert_eq!(joined, data);
}

#[test]
fn last_block_may_be_full() {
    let l = Layout::new(2 << 20, 1 << 20, 1200);
    assert_eq!(l.num_blocks, 2);
    assert_eq!(l.block_len(1), 1 << 20);
}

#[test]
fn sizes_that_make_no_layout() {
    assert!(Layout::checked(0, 1, 1).is_none());
    assert!(Layout::checked(1, 0, 1).is_none());
    assert!(Layout::checked(1, 1, 0).is_none());
    assert!(Layout::checked(1 << 32, 1, 1).is_none(), "too many blocks to count");
    let l = Layout::checked((1 << 32) - 1, 1, 1).expect("just countable");
    assert_eq!(l.num_blocks, u32::MAX);
}

#[test]
fn codec_parameters_of_a_block() {
    let l = Layout::new(2_500_000, 1 << 20, 1200);
    let info = l.oti(2);
    assert_eq!(info.transfer_length, 2_500_000 - 2 * (1 << 20));
    assert_eq!(info.symbol_size, 1200);
}

#[test]
fn blocks_of_too_many_symbols_are_not_codable() {
    // 56403 source symbols are the most that one source block can have.
    assert!(Layout::new(56403 * 16, 1 << 20, 16).is_codable());
    assert!(!Layout::new(56403 * 16 + 1, 1 << 20, 16).is_codable());
    assert!(Layout::new(1 << 30, 1 << 20, 1200).is_codable());
    assert!(!Layout::new(1 << 30, 1 << 30, 1200).is_codable());
}

#[test]
fn coded_symbols_are_multiples_of_eight() {
    assert_eq!(coded_symbol_size(1200), 1200);
    assert_eq!(coded_symbol_size(1203), 1200);
    assert_eq!(coded_symbol_size(64), 64);
    assert_eq!(coded_symbol_size(63), 63);
    assert_eq!(coded_symbol_size(1), 1);
}

#[test]
fn blocks_of_too_many_source_blocks_are_not_decodable() {
    // A byte counts the source blocks: 255 of 56403 symbols are the most.
    assert!(Layout::new(1 << 30, 1 << 30, 1200).is_decodable());
    assert!(Layout::new(255 * 56403, u32::MAX, 1).is_decodable());
    assert!(!Layout::new(255 * 56403 + 1, u32::MAX, 1).is_decodable());
    assert!(Layout::new(255 * 56403 + 1, 1 << 20, 1).is_decodable());
    // 103 is rounded down to 96.
    assert!(Layout::new(255 * 56403 * 96, u32::MAX, 103).is_decodable());
    assert!(!Layout::new(255 * 56403 * 96 + 1, u32::MAX, 103).is_decodable());
}

#[test]
fn division_rounds_up() {
    assert_eq!(div_ceil(0, 7), 0);
    assert_eq!(div_ceil(14, 7), 2);
    assert_eq!(div_ceil(15, 7), 3);
    assert_eq!(div_ceil(u64::MAX, 2), 1 << 63);
    assert_eq!(div_ceil(u64::MAX, 1), u64::MAX);
}

#[test]
fn decoders_tell_what_they_cannot_take() {
    let info = |len: u64, size: u16| BlockInfo { transfer_length: len, symbol_size: size };
    assert!(BlockDecoder::new(info(255 * 56403 + 1, 1)).is_none());
    let mut d = BlockDecoder::new(info(64, 16)).expect("one source block");
    let packet = |s: u8, esi: u8, size: usize| {
        let mut p = vec![esi + 1; 4 + size];
        p[..4].copy_from_slice(&[s, 0, 0, esi]);
        p
    };
    assert!(!d.takes(&packet(1, 0, 16)), "there is no second source block");
    for esi in 0..3 {
        assert!(d.takes(&packet(0, esi, 16)));
        assert!(d.feed(&packet(0, esi, 16)).is_none());
    }
    assert!(d.takes(&packet(0, 1, 3)), "passed over, for it was there before");
    assert!(d.feed(&packet(0, 1, 3)).is_none());
    assert!(!d.takes(&packet(0, 4, 17)), "repair to be solved with");
    assert!(!d.takes(&packet(0, 3, 15)), "too short to be put in its place");
    assert!(d.takes(&packet(0, 3, 20)), "cut to length");
    let mut expected: Vec<u8> = Vec::new();
    for esi in 0..4u8 {
        expected.extend_from_slice(&[esi + 1; 16]);
    }
    assert_eq!(d.feed(&packet(0, 3, 20)), Some(expected.clone()));
    // Once it has given the object, whatever comes makes no difference.
    for p in [packet(0, 9, 1), packet(0, 0, 0), packet(0, 2, 99)] {
        assert!(d.takes(&p));
        assert_eq!(d.feed(&p), Some(expected.clone()));
    }
}

#[test]
fn decoders_of_several_source_blocks_keep_them_apart() {
    // 56403 symbols and one more make two source blocks.
    let info = BlockInfo { transfer_length: 56403 * 16 + 1, symbol_size: 16 };
    let mut d = BlockDecoder::new(info).expect("two source blocks");
    let mut packet = [0u8; 20];
    for s in [0u8, 1] {
        packet[0] = s;
        assert!(d.takes(&packet));
        assert!(d.feed(&packet).is_none());
    }
    packet[0] = 2;
    assert!(!d.takes(&packet));
}

//! Blocks, hashes and hexadecimal text.
use graph_chain_aztec::codec::{
    hash_to_b256, normalize_hex, normalize_hex_bytes, Block, BlockHash, BlockHeader, BlockPtr, BlockTime,
    HeaderOnlyBlock, PublicLog,
};

fn header(number: i64, final_block_number: i64) -> BlockHeader {
    BlockHeader {
        number,
        hash: vec![0xab; 32],
        parent_hash: vec![0xcd; 4],
        timestamp: 1_700_000_000,
        final_block_number,
    }
}

fn block(number: i64, final_block_number: i64) -> Block {
    Block { header: Some(header(number, final_block_number)), public_logs: vec![] }
}

#[test]
fn pointers_have_the_number_and_the_hash() {
    let ptr = block(7, 0).ptr();
    assert_eq!(ptr.number, 7);
    assert_eq!(ptr.hash.0, vec![0xab; 32]);
    assert_eq!(block(7, 0).number(), 7);
    assert_eq!(block(7, 0).hash(), BlockHash(vec![0xab; 32]));
    assert_eq!(block(i32::MAX as i64, 0).ptr().number, i32::MAX);
}

#[test]
fn the_parent_is_one_below() {
    let parent = block(7, 0).parent_ptr().unwrap();
    assert_eq!(parent.number, 6);
    let mut hash = vec![0; 28];
    hash.extend([0xcd; 4]);
    assert_eq!(parent.hash.0, hash);
    assert_eq!(block(i32::MAX as i64 + 1, 0).parent_ptr().unwrap().number, i32::MAX);
    assert!(block(0, 0).parent_ptr().is_none());
    assert!(block(-3, 0).parent_ptr().is_none());
    let mut orphan = header(7, 0);
    orphan.parent_hash = vec![];
    assert!(orphan.parent_ptr().is_none());
}

#[test]
fn header_only_blocks_are_like_blocks() {
    let only = HeaderOnlyBlock { header: Some(header(7, 3)) };
    assert_eq!(only.number(), 7);
    assert_eq!(only.ptr(), block(7, 3).ptr());
    assert_eq!(only.parent_ptr(), block(7, 3).parent_ptr());
    assert_eq!(only.timestamp(), block(7, 3).timestamp());
    assert_eq!(only.header().final_block_number, 3);
}

#[test]
fn times_are_to_the_second() {
    assert_eq!(block(7, 0).timestamp(), BlockTime { seconds: 1_700_000_000, nanos: 0 });
}

#[test]
fn final_numbers_are_positive_block_numbers() {
    assert_eq!(block(7, 5).final_block_number(), Some(5));
    assert_eq!(block(7, 0).final_block_number(), None);
    assert_eq!(block(7, -1).final_block_number(), None);
    assert_eq!(block(7, i32::MAX as i64).final_block_number(), Some(i32::MAX));
    assert_eq!(block(7, i32::MAX as i64 + 1).final_block_number(), None);
}

#[test]
fn hashes_have_32_bytes() {
    let long: Vec<u8> = (0..40).collect();
    assert_eq!(hash_to_b256(&long).0, (8..40).collect::<Vec<u8>>());
    let exact: Vec<u8> = (0..32).collect();
    assert_eq!(hash_to_b256(&exact).0, exact);
    let mut short = vec![0; 30];
    short.extend([1, 2]);
    assert_eq!(hash_to_b256(&[1, 2]).0, short);
    assert_eq!(hash_to_b256(&[]), BlockHash::zero());
    assert_eq!(BlockHash::zero().0, vec![0; 32]);
    assert_eq!(hash_to_b256(&hash_to_b256(&[1, 2]).0).0, short);
}

#[test]
fn hexadecimal_text_has_a_normal_form() {
    assert_eq!(normalize_hex("0xAbC"), "abc");
    assert_eq!(normalize_hex("0XABC"), "abc");
    assert_eq!(normalize_hex("abc"), "abc");
    assert_eq!(normalize_hex("0x"), "");
    assert_eq!(normalize_hex(""), "");
    assert_eq!(normalize_hex("0"), "0");
    assert_eq!(normalize_hex("0x0xAB"), "0xab");
    assert_eq!(normalize_hex("\u{c4}Z"), "\u{c4}z");
    assert_eq!(normalize_hex_bytes(&[0x00, 0x9f, 0xf0]), "009ff0");
    assert_eq!(BlockHash(vec![0xde, 0xad]).hash_hex(), "dead");
}

#[test]
fn spellings_have_one_normal_form() {
    for spelling in ["0xdeadBEEF", "0XDEADbeef", "deadbeef", "DEADBEEF"] {
        assert_eq!(normalize_hex(spelling), "deadbeef");
        assert_eq!(normalize_hex(&normalize_hex(spelling)), "deadbeef");
    }
}

#[test]
fn logs_show_their_address_and_tag() {
    let log = PublicLog {
        contract_address: vec![0x0A, 0xBC],
        tag: vec![0xFF],
        fields: vec![],
        tx_hash: vec![],
        log_index: 0,
    };
    assert_eq!(log.contract_address_hex(), "0abc");
    assert_eq!(log.tag_hex(), "ff");
}

#[test]
fn copies_are_equal() {
    let mut original = block(7, 3);
    original.public_logs.push(PublicLog {
        contract_address: vec![1],
        tag: vec![2],
        fields: vec![vec![3], vec![]],
        tx_hash: vec![4],
        log_index: 5,
    });
    assert_eq!(original.clone(), original);
    let ptr = BlockPtr { hash: BlockHash(vec![1, 2]), number: 3 };
    assert_eq!(ptr.clone(), ptr);
    assert!(ptr != BlockPtr { hash: BlockHash(vec![1, 2]), number: 4 });
    assert!(ptr != BlockPtr { hash: BlockHash(vec![1]), number: 3 });
}

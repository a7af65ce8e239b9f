//! Triggers and their order.
use graph_chain_aztec::codec::{Block, BlockHeader, PublicLog};
use graph_chain_aztec::trigger::{compare_bytes, AztecTrigger, Precedence, PublicLogTrigger};
use std::cmp::Ordering;
use std::sync::Arc;

fn block_at(number: i64, hash: u8) -> Arc<Block> {
    Arc::new(Block {
        header: Some(BlockHeader {
            number,
            hash: vec![hash; 32],
            parent_hash: vec![],
            timestamp: 0,
            final_block_number: 0,
        }),
        public_logs: vec![],
    })
}

fn log_trigger(index: u32, tx_hash: &[u8], block: Arc<Block>) -> AztecTrigger {
    AztecTrigger::PublicLog(Arc::new(PublicLogTrigger {
        log: PublicLog {
            contract_address: vec![0xc0],
            tag: vec![0x1a],
            fields: vec![vec![1, 2], vec![], vec![3]],
            tx_hash: tx_hash.to_vec(),
            log_index: index,
        },
        block,
    }))
}

#[test]
fn logs_are_handled_before_blocks() {
    let block = AztecTrigger::Block(block_at(5, 1));
    let log = log_trigger(9, &[1], block_at(5, 1));
    assert_eq!(log.cmp(&block), Ordering::Less);
    assert_eq!(block.cmp(&log), Ordering::Greater);
    assert_eq!(block.cmp(&AztecTrigger::Block(block_at(6, 2))), Ordering::Equal);
    assert_eq!(log.partial_cmp(&block), Some(Ordering::Less));
    assert!(matches!(log.precedence(&block), Precedence::Before));
}

#[test]
fn logs_go_by_index_then_by_transaction() {
    let block = block_at(5, 1);
    let a = log_trigger(1, &[9, 9], block.clone());
    let b = log_trigger(2, &[0], block.clone());
    let c = log_trigger(2, &[0, 1], block.clone());
    assert_eq!(a.cmp(&b), Ordering::Less);
    assert_eq!(b.cmp(&c), Ordering::Less);
    assert_eq!(a.cmp(&c), Ordering::Less);
    assert_eq!(c.cmp(&a), Ordering::Greater);
    assert_eq!(b.cmp(&b), Ordering::Equal);
    let mut triggers = vec![AztecTrigger::Block(block), c, b, a];
    triggers.sort_by(|x, y| x.cmp(y));
    let indexes: Vec<Option<u32>> = triggers
        .iter()
        .map(|t| match t {
            AztecTrigger::Block(_) => None,
            AztecTrigger::PublicLog(log) => Some(log.log.log_index),
        })
        .collect();
    assert_eq!(indexes, vec![Some(1), Some(2), Some(2), None]);
}

#[test]
fn bytes_are_compared_from_the_front() {
    let cases: Vec<(Vec<u8>, Vec<u8>)> = vec![
        (vec![], vec![]),
        (vec![], vec![0]),
        (vec![1, 2], vec![1, 3]),
        (vec![2], vec![1, 9]),
        (vec![1, 2], vec![1, 2]),
        (vec![1, 2, 3], vec![1, 2]),
    ];
    for (a, b) in cases {
        let expected = match a.cmp(&b) {
            Ordering::Less => Precedence::Before,
            Ordering::Equal => Precedence::Same,
            Ordering::Greater => Precedence::After,
        };
        assert_eq!(compare_bytes(&a, &b), expected);
    }
}

#[test]
fn triggers_are_one_by_block_transaction_and_index() {
    let log = log_trigger(1, &[7], block_at(5, 1));
    assert!(log.eq(&log_trigger(1, &[7], block_at(5, 1))));
    assert!(!log.eq(&log_trigger(2, &[7], block_at(5, 1))));
    assert!(!log.eq(&log_trigger(1, &[8], block_at(5, 1))));
    assert!(!log.eq(&log_trigger(1, &[7], block_at(5, 2))));
    assert!(!log.eq(&log_trigger(1, &[7], block_at(6, 1))));
    let block = AztecTrigger::Block(block_at(5, 1));
    assert!(block.eq(&AztecTrigger::Block(block_at(5, 1))));
    assert!(!block.eq(&AztecTrigger::Block(block_at(5, 2))));
    assert!(!block.eq(&log));
    assert!(!log.eq(&block));
    assert!(log.clone().eq(&log));
}

#[test]
fn triggers_have_names() {
    let hash = "01".repeat(32);
    let block = AztecTrigger::Block(block_at(5, 1));
    assert_eq!(block.error_context(), format!("Aztec block #5 (0x{})", hash));
    assert_eq!(block.debug_text(), format!("Block {{ number: 5, hash: \"{}\" }}", hash));
    let log = log_trigger(3, &[0xff], block_at(5, 1));
    assert_eq!(
        log.error_context(),
        format!("Aztec public log contract 0xc0, tag 0x1a, tx 0xff, block #5 (0x{})", hash),
    );
    assert_eq!(
        log.debug_text(),
        "PublicLog { block: 5, contract: \"c0\", tag: \"1a\", log_index: 3 }",
    );
    assert_eq!(log.block_number(), 5);
    assert_eq!(block.block_number(), 5);
    assert!(block.address_match().is_none());
}

#[test]
fn handlers_get_bytes() {
    assert_eq!(AztecTrigger::Block(block_at(5, 1)).to_bytes(), vec![1; 32]);
    assert_eq!(log_trigger(3, &[9], block_at(5, 1)).to_bytes(), vec![0xc0, 0x1a, 1, 2, 3]);
}

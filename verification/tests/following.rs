//! How the chain is followed.
use graph_chain_aztec::adapter::TriggerFilter;
use graph_chain_aztec::chain::{
    Access, AztecStreamBuilder, BlockStream, BlockStreamError, BlockStreamEvent, Chain, FinalBlock, FirehoseMapper,
    ForkStep, Ingestor, IngestorAction, IngestorReply, PointerLookup, PollingAction, PollingReply, RpcBlockIngestor,
    RpcPollingBlockStream, TriggersAdapter, POLLING_INTERVAL_SECS,
};
use graph_chain_aztec::codec::{Block, BlockHash, BlockHeader, BlockPtr, PublicLog};
use graph_chain_aztec::trigger::AztecTrigger;
use graph_chain_aztec::wire::WireError;
use std::sync::Arc;

fn log_of(contract: u8, tag: u8, index: u32) -> PublicLog {
    PublicLog {
        contract_address: vec![contract],
        tag: vec![tag],
        fields: vec![],
        tx_hash: vec![],
        log_index: index,
    }
}

fn block_of(number: i64, hash: u8, parent: u8) -> Block {
    Block {
        header: Some(BlockHeader {
            number,
            hash: vec![hash; 32],
            parent_hash: vec![parent; 32],
            timestamp: 0,
            final_block_number: 0,
        }),
        public_logs: vec![log_of(1, 1, 0), log_of(2, 1, 1), log_of(1, 2, 2), log_of(1, 1, 3)],
    }
}

fn ptr(number: i32, hash: u8) -> BlockPtr {
    BlockPtr { hash: BlockHash(vec![hash; 32]), number }
}

fn filter(every_block: bool) -> Arc<TriggerFilter> {
    let mut filter = TriggerFilter::default();
    filter.trigger_every_block = every_block;
    filter.contract_addresses.insert("01".to_string());
    filter.tags.insert("01".to_string());
    Arc::new(filter)
}

/// The indexes of the logs among the triggers; `None` stands for a block.
fn found(triggers: &[AztecTrigger]) -> Vec<Option<u32>> {
    triggers
        .iter()
        .map(|t| match t {
            AztecTrigger::Block(_) => None,
            AztecTrigger::PublicLog(log) => Some(log.log.log_index),
        })
        .collect()
}

#[test]
fn triggers_are_the_logs_that_pass_then_the_block() {
    let adapter = TriggersAdapter {};
    let block = block_of(5, 5, 4);
    let both = adapter.triggers_in_block(block.clone(), &filter(true));
    assert_eq!(found(&both.trigger_data), vec![Some(0), Some(3), None]);
    assert_eq!(both.block, block);
    for trigger in &both.trigger_data {
        assert_eq!(trigger.block_number(), 5);
    }
    for pair in both.trigger_data.windows(2) {
        assert!(pair[0].cmp(&pair[1]).is_lt());
    }
    let logs = adapter.triggers_in_block(block.clone(), &filter(false));
    assert_eq!(found(&logs.trigger_data), vec![Some(0), Some(3)]);
    let all = adapter.triggers_in_block(block, &TriggerFilter::default());
    assert_eq!(found(&all.trigger_data), vec![Some(0), Some(1), Some(2), Some(3)]);
}

#[test]
fn the_adapter_knows_the_number_of_the_parent() {
    let adapter = TriggersAdapter {};
    let parent = adapter.parent_ptr(&ptr(5, 5)).unwrap();
    assert_eq!(parent, ptr(4, 0));
    assert_eq!(adapter.parent_ptr(&ptr(i32::MIN, 5)).unwrap().number, i32::MIN);
}

fn polling(start_blocks: &[i32], current: Option<BlockPtr>) -> RpcPollingBlockStream {
    AztecStreamBuilder {}.build_polling(start_blocks.to_vec(), current, filter(true))
}

fn asked(action: PollingAction<&str>) -> Option<i32> {
    match action {
        PollingAction::AskBlock(number) => Some(number),
        PollingAction::Wait => None,
        other => panic!("{:?}", other),
    }
}

#[test]
fn streams_start_behind_what_was_reached() {
    assert_eq!(asked(polling(&[7, 3, 9], None).step(PollingReply::Latest(Ok(100)))), Some(3));
    assert_eq!(asked(polling(&[], None).step(PollingReply::Latest(Ok(100)))), Some(0));
    assert_eq!(asked(polling(&[3], Some(ptr(20, 1))).step(PollingReply::Latest(Ok(100)))), Some(21));
    let at_the_end = Some(ptr(i32::MAX, 1));
    assert_eq!(asked(polling(&[], at_the_end).step(PollingReply::Latest(Ok(i32::MAX)))), Some(i32::MAX));
}

#[test]
fn streams_wait_for_the_next_block() {
    let mut stream = polling(&[5], None);
    assert!(matches!(stream.step::<&str>(PollingReply::Ready), PollingAction::AskLatest));
    assert_eq!(asked(stream.step(PollingReply::Latest(Ok(4)))), None);
    assert!(matches!(stream.step::<&str>(PollingReply::Ready), PollingAction::AskLatest));
    assert_eq!(asked(stream.step(PollingReply::Latest(Ok(5)))), Some(5));
    assert_eq!(stream.buffer_size_hint(), 1);
    assert_eq!(POLLING_INTERVAL_SECS, 2);
}

#[test]
fn failures_are_handed_on_and_change_nothing() {
    let mut stream = polling(&[5], None);
    match stream.step(PollingReply::Latest(Err("down"))) {
        PollingAction::Yield(Err(cause)) => assert_eq!(cause, "down"),
        other => panic!("{:?}", other),
    }
    match stream.step(PollingReply::Block(Err("gone"))) {
        PollingAction::Yield(Err(cause)) => assert_eq!(cause, "gone"),
        other => panic!("{:?}", other),
    }
    assert_eq!(asked(stream.step(PollingReply::Latest(Ok(5)))), Some(5));
}

fn event(stream: &mut RpcPollingBlockStream, block: Block) -> BlockStreamEvent {
    assert!(stream.accepts(&block));
    match stream.step::<&str>(PollingReply::Block(Ok(block))) {
        PollingAction::Yield(Ok(event)) => event,
        other => panic!("{:?}", other),
    }
}

#[test]
fn blocks_are_handed_on_one_after_the_other() {
    let mut stream = polling(&[5], None);
    for number in 5..8u8 {
        assert_eq!(asked(stream.step(PollingReply::Latest(Ok(100)))), Some(number as i32));
        match event(&mut stream, block_of(number as i64, number, number - 1)) {
            BlockStreamEvent::ProcessBlock(block, None) => {
                assert_eq!(block.block.number(), number as i32);
                assert_eq!(found(&block.trigger_data), vec![Some(0), Some(3), None]);
            }
            other => panic!("{:?}", other),
        }
    }
    assert_eq!(asked(stream.step(PollingReply::Latest(Ok(100)))), Some(8));
}

#[test]
fn a_block_that_departs_takes_the_chain_back() {
    let mut stream = polling(&[], Some(ptr(5, 5)));
    // Block 6 has another parent than the block that was reached.
    match event(&mut stream, block_of(6, 6, 55)) {
        BlockStreamEvent::Revert(to, None) => assert_eq!(to, ptr(5, 55)),
        other => panic!("{:?}", other),
    }
    // It is asked for again, and now it is handed on.
    assert_eq!(asked(stream.step(PollingReply::Latest(Ok(100)))), Some(6));
    match event(&mut stream, block_of(6, 6, 55)) {
        BlockStreamEvent::ProcessBlock(block, None) => assert_eq!(block.block.ptr(), ptr(6, 6)),
        other => panic!("{:?}", other),
    }
    assert_eq!(asked(stream.step(PollingReply::Latest(Ok(100)))), Some(7));
}

#[test]
fn a_block_without_a_parent_is_handed_on() {
    let mut stream = polling(&[], Some(ptr(5, 5)));
    let mut orphan = block_of(6, 6, 1);
    orphan.header.as_mut().unwrap().parent_hash = vec![];
    assert!(matches!(event(&mut stream, orphan), BlockStreamEvent::ProcessBlock(_, None)));
}

#[test]
fn blocks_that_cannot_be_followed_are_told_apart() {
    let stream = polling(&[], Some(ptr(5, 5)));
    assert!(stream.accepts(&block_of(6, 6, 5)));
    assert!(!stream.accepts(&Block { header: None, public_logs: vec![] }));
    assert!(!stream.accepts(&block_of(-1, 6, 5)));
    assert!(!stream.accepts(&block_of(i32::MAX as i64 + 2, 6, 5)));
    // Its parent is in range, and it departs: the chain goes back.
    assert!(stream.accepts(&block_of(i32::MAX as i64 + 1, 6, 5)));
    assert!(!polling(&[], None).accepts(&block_of(i32::MAX as i64 + 1, 6, 5)));
}

fn mapper() -> FirehoseMapper {
    AztecStreamBuilder {}.build_firehose(filter(true))
}

/// A block with number 6, hash [6] and parent hash [5], as it is sent.
fn payload() -> Vec<u8> {
    vec![0x0a, 0x08, 0x08, 0x06, 0x12, 0x01, 0x06, 0x1a, 0x01, 0x05]
}

#[test]
fn new_blocks_are_processed() {
    match mapper().to_block_stream_event(1, Some(&payload()), "c1".to_string()) {
        Ok(BlockStreamEvent::ProcessBlock(block, cursor)) => {
            assert_eq!(block.block.number(), 6);
            assert_eq!(found(&block.trigger_data), vec![None]);
            assert_eq!(cursor, Some("c1".to_string()));
        }
        other => panic!("{:?}", other),
    }
    assert!(mapper().trigger_filter().trigger_every_block);
}

#[test]
fn undone_blocks_take_the_chain_back() {
    match mapper().to_block_stream_event(2, Some(&payload()), "c2".to_string()) {
        Ok(BlockStreamEvent::Revert(to, cursor)) => {
            assert_eq!(to.number, 5);
            assert_eq!(to.hash.0[31], 5);
            assert_eq!(cursor, Some("c2".to_string()));
        }
        other => panic!("{:?}", other),
    }
}

#[test]
fn both_streams_tell_the_same() {
    let block = block_of(6, 6, 5);
    let mut stream = polling(&[], Some(ptr(5, 5)));
    let polled = event(&mut stream, block.clone());
    let sent = mapper().event_for(ForkStep::StepNew, block.clone(), "c".to_string());
    match (polled, sent) {
        (BlockStreamEvent::ProcessBlock(a, None), BlockStreamEvent::ProcessBlock(b, Some(_))) => {
            assert_eq!(a.block, b.block);
            assert_eq!(found(&a.trigger_data), found(&b.trigger_data));
        }
        other => panic!("{:?}", other),
    }
    let mut stream = polling(&[], Some(ptr(5, 9)));
    let polled = event(&mut stream, block.clone());
    let sent = mapper().event_for(ForkStep::StepUndo, block, "c".to_string());
    match (polled, sent) {
        (BlockStreamEvent::Revert(a, None), BlockStreamEvent::Revert(b, Some(_))) => assert_eq!(a, b),
        other => panic!("{:?}", other),
    }
}

#[test]
fn responses_need_a_block() {
    assert_eq!(mapper().decode_block(None).err(), Some(BlockStreamError::MissingBlock));
    assert_eq!(
        mapper().decode_block(Some(&[0x00])).err(),
        Some(BlockStreamError::Decode(WireError::InvalidTag)),
    );
    assert_eq!(mapper().decode_block(Some(&payload())).unwrap().unwrap().number(), 6);
    assert_eq!(mapper().decode_block(Some(&[])).unwrap(), Some(Block { header: None, public_logs: vec![] }));
    assert_eq!(
        mapper().to_block_stream_event(1, Some(&[0x80]), String::new()).err(),
        Some(BlockStreamError::Decode(WireError::InvalidVarint)),
    );
    let triggers = mapper().block_with_triggers(block_of(5, 5, 4)).trigger_data;
    assert_eq!(found(&triggers), vec![Some(0), Some(3), None]);
}

#[test]
fn steps_have_numbers() {
    assert_eq!(ForkStep::from_number(0), Some(ForkStep::StepUnset));
    assert_eq!(ForkStep::from_number(1), Some(ForkStep::StepNew));
    assert_eq!(ForkStep::from_number(2), Some(ForkStep::StepUndo));
    assert_eq!(ForkStep::from_number(3), Some(ForkStep::StepFinal));
    assert_eq!(ForkStep::from_number(4), None);
    assert_eq!(ForkStep::from_number(-1), None);
}

#[test]
fn the_final_block_is_known_or_looked_up() {
    let mut block = block_of(6, 6, 5);
    match mapper().final_block_ptr_for(&block) {
        FinalBlock::Known(known) => assert_eq!(known, ptr(6, 6)),
        other => panic!("{:?}", other),
    }
    block.header.as_mut().unwrap().final_block_number = 2;
    match mapper().final_block_ptr_for(&block) {
        FinalBlock::Lookup(number) => assert_eq!(number, 2),
        other => panic!("{:?}", other),
    }
}

#[test]
fn the_head_is_stored_with_its_number() {
    let mut ingestor = RpcBlockIngestor::new();
    assert!(matches!(ingestor.step::<&str>(IngestorReply::Ready), IngestorAction::AskLatest));
    match ingestor.step::<&str>(IngestorReply::Latest(Ok(42))) {
        IngestorAction::AskBlock(number) => assert_eq!(number, 42),
        other => panic!("{:?}", other),
    }
    match ingestor.step::<&str>(IngestorReply::Block(Ok(block_of(42, 1, 2)))) {
        IngestorAction::SetChainHead(head, cursor) => {
            assert_eq!(head, block_of(42, 1, 2));
            assert_eq!(cursor, "42");
        }
        other => panic!("{:?}", other),
    }
    assert!(matches!(ingestor.step::<&str>(IngestorReply::Stored(Ok(()))), IngestorAction::Wait));
    for reply in [
        IngestorReply::Latest(Err("down")),
        IngestorReply::Block(Err("down")),
        IngestorReply::Stored(Err("down")),
    ] {
        match ingestor.step(reply) {
            IngestorAction::Report(cause) => assert_eq!(cause, "down"),
            other => panic!("{:?}", other),
        }
        assert!(matches!(ingestor.step::<&str>(IngestorReply::Reported), IngestorAction::Wait));
    }
}

#[test]
fn the_chain_is_followed_as_it_is_reached() {
    let firehose = Chain::new("testnet".to_string(), Access::Firehose);
    let rpc = Chain::new("testnet".to_string(), Access::Rpc);
    assert!(matches!(firehose.new_block_stream(vec![], None, filter(true)), BlockStream::Firehose(_)));
    match rpc.new_block_stream(vec![4, 2], None, filter(true)) {
        BlockStream::Polling(mut stream) => {
            assert_eq!(asked(stream.step(PollingReply::Latest(Ok(9)))), Some(2));
        }
        other => panic!("{:?}", other),
    }
    assert_eq!(firehose.block_pointer_from_number(3), PointerLookup::Firehose(3));
    assert_eq!(rpc.block_pointer_from_number(3), PointerLookup::Rpc(3));
    assert!(matches!(firehose.block_ingestor(), Ingestor::Firehose));
    assert!(matches!(rpc.block_ingestor(), Ingestor::Rpc(_)));
    assert!(!rpc.is_refetch_block_required());
    let triggers = rpc.triggers_adapter().triggers_in_block(block_of(5, 5, 4), &filter(false)).trigger_data;
    assert_eq!(found(&triggers), vec![Some(0), Some(3)]);
    assert_eq!(rpc.name, "testnet");
}

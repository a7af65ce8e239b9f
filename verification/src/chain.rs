//! How the chain is followed: the triggers in a block, and the events that
//! blocks bring about, whether they are polled over JSON-RPC or come from
//! Firehose.
use std::sync::Arc;
use vstd::prelude::*;
use crate::adapter::{law_wanted_blocks_pass, law_wanted_logs_pass, FilterView, TriggerFilter};
use crate::codec::{log_views, ptr_view, word, zeros, Block, BlockHash, BlockNumber, BlockPtr, BlockView, LogView, PtrView};
use crate::data_source::{faults, DataSourceView, ValidationView};
use crate::hexadecimal::hex_text;
use crate::text::{decimal, decimal_text, i64_text, law_decimal_read_back};
use crate::trigger::{share, AztecTrigger, PublicLogTrigger, TriggerView};
use crate::wire::{block_of, WireError};

verus! {

/// How long to wait between two questions to the node, in seconds.
pub const POLLING_INTERVAL_SECS: u64 = 2;

/// `n` and one more, but never more than a block number can be.
pub open spec fn next_number(n: BlockNumber) -> BlockNumber {
    if n == i32::MAX {
        n
    } else {
        (n + 1) as i32
    }
}

fn number_after(n: BlockNumber) -> (r: BlockNumber)
    ensures
        r == next_number(n),
{
    if n == 0x7fff_ffff {
        n
    } else {
        n + 1
    }
}

/// A block with the triggers in it, in the order in which they were found.
#[derive(Debug)]
pub struct BlockWithTriggers {
    pub block: Block,
    pub trigger_data: Vec<AztecTrigger>,
}

/// The mathematical model of a `BlockWithTriggers`.
pub struct TriggeredView {
    pub block: BlockView,
    pub triggers: Seq<TriggerView>,
}

/// The models of `triggers`, in order.
pub open spec fn trigger_views(triggers: Seq<AztecTrigger>) -> Seq<TriggerView> {
    triggers.map_values(|t: AztecTrigger| t@)
}

impl View for BlockWithTriggers {
    type V = TriggeredView;

    open spec fn view(&self) -> TriggeredView {
        TriggeredView { block: self.block@, triggers: trigger_views(self.trigger_data@) }
    }
}

/// The triggers for those of `logs` that pass `filter`, in order.
pub open spec fn log_triggers(logs: Seq<LogView>, block: BlockView, filter: FilterView) -> Seq<TriggerView> {
    logs.filter(|log: LogView| filter.admits_log(log)).map_values(
        |log: LogView| TriggerView::PublicLog(log, block),
    )
}

/// The triggers in `block`: one for each log that passes `filter`, in order,
/// then one for the block itself where every block counts.
pub open spec fn block_triggers(block: BlockView, filter: FilterView) -> Seq<TriggerView> {
    log_triggers(block.public_logs, block, filter) + if filter.trigger_every_block {
        seq![TriggerView::Block(block)]
    } else {
        Seq::empty()
    }
}

/// `block` with the triggers in it.
pub open spec fn triggered(block: BlockView, filter: FilterView) -> TriggeredView {
    TriggeredView { block, triggers: block_triggers(block, filter) }
}

/// The pointer one below `ptr`, with a hash that is not known.
pub open spec fn below(ptr: PtrView) -> PtrView {
    PtrView {
        hash: zeros(32),
        number: if ptr.number == i32::MIN {
            ptr.number
        } else {
            (ptr.number - 1) as i32
        },
    }
}

/// What finds the triggers in blocks.
#[derive(Clone, Copy, Debug)]
pub struct TriggersAdapter {}

impl TriggersAdapter {
    /// `block` with the triggers in it: one for each log that passes `filter`,
    /// in order, then one for the block itself where every block counts.
    pub fn triggers_in_block(&self, block: Block, filter: &TriggerFilter) -> (r: BlockWithTriggers)
        ensures
            r@ == triggered(block@, filter@),
            r.block == block,
    {
        let shared_block = Arc::new(block.clone());
        let ghost logs = block@.public_logs;
        let mut trigger_data: Vec<AztecTrigger> = Vec::new();
        let mut i: usize = 0;
        proof {
            reveal(Seq::filter);
            assert(trigger_views(trigger_data@) =~= log_triggers(logs.take(0), block@, filter@));
        }
        while i < block.public_logs.len()
            invariant
                i <= block.public_logs@.len(),
                logs == log_views(block.public_logs@),
                (*shared_block)@ == block@,
                trigger_views(trigger_data@) == log_triggers(logs.take(i as int), block@, filter@),
            decreases block.public_logs@.len() - i,
        {
            let log = &block.public_logs[i];
            proof {
                reveal(Seq::filter);
                assert(logs.take(i + 1).drop_last() == logs.take(i as int));
                assert(logs.take(i + 1).last() == log@);
            }
            let ghost before = trigger_data@;
            if filter.matches_public_log(
                log.contract_address_hex().as_str(),
                log.tag_hex().as_str(),
            ) {
                let trigger = PublicLogTrigger { log: log.clone(), block: share(&shared_block) };
                trigger_data.push(AztecTrigger::PublicLog(Arc::new(trigger)));
                assert(trigger_views(trigger_data@) =~= trigger_views(before).push(
                    TriggerView::PublicLog(log@, block@),
                ));
            }
            assert(trigger_views(trigger_data@) =~= log_triggers(logs.take(i + 1), block@, filter@));
            i += 1;
        }
        assert(logs.take(i as int) == logs);
        let ghost found = trigger_data@;
        if filter.trigger_every_block {
            trigger_data.push(AztecTrigger::Block(shared_block));
            assert(trigger_views(trigger_data@) =~= trigger_views(found).push(
                TriggerView::Block(block@),
            ));
        }
        assert(trigger_views(trigger_data@) =~= block_triggers(block@, filter@));
        BlockWithTriggers { block, trigger_data }
    }

    /// The block one below `block`, whose hash is not known here.
    pub fn parent_ptr(&self, block: &BlockPtr) -> (r: Option<BlockPtr>)
        ensures
            ptr_view(r) == Some(
                PtrView {
                    hash: zeros(32),
                    number: if block.number == i32::MIN {
                        block.number
                    } else {
                        (block.number - 1) as i32
                    },
                },
            ),
            ptr_view(r) == Some(below(block@)),
    {
        let number = if block.number == -0x8000_0000 {
            block.number
        } else {
            block.number - 1
        };
        Some(BlockPtr { hash: BlockHash::zero(), number })
    }
}

/// What happened on the chain.
#[derive(Debug)]
pub enum BlockStreamEvent {
    /// The chain goes on from this block: what came after it is void.
    Revert(BlockPtr, Option<String>),
    /// This block was added.
    ProcessBlock(BlockWithTriggers, Option<String>),
}

/// The mathematical model of a `BlockStreamEvent`.
pub enum EventView {
    Revert(PtrView, Option<Seq<char>>),
    ProcessBlock(TriggeredView, Option<Seq<char>>),
}

/// The model of a cursor.
pub open spec fn cursor_view(cursor: Option<String>) -> Option<Seq<char>> {
    match cursor {
        Some(c) => Some(c@),
        None => None,
    }
}

impl View for BlockStreamEvent {
    type V = EventView;

    open spec fn view(&self) -> EventView {
        match self {
            BlockStreamEvent::Revert(ptr, cursor) => EventView::Revert(ptr@, cursor_view(*cursor)),
            BlockStreamEvent::ProcessBlock(block, cursor) => EventView::ProcessBlock(
                block@,
                cursor_view(*cursor),
            ),
        }
    }
}

/// What is known while the chain is polled: the block to ask for next and the
/// block that was reached.
#[derive(Debug)]
pub struct RpcPollingState {
    pub adapter: TriggersAdapter,
    pub filter: Arc<TriggerFilter>,
    pub next_block: BlockNumber,
    pub current_block: Option<BlockPtr>,
}

/// The mathematical model of an `RpcPollingState`.
pub struct PollingView {
    pub filter: FilterView,
    pub next_block: BlockNumber,
    pub current_block: Option<PtrView>,
}

impl View for RpcPollingState {
    type V = PollingView;

    open spec fn view(&self) -> PollingView {
        PollingView {
            filter: (*self.filter)@,
            next_block: self.next_block,
            current_block: ptr_view(self.current_block),
        }
    }
}

impl PollingView {
    /// Whether `block` does not go on from the block that was reached: both
    /// that and the parent of `block` are known, and they differ.
    pub open spec fn departs(self, block: BlockView) -> bool {
        &&& self.current_block is Some
        &&& block.header->0.parent_ptr() is Some
        &&& self.current_block != block.header->0.parent_ptr()
    }

    /// The block to ask for, where `latest` is the last one that there is.
    pub open spec fn wanted(self, latest: BlockNumber) -> Option<BlockNumber> {
        if self.next_block > latest {
            None
        } else {
            Some(self.next_block)
        }
    }

    /// Whether `block` has what is needed to follow it: a header with numbers
    /// in range.
    pub open spec fn accepts(self, block: BlockView) -> bool {
        &&& block.header is Some
        &&& block.header->0.parent_fits()
        &&& self.departs(block) || block.located()
    }

    /// The block that is reached by `block`: its parent where it departs from
    /// what was reached, else itself.
    pub open spec fn reached(self, block: BlockView) -> PtrView {
        if self.departs(block) {
            block.header->0.parent_ptr()->0
        } else {
            block.ptr()
        }
    }

    /// What is known after `block`.
    pub open spec fn after(self, block: BlockView) -> PollingView {
        PollingView {
            filter: self.filter,
            next_block: next_number(self.reached(block).number),
            current_block: Some(self.reached(block)),
        }
    }

    /// What `block` brings about.
    pub open spec fn event(self, block: BlockView) -> EventView {
        if self.departs(block) {
            EventView::Revert(self.reached(block), None)
        } else {
            EventView::ProcessBlock(triggered(block, self.filter), None)
        }
    }
}

impl RpcPollingState {
    /// The block to ask for, given the `latest` one that there is: none before
    /// the next one is there.
    pub fn block_to_fetch(&self, latest: BlockNumber) -> (r: Option<BlockNumber>)
        ensures
            r == (if self@.next_block > latest {
                None
            } else {
                Some(self@.next_block)
            }),
            r == self@.wanted(latest),
    {
        if self.next_block > latest {
            None
        } else {
            Some(self.next_block)
        }
    }

    /// What the block that was asked for brings about. One that does not go on
    /// from the block that was reached takes the chain back to its parent.
    pub fn next_event(&mut self, block: Block) -> (r: BlockStreamEvent)
        requires
            old(self)@.accepts(block@),
        ensures
            r@ == old(self)@.event(block@),
            final(self)@ == old(self)@.after(block@),
    {
        let parent_ptr = block.parent_ptr();
        match (&self.current_block, parent_ptr) {
            (Some(current), Some(parent)) => {
                if !(*current == parent) {
                    self.next_block = number_after(parent.number);
                    self.current_block = Some(parent.clone());
                    return BlockStreamEvent::Revert(parent, None);
                }
            },
            _ => {},
        }
        self.next_block = number_after(block.number());
        self.current_block = Some(block.ptr());
        let block_with_triggers = self.adapter.triggers_in_block(block, &self.filter);
        BlockStreamEvent::ProcessBlock(block_with_triggers, None)
    }
}

/// What came of the last thing to do while the chain is polled.
#[derive(Debug)]
pub enum PollingReply<E> {
    /// There was nothing to do yet, or the wait is over, or the last event was
    /// taken.
    Ready,
    /// The number of the latest block.
    Latest(Result<BlockNumber, E>),
    /// The block that was asked for.
    Block(Result<Block, E>),
}

/// What to do next while the chain is polled.
#[derive(Debug)]
pub enum PollingAction<E> {
    /// Ask for the number of the latest block.
    AskLatest,
    /// Ask for the block with this number.
    AskBlock(BlockNumber),
    /// Wait for the polling interval.
    Wait,
    /// Hand this event or this failure on.
    Yield(Result<BlockStreamEvent, E>),
}

/// Whether `action` is what a stream does after `reply`.
pub open spec fn polling_answers<E>(
    state: PollingView,
    reply: PollingReply<E>,
    action: PollingAction<E>,
) -> bool {
    match reply {
        PollingReply::Ready => action is AskLatest,
        PollingReply::Latest(Ok(latest)) => match state.wanted(latest) {
            Some(number) => action == PollingAction::<E>::AskBlock(number),
            None => action is Wait,
        },
        PollingReply::Block(Ok(block)) => {
            &&& action matches PollingAction::Yield(Ok(event))
            &&& event@ == state.event(block@)
        },
        PollingReply::Latest(Err(e)) => action == PollingAction::Yield(Err(e)),
        PollingReply::Block(Err(e)) => action == PollingAction::Yield(Err(e)),
    }
}

/// What a stream knows after `reply`.
pub open spec fn polling_after<E>(state: PollingView, reply: PollingReply<E>) -> PollingView {
    match reply {
        PollingReply::Block(Ok(block)) => state.after(block@),
        _ => state,
    }
}

/// The stream of the events on a chain that is polled.
#[derive(Debug)]
pub struct RpcPollingBlockStream {
    state: RpcPollingState,
}

impl View for RpcPollingBlockStream {
    type V = PollingView;

    closed spec fn view(&self) -> PollingView {
        self.state@
    }
}

impl RpcPollingBlockStream {
    /// The stream from block `next_block` on, with `current_block` reached.
    pub fn new(
        adapter: TriggersAdapter,
        filter: Arc<TriggerFilter>,
        next_block: BlockNumber,
        current_block: Option<BlockPtr>,
    ) -> (r: Self)
        ensures
            r@ == (PollingView {
                filter: (*filter)@,
                next_block,
                current_block: ptr_view(current_block),
            }),
    {
        RpcPollingBlockStream { state: RpcPollingState { adapter, filter, next_block, current_block } }
    }

    /// Whether `block` has what is needed to follow it.
    pub fn accepts(&self, block: &Block) -> (r: bool)
        ensures
            r == self@.accepts(block@),
    {
        match &block.header {
            None => false,
            Some(header) => {
                let named = header.number > 0 && header.parent_hash.len() > 0;
                if named && header.number - 1 > 0x7fff_ffff {
                    return false;
                }
                let located = 0 <= header.number && header.number <= 0x7fff_ffff;
                match (&self.state.current_block, header.parent_ptr()) {
                    (Some(current), Some(parent)) => located || !(*current == parent),
                    _ => located,
                }
            },
        }
    }

    /// What to do next. The latest block is asked for first, then the next one
    /// in the stream once it is there. A failure is handed on and changes
    /// nothing.
    pub fn step<E>(&mut self, reply: PollingReply<E>) -> (r: PollingAction<E>)
        requires
            reply matches PollingReply::Block(Ok(block)) ==> old(self)@.accepts(block@),
        ensures
            match reply {
                PollingReply::Ready => r is AskLatest,
                PollingReply::Latest(Err(e)) => r == PollingAction::Yield(Err(e)),
                PollingReply::Latest(Ok(latest)) => if old(self)@.next_block > latest {
                    r is Wait
                } else {
                    r == PollingAction::<E>::AskBlock(old(self)@.next_block)
                },
                PollingReply::Block(Err(e)) => r == PollingAction::Yield(Err(e)),
                PollingReply::Block(Ok(block)) => {
                    &&& r matches PollingAction::Yield(Ok(event))
                    &&& event@ == old(self)@.event(block@)
                },
            },
            final(self)@ == (match reply {
                PollingReply::Block(Ok(block)) => old(self)@.after(block@),
                _ => old(self)@,
            }),
            polling_answers(old(self)@, reply, r),
            final(self)@ == polling_after(old(self)@, reply),
    {
        match reply {
            PollingReply::Ready => PollingAction::AskLatest,
            PollingReply::Latest(Ok(latest)) => match self.state.block_to_fetch(latest) {
                Some(number) => PollingAction::AskBlock(number),
                None => PollingAction::Wait,
            },
            PollingReply::Block(Ok(block)) => PollingAction::Yield(Ok(self.state.next_event(block))),
            PollingReply::Latest(Err(e)) => PollingAction::Yield(Err(e)),
            PollingReply::Block(Err(e)) => PollingAction::Yield(Err(e)),
        }
    }

    /// How many events are worth keeping ready.
    pub fn buffer_size_hint(&self) -> (r: usize)
        ensures
            r == 1,
    {
        1
    }
}

/// The lowest of `numbers`.
pub open spec fn lowest(numbers: Seq<BlockNumber>) -> BlockNumber
    decreases numbers.len(),
{
    if numbers.len() <= 1 {
        numbers[0]
    } else if lowest(numbers.drop_last()) <= numbers.last() {
        lowest(numbers.drop_last())
    } else {
        numbers.last()
    }
}

/// Where a stream starts: behind the block that was reached, else at the
/// lowest of the blocks that the data sources start at, else at the first.
pub open spec fn start_number(start_blocks: Seq<BlockNumber>, current: Option<PtrView>) -> BlockNumber {
    match current {
        Some(ptr) => next_number(ptr.number),
        None => if start_blocks.len() > 0 {
            lowest(start_blocks)
        } else {
            0
        },
    }
}

fn lowest_of(numbers: &Vec<BlockNumber>) -> (r: Option<BlockNumber>)
    ensures
        r == (if numbers@.len() > 0 {
            Some(lowest(numbers@))
        } else {
            None
        }),
{
    if numbers.len() == 0 {
        return None;
    }
    let mut least: BlockNumber = numbers[0];
    let mut i: usize = 1;
    assert(numbers@.take(1)[0] == numbers@[0]);
    while i < numbers.len()
        invariant
            1 <= i <= numbers@.len(),
            least == lowest(numbers@.take(i as int)),
        decreases numbers@.len() - i,
    {
        proof {
            assert(numbers@.take(i + 1).drop_last() == numbers@.take(i as int));
            assert(numbers@.take(i + 1).last() == numbers@[i as int]);
        }
        if numbers[i] < least {
            least = numbers[i];
        }
        i += 1;
    }
    assert(numbers@.take(i as int) == numbers@);
    Some(least)
}

/// What sets up the streams.
#[derive(Clone, Copy, Debug)]
pub struct AztecStreamBuilder {}

impl AztecStreamBuilder {
    /// The stream of the events on a chain that is polled, from behind
    /// `subgraph_current_block` on, else from the lowest of `start_blocks`,
    /// else from the first block.
    pub fn build_polling(
        &self,
        start_blocks: Vec<BlockNumber>,
        subgraph_current_block: Option<BlockPtr>,
        filter: Arc<TriggerFilter>,
    ) -> (r: RpcPollingBlockStream)
        ensures
            r@ == (PollingView {
                filter: (*filter)@,
                next_block: start_number(start_blocks@, ptr_view(subgraph_current_block)),
                current_block: ptr_view(subgraph_current_block),
            }),
    {
        let start_block: BlockNumber = match &subgraph_current_block {
            Some(ptr) => number_after(ptr.number),
            None => match lowest_of(&start_blocks) {
                Some(number) => number,
                None => 0,
            },
        };
        RpcPollingBlockStream::new(TriggersAdapter {  }, filter, start_block, subgraph_current_block)
    }

    /// What turns the responses of a Firehose endpoint into events.
    pub fn build_firehose(&self, filter: Arc<TriggerFilter>) -> (r: FirehoseMapper)
        ensures
            r@ == (*filter)@,
    {
        FirehoseMapper { adapter: TriggersAdapter {  }, filter }
    }
}

/// What turns the responses of a Firehose endpoint into events.
#[derive(Debug)]
pub struct FirehoseMapper {
    pub adapter: TriggersAdapter,
    pub filter: Arc<TriggerFilter>,
}

impl View for FirehoseMapper {
    type V = FilterView;

    open spec fn view(&self) -> FilterView {
        (*self.filter)@
    }
}

/// What a response says of its block.
#[derive(Clone, Copy, Debug, PartialEq, Eq, Structural)]
pub enum ForkStep {
    /// Nothing.
    StepUnset,
    /// It was added to the chain.
    StepNew,
    /// It was taken off the chain.
    StepUndo,
    /// It is final.
    StepFinal,
}

/// The step with the number `n`.
pub open spec fn step_of(n: i32) -> Option<ForkStep> {
    if n == 0 {
        Some(ForkStep::StepUnset)
    } else if n == 1 {
        Some(ForkStep::StepNew)
    } else if n == 2 {
        Some(ForkStep::StepUndo)
    } else if n == 3 {
        Some(ForkStep::StepFinal)
    } else {
        None
    }
}

impl ForkStep {
    /// The step with the number `n`.
    pub fn from_number(n: i32) -> (r: Option<ForkStep>)
        ensures
            r == step_of(n),
    {
        match n {
            0 => Some(ForkStep::StepUnset),
            1 => Some(ForkStep::StepNew),
            2 => Some(ForkStep::StepUndo),
            3 => Some(ForkStep::StepFinal),
            _ => None,
        }
    }
}

/// Why a response holds no block.
#[derive(Clone, Copy, Debug, PartialEq, Eq)]
pub enum BlockStreamError {
    /// There is nothing in it.
    MissingBlock,
    /// What is in it is none.
    Decode(WireError),
}

/// The block that a response holds.
pub open spec fn response_block(output: Option<Seq<u8>>) -> Result<BlockView, BlockStreamError> {
    match output {
        None => Err(BlockStreamError::MissingBlock),
        Some(bytes) => match block_of(bytes) {
            Ok(block) => Ok(block),
            Err(e) => Err(BlockStreamError::Decode(e)),
        },
    }
}

/// The model of a payload.
pub open spec fn payload_view(output: Option<&[u8]>) -> Option<Seq<u8>> {
    match output {
        Some(bytes) => Some(bytes@),
        None => None,
    }
}

/// Whether a response with `step` and `block` stands for an event: the block
/// is added, or it is taken off and has a parent.
pub open spec fn stands_for_event(step: ForkStep, block: BlockView) -> bool {
    match step {
        ForkStep::StepNew => true,
        ForkStep::StepUndo => {
            &&& block.header is Some
            &&& block.header->0.has_parent()
            &&& block.header->0.parent_fits()
        },
        _ => false,
    }
}

/// The event that a response with `step`, `block` and `cursor` stands for.
pub open spec fn firehose_event(
    step: ForkStep,
    block: BlockView,
    filter: FilterView,
    cursor: Seq<char>,
) -> EventView {
    if step is StepUndo {
        EventView::Revert(block.header->0.parent_ptr()->0, Some(cursor))
    } else {
        EventView::ProcessBlock(triggered(block, filter), Some(cursor))
    }
}

impl FirehoseMapper {
    /// The block that a response holds.
    pub fn decode_block(&self, output: Option<&[u8]>) -> (r: Result<Option<Block>, BlockStreamError>)
        ensures
            match r {
                Ok(Some(block)) => response_block(payload_view(output)) == Ok::<
                    BlockView,
                    BlockStreamError,
                >(block@),
                Ok(None) => false,
                Err(e) => response_block(payload_view(output)) == Err::<BlockView, BlockStreamError>(e),
            },
    {
        match output {
            None => Err(BlockStreamError::MissingBlock),
            Some(bytes) => match Block::decode(bytes) {
                Ok(block) => Ok(Some(block)),
                Err(e) => Err(BlockStreamError::Decode(e)),
            },
        }
    }

    /// `block` with the triggers in it that pass the filter.
    pub fn block_with_triggers(&self, block: Block) -> (r: BlockWithTriggers)
        ensures
            r@ == triggered(block@, self@),
            r.block == block,
    {
        self.adapter.triggers_in_block(block, &self.filter)
    }

    /// The filter that triggers have to pass.
    pub fn trigger_filter(&self) -> (r: &TriggerFilter)
        ensures
            r@ == self@,
    {
        &self.filter
    }

    /// The event that a response with `step`, `block` and `cursor` stands for.
    pub fn event_for(&self, step: ForkStep, block: Block, cursor: String) -> (r: BlockStreamEvent)
        requires
            stands_for_event(step, block@),
        ensures
            r@ == firehose_event(step, block@, self@, cursor@),
    {
        if step == ForkStep::StepUndo {
            let parent_ptr = block.parent_ptr().expect("Aztec genesis block should never be reverted");
            BlockStreamEvent::Revert(parent_ptr, Some(cursor))
        } else {
            BlockStreamEvent::ProcessBlock(self.block_with_triggers(block), Some(cursor))
        }
    }

    /// The event that a response stands for: its step by its number, its block
    /// as bytes, its cursor.
    pub fn to_block_stream_event(&self, step: i32, block: Option<&[u8]>, cursor: String) -> (r: Result<
        BlockStreamEvent,
        BlockStreamError,
    >)
        requires
            step_of(step) is Some,
            block is Some,
            response_block(payload_view(block)) matches Ok(b) ==> stands_for_event(step_of(step)->0, b),
        ensures
            match r {
                Ok(event) => {
                    &&& response_block(payload_view(block)) is Ok
                    &&& event@ == firehose_event(
                        step_of(step)->0,
                        response_block(payload_view(block))->Ok_0,
                        self@,
                        cursor@,
                    )
                },
                Err(e) => response_block(payload_view(block)) == Err::<BlockView, BlockStreamError>(e),
            },
    {
        let step = ForkStep::from_number(step).expect("unknown Firehose fork step");
        match self.decode_block(block) {
            Err(e) => Err(e),
            Ok(block) => {
                let block = block.expect("a block that was decoded is there");
                Ok(self.event_for(step, block, cursor))
            },
        }
    }

    /// Where the pointer to the last final block is to be had, as `block` has it.
    pub fn final_block_ptr_for(&self, block: &Block) -> (r: FinalBlock)
        requires
            block.header is Some,
            block@.header->0.final_number() is None ==> block@.located(),
        ensures
            match r {
                FinalBlock::Lookup(number) => block@.header->0.final_number() == Some(number),
                FinalBlock::Known(ptr) => block@.header->0.final_number() is None && ptr@
                    == block@.ptr(),
            },
    {
        match block.final_block_number() {
            Some(number) => FinalBlock::Lookup(number),
            None => FinalBlock::Known(block.ptr()),
        }
    }
}

/// Where the pointer to the last final block is to be had.
#[derive(Debug)]
pub enum FinalBlock {
    /// It is that to the block with this number.
    Lookup(BlockNumber),
    /// It is this one.
    Known(BlockPtr),
}

/// What came of the last thing to do while the head of the chain is kept.
#[derive(Debug)]
pub enum IngestorReply<E> {
    /// There was nothing to do yet, or the wait is over.
    Ready,
    /// The number of the latest block.
    Latest(Result<BlockNumber, E>),
    /// The latest block.
    Block(Result<Block, E>),
    /// The head was stored.
    Stored(Result<(), E>),
    /// The failure was reported.
    Reported,
}

/// What to do next while the head of the chain is kept.
#[derive(Debug)]
pub enum IngestorAction<E> {
    /// Ask for the number of the latest block.
    AskLatest,
    /// Ask for the block with this number.
    AskBlock(BlockNumber),
    /// Store this block as the head, with this cursor.
    SetChainHead(Block, String),
    /// Report this failure.
    Report(E),
    /// Wait for the polling interval.
    Wait,
}

/// Whether `action` is what the ingestor does after `reply`, where `latest` is
/// the number of the block that it asked for.
pub open spec fn ingestor_answers<E>(
    latest: BlockNumber,
    reply: IngestorReply<E>,
    action: IngestorAction<E>,
) -> bool {
    match reply {
        IngestorReply::Ready => action is AskLatest,
        IngestorReply::Latest(Ok(number)) => action == IngestorAction::<E>::AskBlock(number),
        IngestorReply::Block(Ok(block)) => {
            &&& action matches IngestorAction::SetChainHead(head, cursor)
            &&& head == block
            &&& cursor@ == decimal(latest as int)
        },
        IngestorReply::Stored(Ok(_)) => action is Wait,
        IngestorReply::Reported => action is Wait,
        IngestorReply::Latest(Err(e)) => action == IngestorAction::Report(e),
        IngestorReply::Block(Err(e)) => action == IngestorAction::Report(e),
        IngestorReply::Stored(Err(e)) => action == IngestorAction::Report(e),
    }
}

/// The number of the block that the ingestor asked for, after `reply`.
pub open spec fn ingestor_after<E>(latest: BlockNumber, reply: IngestorReply<E>) -> BlockNumber {
    match reply {
        IngestorReply::Latest(Ok(number)) => number,
        _ => latest,
    }
}

/// What keeps the head of a chain that is polled.
#[derive(Debug)]
pub struct RpcBlockIngestor {
    latest: BlockNumber,
}

impl View for RpcBlockIngestor {
    type V = BlockNumber;

    closed spec fn view(&self) -> BlockNumber {
        self.latest
    }
}

impl RpcBlockIngestor {
    /// Nothing was asked yet.
    pub fn new() -> (r: Self)
        ensures
            r@ == 0,
    {
        RpcBlockIngestor { latest: 0 }
    }

    /// What to do next. The number of the latest block is asked for, then that
    /// block, and it is stored as the head with its number as the cursor. A
    /// failure is reported; either way the next round comes after a wait.
    pub fn step<E>(&mut self, reply: IngestorReply<E>) -> (r: IngestorAction<E>)
        ensures
            match reply {
                IngestorReply::Ready => r is AskLatest,
                IngestorReply::Latest(Ok(number)) => r == IngestorAction::<E>::AskBlock(number),
                IngestorReply::Latest(Err(e)) => r == IngestorAction::Report(e),
                IngestorReply::Block(Ok(block)) => {
                    &&& r matches IngestorAction::SetChainHead(head, cursor)
                    &&& head == block
                    &&& cursor@ == decimal(old(self)@ as int)
                },
                IngestorReply::Block(Err(e)) => r == IngestorAction::Report(e),
                IngestorReply::Stored(Ok(_)) => r is Wait,
                IngestorReply::Stored(Err(e)) => r == IngestorAction::Report(e),
                IngestorReply::Reported => r is Wait,
            },
            final(self)@ == (match reply {
                IngestorReply::Latest(Ok(number)) => number,
                _ => old(self)@,
            }),
            ingestor_answers(old(self)@, reply, r),
            final(self)@ == ingestor_after(old(self)@, reply),
    {
        match reply {
            IngestorReply::Ready => IngestorAction::AskLatest,
            IngestorReply::Latest(Ok(number)) => {
                self.latest = number;
                IngestorAction::AskBlock(number)
            },
            IngestorReply::Block(Ok(block)) => {
                IngestorAction::SetChainHead(block, decimal_text(self.latest as i64))
            },
            IngestorReply::Stored(Ok(_)) => IngestorAction::Wait,
            IngestorReply::Reported => IngestorAction::Wait,
            IngestorReply::Latest(Err(e)) => IngestorAction::Report(e),
            IngestorReply::Block(Err(e)) => IngestorAction::Report(e),
            IngestorReply::Stored(Err(e)) => IngestorAction::Report(e),
        }
    }
}

/// How the chain is reached.
#[derive(Clone, Copy, Debug, PartialEq, Eq, Structural)]
pub enum Access {
    Firehose,
    Rpc,
}

/// The chain: what it is called and how it is reached.
#[derive(Debug)]
pub struct Chain {
    pub name: String,
    pub access: Access,
    pub block_stream_builder: AztecStreamBuilder,
}

/// A stream of the events on the chain.
#[derive(Debug)]
pub enum BlockStream {
    /// The responses of a Firehose endpoint, turned into events by this.
    Firehose(FirehoseMapper),
    /// The chain, polled by this.
    Polling(RpcPollingBlockStream),
}

/// Where the pointer to a block is to be had.
#[derive(Clone, Copy, Debug, PartialEq, Eq, Structural)]
pub enum PointerLookup {
    /// From a Firehose endpoint, by this number.
    Firehose(BlockNumber),
    /// From the node, by this number.
    Rpc(BlockNumber),
}

/// What keeps the head of the chain.
#[derive(Debug)]
pub enum Ingestor {
    /// What is there for Firehose endpoints.
    Firehose,
    /// This, which polls the chain.
    Rpc(RpcBlockIngestor),
}

impl Chain {
    /// The chain `name`, which is reached by `access`.
    pub fn new(name: String, access: Access) -> (r: Self)
        ensures
            r.name == name,
            r.access == access,
    {
        Chain { name, access, block_stream_builder: AztecStreamBuilder {  } }
    }

    /// The stream of the events on the chain, from behind `current_block` on
    /// where it is polled. A Firehose endpoint is told where to start by whoever
    /// asks it.
    pub fn new_block_stream(
        &self,
        start_blocks: Vec<BlockNumber>,
        current_block: Option<BlockPtr>,
        filter: Arc<TriggerFilter>,
    ) -> (r: BlockStream)
        ensures
            match r {
                BlockStream::Firehose(mapper) => self.access is Firehose && mapper@ == (*filter)@,
                BlockStream::Polling(stream) => self.access is Rpc && stream@ == (PollingView {
                    filter: (*filter)@,
                    next_block: start_number(start_blocks@, ptr_view(current_block)),
                    current_block: ptr_view(current_block),
                }),
            },
    {
        if self.access == Access::Firehose {
            BlockStream::Firehose(self.block_stream_builder.build_firehose(filter))
        } else {
            BlockStream::Polling(
                self.block_stream_builder.build_polling(start_blocks, current_block, filter),
            )
        }
    }

    /// Where the pointer to the block `number` is to be had.
    pub fn block_pointer_from_number(&self, number: BlockNumber) -> (r: PointerLookup)
        ensures
            r == (match self.access {
                Access::Firehose => PointerLookup::Firehose(number),
                Access::Rpc => PointerLookup::Rpc(number),
            }),
    {
        match self.access {
            Access::Firehose => PointerLookup::Firehose(number),
            Access::Rpc => PointerLookup::Rpc(number),
        }
    }

    /// What keeps the head of the chain.
    pub fn block_ingestor(&self) -> (r: Ingestor)
        ensures
            match r {
                Ingestor::Firehose => self.access is Firehose,
                Ingestor::Rpc(ingestor) => self.access is Rpc && ingestor@ == 0,
            },
    {
        match self.access {
            Access::Firehose => Ingestor::Firehose,
            Access::Rpc => Ingestor::Rpc(RpcBlockIngestor::new()),
        }
    }

    /// What finds the triggers in blocks.
    pub fn triggers_adapter(&self) -> (r: TriggersAdapter)
        ensures
            r == (TriggersAdapter {  }),
    {
        TriggersAdapter {  }
    }

    /// Whether blocks have to be fetched again for new data sources: there are
    /// no new ones on this chain.
    pub fn is_refetch_block_required(&self) -> (r: bool)
        ensures
            r == false,
    {
        false
    }
}

proof fn lemma_log_triggers(logs: Seq<LogView>, block: BlockView, filter: FilterView)
    ensures
        log_triggers(Seq::empty(), block, filter) == Seq::<TriggerView>::empty(),
        logs.len() > 0 ==> log_triggers(logs, block, filter) == log_triggers(
            logs.drop_last(),
            block,
            filter,
        ) + if filter.admits_log(logs.last()) {
            seq![TriggerView::PublicLog(logs.last(), block)]
        } else {
            Seq::empty()
        },
{
    reveal(Seq::filter);
    assert(log_triggers(Seq::empty(), block, filter) =~= Seq::<TriggerView>::empty());
    if logs.len() > 0 {
        assert(log_triggers(logs, block, filter) =~= log_triggers(logs.drop_last(), block, filter)
            + if filter.admits_log(logs.last()) {
            seq![TriggerView::PublicLog(logs.last(), block)]
        } else {
            Seq::empty()
        });
    }
}

proof fn lemma_log_triggers_found(logs: Seq<LogView>, block: BlockView, filter: FilterView, t: TriggerView)
    ensures
        log_triggers(logs, block, filter).contains(t) <==> {
            &&& t is PublicLog
            &&& t.block() == block
            &&& logs.contains(t->PublicLog_0)
            &&& filter.admits_log(t->PublicLog_0)
        },
    decreases logs.len(),
{
    lemma_log_triggers(logs, block, filter);
    let all = log_triggers(logs, block, filter);
    if logs.len() == 0 {
        assert(logs =~= Seq::empty());
    } else {
        let front = logs.drop_last();
        let found = log_triggers(front, block, filter);
        lemma_log_triggers_found(front, block, filter, t);
        let last = TriggerView::PublicLog(logs.last(), block);
        if all.contains(t) {
            let k = choose|k: int| 0 <= k < all.len() && all[k] == t;
            if k < found.len() {
                assert(found[k] == t);
                let j = choose|j: int| 0 <= j < front.len() && front[j] == t->PublicLog_0;
                assert(logs[j] == t->PublicLog_0);
            } else {
                assert(t == last);
                assert(logs[logs.len() - 1] == t->PublicLog_0);
            }
        }
        if t is PublicLog && t.block() == block && logs.contains(t->PublicLog_0) && filter.admits_log(
            t->PublicLog_0,
        ) {
            let j = choose|j: int| 0 <= j < logs.len() && logs[j] == t->PublicLog_0;
            if j < front.len() {
                assert(front[j] == t->PublicLog_0);
                let k = choose|k: int| 0 <= k < found.len() && found[k] == t;
                assert(all[k] == t);
            } else {
                assert(t == last);
                assert(all[found.len() as int] == t);
            }
        }
    }
}

/// The triggers in a block are the public logs in it that pass the filter and,
/// where every block counts, the block: nothing is left out, nothing is added.
pub proof fn law_triggers_found(block: BlockView, filter: FilterView, t: TriggerView)
    ensures
        block_triggers(block, filter).contains(t) <==> {
            ||| t == TriggerView::Block(block) && filter.trigger_every_block
            ||| {
                &&& t is PublicLog
                &&& t.block() == block
                &&& block.public_logs.contains(t->PublicLog_0)
                &&& filter.admits_log(t->PublicLog_0)
            }
        },
{
    let found = log_triggers(block.public_logs, block, filter);
    let all = block_triggers(block, filter);
    lemma_log_triggers_found(block.public_logs, block, filter, t);
    if found.contains(t) {
        let k = choose|k: int| 0 <= k < found.len() && found[k] == t;
        assert(all[k] == t);
    }
    if t == TriggerView::Block(block) && filter.trigger_every_block {
        assert(all[found.len() as int] == t);
    }
    if all.contains(t) {
        let k = choose|k: int| 0 <= k < all.len() && all[k] == t;
        if k < found.len() {
            assert(found[k] == t);
        }
    }
}

proof fn lemma_log_triggers_ordered(logs: Seq<LogView>, block: BlockView, filter: FilterView)
    requires
        forall|i: int, j: int| 0 <= i < j < logs.len() ==> (#[trigger] logs[i]).log_index < (
        #[trigger] logs[j]).log_index,
    ensures
        forall|k: int|
            0 <= k < log_triggers(logs, block, filter).len() ==> (#[trigger] log_triggers(
                logs,
                block,
                filter,
            )[k]) is PublicLog,
        forall|i: int, j: int|
            0 <= i < j < log_triggers(logs, block, filter).len() ==> (#[trigger] log_triggers(
                logs,
                block,
                filter,
            )[i])->PublicLog_0.log_index < (#[trigger] log_triggers(
                logs,
                block,
                filter,
            )[j])->PublicLog_0.log_index,
    decreases logs.len(),
{
    lemma_log_triggers(logs, block, filter);
    if logs.len() == 0 {
        assert(logs =~= Seq::empty());
    } else {
        let front = logs.drop_last();
        let found = log_triggers(front, block, filter);
        lemma_log_triggers_ordered(front, block, filter);
        assert forall|k: int| 0 <= k < found.len() implies (#[trigger] found[k])->PublicLog_0.log_index
            < logs.last().log_index by {
            lemma_log_triggers_found(front, block, filter, found[k]);
            let j = choose|j: int| 0 <= j < front.len() && front[j] == found[k]->PublicLog_0;
            assert(logs[j].log_index < logs[logs.len() - 1].log_index);
        }
    }
}

/// Where the logs of a block come by ascending index, the triggers in it are
/// found in the order in which they are handled.
pub proof fn law_triggers_in_order(block: BlockView, filter: FilterView, i: int, j: int)
    requires
        forall|a: int, b: int|
            0 <= a < b < block.public_logs.len() ==> (#[trigger] block.public_logs[a]).log_index < (
            #[trigger] block.public_logs[b]).log_index,
        0 <= i < j < block_triggers(block, filter).len(),
    ensures
        block_triggers(block, filter)[i].precedence(block_triggers(block, filter)[j]) is Before,
{
    lemma_log_triggers_ordered(block.public_logs, block, filter);
    let found = log_triggers(block.public_logs, block, filter);
    assert(block_triggers(block, filter)[i] == found[i]);
}

/// A log that a valid data source has a handler for is among the triggers of
/// its block, once the filter was extended with the data source; at the blocks
/// from the one that it starts at on, the data source runs that handler for
/// the trigger. Left out are handlers that want no certain tag, where the
/// filter is for other tags.
pub proof fn law_wanted_log_is_handled(
    filter: FilterView,
    sources: Seq<DataSourceView>,
    i: int,
    block: BlockView,
    log: LogView,
)
    requires
        0 <= i < sources.len(),
        faults(sources[i]) == Seq::<ValidationView>::empty(),
        block.public_logs.contains(log),
        sources[i].log_handler(log) is Some,
        sources[i].log_handler(log)->0.wanted_tag() is Some || filter.with_sources(
            sources,
        ).tags.contains(hex_text(log.tag)),
        sources[i].source.start_block <= block.header->0.number,
    ensures
        block_triggers(block, filter.with_sources(sources)).contains(
            TriggerView::PublicLog(log, block),
        ),
        sources[i].handler_at(TriggerView::PublicLog(log, block), block) == Some(
            sources[i].log_handler(log)->0.handler,
        ),
{
    if sources[i].source.address is None {
        let handlers = sources[i].mapping.event_handlers;
        assert(handlers.len() > 0);
        assert(faults(sources[i]).last() == ValidationView::MissingAddress);
    }
    law_wanted_logs_pass(filter, sources, i, log);
    law_triggers_found(block, filter.with_sources(sources), TriggerView::PublicLog(log, block));
}

/// A block is among its own triggers once the filter was extended with a data
/// source that handles blocks; at the blocks from the one that it starts at
/// on, the data source runs its first handler for the trigger.
pub proof fn law_wanted_block_is_handled(
    filter: FilterView,
    sources: Seq<DataSourceView>,
    i: int,
    block: BlockView,
)
    requires
        0 <= i < sources.len(),
        sources[i].handles_blocks(),
        sources[i].source.start_block <= block.header->0.number,
    ensures
        block_triggers(block, filter.with_sources(sources)).last() == TriggerView::Block(block),
        sources[i].handler_at(TriggerView::Block(block), block) == Some(
            sources[i].mapping.block_handlers[0],
        ),
{
    law_wanted_blocks_pass(filter, sources, i);
}

/// Where the chain stands after an event.
pub open spec fn head_after(event: EventView) -> PtrView {
    match event {
        EventView::Revert(ptr, _) => ptr,
        EventView::ProcessBlock(processed, _) => processed.block.ptr(),
    }
}

/// Whether `block` goes on from `head`, as far as both are known.
pub open spec fn goes_on_from(block: BlockView, head: Option<PtrView>) -> bool {
    ||| head is None
    ||| block.header->0.parent_ptr() is None
    ||| head == block.header->0.parent_ptr()
}

impl PollingView {
    /// Whether the block to ask for is the one behind the block that was
    /// reached.
    pub open spec fn in_step(self) -> bool {
        self.current_block matches Some(ptr) ==> self.next_block == next_number(ptr.number)
    }

    /// What is known after `blocks`, one by one.
    pub open spec fn after_all(self, blocks: Seq<BlockView>) -> PollingView
        decreases blocks.len(),
    {
        if blocks.len() == 0 {
            self
        } else {
            self.after_all(blocks.drop_last()).after(blocks.last())
        }
    }

    /// What the last of `blocks` brings about.
    pub open spec fn last_event(self, blocks: Seq<BlockView>) -> EventView {
        self.after_all(blocks.drop_last()).event(blocks.last())
    }
}

/// A stream starts at a block that some data source starts at, and at none
/// that lies behind one of them.
pub proof fn law_start(start_blocks: Seq<BlockNumber>, k: int)
    requires
        0 <= k < start_blocks.len(),
    ensures
        start_blocks.contains(start_number(start_blocks, None)),
        start_number(start_blocks, None) <= start_blocks[k],
    decreases start_blocks.len(),
{
    if start_blocks.len() == 1 {
        assert(start_blocks[0] == start_number(start_blocks, None));
    } else {
        let front = start_blocks.drop_last();
        assert(start_blocks[start_blocks.len() - 1] == start_blocks.last());
        law_start(front, if k < front.len() {
            k
        } else {
            0
        });
        let j = choose|j: int| 0 <= j < front.len() && front[j] == lowest(front);
        assert(start_blocks[j] == lowest(front));
        if k < front.len() {
            assert(front[k] == start_blocks[k]);
        }
    }
}

/// A stream that is polled asks for the block behind the one that was reached:
/// this holds at the start and whatever blocks come.
pub proof fn law_stays_in_step(
    filter: FilterView,
    start_blocks: Seq<BlockNumber>,
    current: Option<PtrView>,
    blocks: Seq<BlockView>,
)
    ensures
        (PollingView {
            filter,
            next_block: start_number(start_blocks, current),
            current_block: current,
        }).after_all(blocks).in_step(),
{
}

/// Wherever a stream that is polled began, the block that it takes for the
/// reached one is where its events lead, and every block that it hands on goes
/// on from where the events before it led.
pub proof fn law_blocks_link(start: PollingView, blocks: Seq<BlockView>)
    requires
        blocks.len() > 0,
    ensures
        start.after_all(blocks).current_block == Some(head_after(start.last_event(blocks))),
        start.last_event(blocks) matches EventView::ProcessBlock(processed, _) ==> processed.block
            == blocks.last() && goes_on_from(
            blocks.last(),
            start.after_all(blocks.drop_last()).current_block,
        ),
{
}

/// After the chain was taken back for a block, the same block is asked for
/// again, and if it comes again it is handed on.
pub proof fn law_revert_then_process(state: PollingView, block: BlockView)
    requires
        state.accepts(block),
        block.located(),
        state.departs(block),
    ensures
        state.event(block) == EventView::Revert(block.header->0.parent_ptr()->0, None),
        state.after(block).next_block == block.header->0.number,
        !state.after(block).departs(block),
        state.after(block).event(block) == EventView::ProcessBlock(
            triggered(block, state.filter),
            None,
        ),
{
}

/// A block that was asked for and that goes on from the one that was reached
/// makes the stream ask for the one behind it.
pub proof fn law_progress(state: PollingView, block: BlockView)
    requires
        state.accepts(block),
        !state.departs(block),
        block.header->0.number == state.next_block,
    ensures
        state.after(block).next_block == next_number(state.next_block),
        state.after(block).current_block == Some(block.ptr()),
{
}

/// Both ways to follow the chain tell the same of a block: where the stream
/// that is polled hands it on, Firehose does for a new block, with the same
/// triggers; where it takes the chain back, Firehose does for the block taken
/// off, to the same block.
pub proof fn law_streams_agree(state: PollingView, block: BlockView, cursor: Seq<char>)
    requires
        state.accepts(block),
    ensures
        match state.event(block) {
            EventView::ProcessBlock(processed, _) => firehose_event(
                ForkStep::StepNew,
                block,
                state.filter,
                cursor,
            ) == EventView::ProcessBlock(processed, Some(cursor)),
            EventView::Revert(ptr, _) => stands_for_event(ForkStep::StepUndo, block)
                && firehose_event(ForkStep::StepUndo, block, state.filter, cursor)
                == EventView::Revert(ptr, Some(cursor)),
        },
{
}

proof fn lemma_log_positions(logs: Seq<LogView>, block: BlockView, filter: FilterView) -> (at: Seq<int>)
    ensures
        at.len() == log_triggers(logs, block, filter).len(),
        forall|k: int|
            0 <= k < at.len() ==> 0 <= #[trigger] at[k] < logs.len() && filter.admits_log(logs[at[k]])
                && log_triggers(logs, block, filter)[k] == TriggerView::PublicLog(logs[at[k]], block),
        forall|j: int, k: int| 0 <= j < k < at.len() ==> #[trigger] at[j] < #[trigger] at[k],
        forall|i: int| 0 <= i < logs.len() && filter.admits_log(#[trigger] logs[i]) ==> at.contains(i),
    decreases logs.len(),
{
    lemma_log_triggers(logs, block, filter);
    if logs.len() == 0 {
        assert(logs =~= Seq::empty());
        Seq::empty()
    } else {
        let front = logs.drop_last();
        let before = lemma_log_positions(front, block, filter);
        let last = logs.len() - 1;
        let at = if filter.admits_log(logs.last()) {
            before.push(last)
        } else {
            before
        };
        assert forall|k: int| 0 <= k < at.len() implies 0 <= #[trigger] at[k] < logs.len()
            && filter.admits_log(logs[at[k]]) && log_triggers(logs, block, filter)[k]
            == TriggerView::PublicLog(logs[at[k]], block) by {
            if k < before.len() {
                assert(at[k] == before[k]);
                assert(front[before[k]] == logs[before[k]]);
            }
        }
        assert forall|i: int| 0 <= i < logs.len() && filter.admits_log(#[trigger] logs[i]) implies at.contains(
            i,
        ) by {
            if i < last {
                assert(front[i] == logs[i]);
                let k = choose|k: int| 0 <= k < before.len() && before[k] == i;
                assert(at[k] == i);
            } else {
                assert(at[before.len() as int] == i);
            }
        }
        at
    }
}

/// There is one trigger for each log that passes the filter, in the order of
/// the logs, equal logs or not, and behind them one for the block where every
/// block counts. The law gives the places of those logs in the block: they
/// rise, trigger `k` is for the log at place `k`, and no log that passes is
/// left out.
pub proof fn law_one_trigger_for_each_log(block: BlockView, filter: FilterView) -> (at: Seq<int>)
    ensures
        at.len() + (if filter.trigger_every_block { 1int } else { 0 }) == block_triggers(
            block,
            filter,
        ).len(),
        forall|k: int|
            0 <= k < at.len() ==> 0 <= #[trigger] at[k] < block.public_logs.len()
                && filter.admits_log(block.public_logs[at[k]]) && block_triggers(block, filter)[k]
                == TriggerView::PublicLog(block.public_logs[at[k]], block),
        forall|j: int, k: int| 0 <= j < k < at.len() ==> #[trigger] at[j] < #[trigger] at[k],
        forall|i: int|
            0 <= i < block.public_logs.len() && filter.admits_log(#[trigger] block.public_logs[i])
                ==> at.contains(i),
        filter.trigger_every_block ==> block_triggers(block, filter).last() == TriggerView::Block(block),
        triggered(block, filter).block == block,
        triggered(block, filter).triggers == block_triggers(block, filter),
{
    lemma_log_positions(block.public_logs, block, filter)
}

/// The number behind a block number is one more, and the greatest is its own.
pub proof fn law_next_number(n: BlockNumber)
    ensures
        n < i32::MAX ==> next_number(n) == n + 1,
        n == i32::MAX ==> next_number(n) == n,
{
}

/// A stream starts one behind the block that was reached, wherever the data
/// sources start; without either it starts at the first block.
pub proof fn law_start_behind(start_blocks: Seq<BlockNumber>, current: PtrView)
    ensures
        current.number < i32::MAX ==> start_number(start_blocks, Some(current)) == current.number + 1,
        current.number == i32::MAX ==> start_number(start_blocks, Some(current)) == i32::MAX,
        start_number(Seq::empty(), None) == 0,
{
}

/// What a block brings about on a chain that is polled. It takes the chain back
/// to its parent where both the block that was reached and the parent are
/// known and differ in number or hash; else it is handed on with its triggers.
/// What is reached then is the parent or the block, and the block behind that
/// is asked for.
pub proof fn law_event_of_block(state: PollingView, block: BlockView)
    requires
        state.accepts(block),
    ensures
        ({
            let header = block.header->0;
            let named = header.number > 0 && header.parent_hash.len() > 0;
            let back = state.current_block is Some && named && !(state.current_block->0.number
                == header.number - 1 && state.current_block->0.hash == word(header.parent_hash));
            let after = state.after(block);
            &&& after.filter == state.filter
            &&& after.current_block is Some
            &&& back ==> {
                &&& state.event(block) matches EventView::Revert(to, None)
                &&& to.number == header.number - 1
                &&& to.hash == word(header.parent_hash)
                &&& after.current_block == Some(to)
                &&& after.next_block == (if header.number - 1 == i32::MAX {
                    i32::MAX as int
                } else {
                    header.number as int
                })
            }
            &&& !back ==> {
                &&& state.event(block) matches EventView::ProcessBlock(processed, None)
                &&& processed.block == block
                &&& processed.triggers == block_triggers(block, state.filter)
                &&& after.current_block->0.number == header.number
                &&& after.current_block->0.hash == word(header.hash)
                &&& after.next_block == (if header.number == i32::MAX {
                    i32::MAX as int
                } else {
                    header.number + 1
                })
            }
        }),
{
}

/// A block can be followed exactly where it has a header, its parent's number,
/// if it names a parent, is a block number, and so is its own unless it takes
/// the chain back.
pub proof fn law_accepts(state: PollingView, block: BlockView)
    ensures
        ({
            let header = block.header->0;
            let named = header.number > 0 && header.parent_hash.len() > 0;
            let back = state.current_block is Some && named && state.current_block
                != header.parent_ptr();
            state.accepts(block) <==> block.header is Some && (named ==> header.number - 1 <= i32::MAX)
                && (back || 0 <= header.number <= i32::MAX)
        }),
{
}

/// The steps of a Firehose response by their numbers.
pub proof fn law_steps(n: i32)
    ensures
        step_of(n) == Some(ForkStep::StepUnset) <==> n == 0,
        step_of(n) == Some(ForkStep::StepNew) <==> n == 1,
        step_of(n) == Some(ForkStep::StepUndo) <==> n == 2,
        step_of(n) == Some(ForkStep::StepFinal) <==> n == 3,
        step_of(n) is None <==> n < 0 || n > 3,
{
}

/// A new block is handed on with its triggers and with the cursor of the
/// response. One that is taken off takes the chain back to its parent, with the
/// cursor; it has to have a parent. Other steps stand for no event.
pub proof fn law_firehose_event(block: BlockView, filter: FilterView, cursor: Seq<char>)
    ensures
        stands_for_event(ForkStep::StepNew, block),
        !stands_for_event(ForkStep::StepFinal, block),
        !stands_for_event(ForkStep::StepUnset, block),
        stands_for_event(ForkStep::StepUndo, block) <==> block.header is Some && block.header->0.number
            > 0 && block.header->0.parent_hash.len() > 0 && block.header->0.number - 1 <= i32::MAX,
        ({
            &&& firehose_event(ForkStep::StepNew, block, filter, cursor) matches EventView::ProcessBlock(
                processed,
                Some(told),
            )
            &&& processed.block == block
            &&& processed.triggers == block_triggers(block, filter)
            &&& told == cursor
        }),
        stands_for_event(ForkStep::StepUndo, block) ==> {
            &&& firehose_event(ForkStep::StepUndo, block, filter, cursor) matches EventView::Revert(
                to,
                Some(told),
            )
            &&& to.number == block.header->0.number - 1
            &&& to.hash == word(block.header->0.parent_hash)
            &&& told == cursor
        },
{
}

/// A response without a block is refused as such; else it holds the block that
/// its bytes hold, or is refused with the fault in them.
pub proof fn law_block_in_response(bytes: Seq<u8>, block: BlockView, e: WireError)
    ensures
        response_block(None) == Err::<BlockView, BlockStreamError>(BlockStreamError::MissingBlock),
        block_of(bytes) == Ok::<BlockView, WireError>(block) <==> response_block(Some(bytes)) == Ok::<
            BlockView,
            BlockStreamError,
        >(block),
        block_of(bytes) == Err::<BlockView, WireError>(e) <==> response_block(Some(bytes)) == Err::<
            BlockView,
            BlockStreamError,
        >(BlockStreamError::Decode(e)),
{
}

/// The models of events and of blocks with triggers hold what these hold.
pub proof fn law_models_of_events(found: BlockWithTriggers, ptr: BlockPtr, cursor: String, k: int)
    ensures
        found@.block == found.block@,
        found@.triggers.len() == found.trigger_data@.len(),
        0 <= k < found.trigger_data@.len() ==> found@.triggers[k] == found.trigger_data@[k]@,
        BlockStreamEvent::Revert(ptr, Some(cursor))@ == EventView::Revert(ptr@, Some(cursor@)),
        BlockStreamEvent::Revert(ptr, None)@ == EventView::Revert(ptr@, None),
        BlockStreamEvent::ProcessBlock(found, Some(cursor))@ == EventView::ProcessBlock(
            found@,
            Some(cursor@),
        ),
        BlockStreamEvent::ProcessBlock(found, None)@ == EventView::ProcessBlock(found@, None),
{
}

/// One below a pointer is one less, whatever its hash is, but never less than a
/// block number can be; the hash is 32 zeros.
pub proof fn law_below(ptr: PtrView, i: int)
    ensures
        ptr.number > i32::MIN ==> below(ptr).number == ptr.number - 1,
        ptr.number == i32::MIN ==> below(ptr).number == ptr.number,
        below(ptr).hash.len() == 32,
        0 <= i < 32 ==> below(ptr).hash[i] == 0,
{
}

/// A round of polling. The latest block is asked for. If the next block of the
/// stream is not behind it, that next block is asked for, and no other one;
/// else the stream waits. What comes of a block is handed on. A failure is
/// handed on as it is. Nothing but a block changes what the stream knows.
pub proof fn law_polling_round<E>(state: PollingView, latest: BlockNumber, block: Block, e: E, action: PollingAction<E>)
    ensures
        polling_answers(state, PollingReply::<E>::Ready, action) <==> action is AskLatest,
        state.next_block <= latest ==> (polling_answers(
            state,
            PollingReply::<E>::Latest(Ok(latest)),
            action,
        ) <==> action is AskBlock && action->AskBlock_0 == state.next_block),
        state.next_block > latest ==> (polling_answers(
            state,
            PollingReply::<E>::Latest(Ok(latest)),
            action,
        ) <==> action is Wait),
        polling_answers(state, PollingReply::<E>::Block(Ok(block)), action) ==> action is Yield
            && action->Yield_0 is Ok && action->Yield_0->Ok_0@ == state.event(block@),
        polling_answers(state, PollingReply::Latest(Err(e)), action) ==> action is Yield
            && action->Yield_0 is Err && action->Yield_0->Err_0 == e,
        polling_answers(state, PollingReply::Block(Err(e)), action) ==> action is Yield
            && action->Yield_0 is Err && action->Yield_0->Err_0 == e,
        polling_after(state, PollingReply::<E>::Ready) == state,
        polling_after(state, PollingReply::<E>::Latest(Ok(latest))) == state,
        polling_after(state, PollingReply::Latest(Err(e))) == state,
        polling_after(state, PollingReply::Block(Err(e))) == state,
        polling_after(state, PollingReply::<E>::Block(Ok(block))) == state.after(block@),
{
}

/// A round of keeping the head. The block with the number of the latest one is
/// asked for, and what comes is stored as the head, with a cursor in which that
/// number is read back. A failure is reported as it is, and after it, as after
/// the head was stored, comes a wait.
pub proof fn law_ingestor_round<E>(
    before: BlockNumber,
    latest: BlockNumber,
    block: Block,
    e: E,
    action: IngestorAction<E>,
)
    ensures
        ingestor_answers(before, IngestorReply::<E>::Ready, action) ==> action is AskLatest,
        ingestor_answers(before, IngestorReply::<E>::Latest(Ok(latest)), action) ==> action is AskBlock
            && action->AskBlock_0 == latest,
        ingestor_answers(
            ingestor_after(before, IngestorReply::<E>::Latest(Ok(latest))),
            IngestorReply::<E>::Block(Ok(block)),
            action,
        ) ==> action is SetChainHead && action->SetChainHead_0 == block && i64_text(
            action->SetChainHead_1@,
            10,
        ) == Some(latest as i64),
        ingestor_answers(before, IngestorReply::<E>::Stored(Ok(())), action) ==> action is Wait,
        ingestor_answers(before, IngestorReply::<E>::Reported, action) ==> action is Wait,
        ingestor_answers(before, IngestorReply::Latest(Err(e)), action) ==> action is Report
            && action->Report_0 == e,
        ingestor_answers(before, IngestorReply::Block(Err(e)), action) ==> action is Report
            && action->Report_0 == e,
        ingestor_answers(before, IngestorReply::Stored(Err(e)), action) ==> action is Report
            && action->Report_0 == e,
{
    law_decimal_read_back(latest as i64);
}

} // verus!

//! What calls for a handler: a block, or a public log in one.
use std::cmp::Ordering;
use std::sync::Arc;
use vstd::prelude::*;
use vstd::string::*;
use crate::codec::{same_bytes, word, Block, BlockNumber, BlockView, LogView, PtrView, PublicLog};
use crate::hexadecimal::{hex_encode, hex_text};
use crate::text::{decimal, decimal_text};

verus! {

/// A reason to run a handler.
#[derive(Debug)]
pub enum AztecTrigger {
    /// A block was added to the chain.
    Block(Arc<Block>),
    /// A contract logged something in public.
    PublicLog(Arc<PublicLogTrigger>),
}

/// A public log and the block that it is in.
#[derive(Debug)]
pub struct PublicLogTrigger {
    pub log: PublicLog,
    pub block: Arc<Block>,
}

/// The mathematical model of an `AztecTrigger`.
pub enum TriggerView {
    Block(BlockView),
    PublicLog(LogView, BlockView),
}

impl View for AztecTrigger {
    type V = TriggerView;

    open spec fn view(&self) -> TriggerView {
        match self {
            AztecTrigger::Block(block) => TriggerView::Block((**block)@),
            AztecTrigger::PublicLog(t) => TriggerView::PublicLog(t.log@, (*t.block)@),
        }
    }
}

/// `Arc::clone`: another handle to the same value.
#[verifier::external_body]
pub(crate) fn share<T>(value: &Arc<T>) -> (r: Arc<T>)
    ensures
        r == *value,
{
    Arc::clone(value)
}

impl Clone for AztecTrigger {
    fn clone(&self) -> (r: Self)
        ensures
            r == *self,
    {
        match self {
            AztecTrigger::Block(block) => AztecTrigger::Block(share(block)),
            AztecTrigger::PublicLog(trigger) => AztecTrigger::PublicLog(share(trigger)),
        }
    }
}

impl BlockView {
    /// Whether the block has a header whose number is that of a block.
    pub open spec fn numbered(self) -> bool {
        self.header is Some && i32::MIN <= self.header->0.number <= i32::MAX
    }

    /// Whether the block has a header that a pointer can be made of.
    pub open spec fn located(self) -> bool {
        self.header is Some && self.header->0.number_fits()
    }

    /// The pointer to the block.
    pub open spec fn ptr(self) -> PtrView {
        self.header->0.ptr()
    }
}

impl TriggerView {
    /// The block that the trigger is about or in.
    pub open spec fn block(self) -> BlockView {
        match self {
            TriggerView::Block(block) => block,
            TriggerView::PublicLog(_, block) => block,
        }
    }

    /// Whether both are blocks or both are logs.
    pub open spec fn same_kind(self, other: TriggerView) -> bool {
        (self is Block) == (other is Block)
    }

    /// Whether the two are one: the same block, or the log with the same index
    /// in the same transaction of the same block.
    pub open spec fn same(self, other: TriggerView) -> bool {
        match (self, other) {
            (TriggerView::Block(a), TriggerView::Block(b)) => a.ptr() == b.ptr(),
            (TriggerView::PublicLog(a, in_a), TriggerView::PublicLog(b, in_b)) => {
                &&& in_a.ptr() == in_b.ptr()
                &&& a.tx_hash == b.tx_hash
                &&& a.log_index == b.log_index
            },
            _ => false,
        }
    }
}

/// Which of two comes first.
#[derive(Clone, Copy, Debug, PartialEq, Eq)]
pub enum Precedence {
    Before,
    Same,
    After,
}

/// Which of two byte strings comes first: the lesser at the first byte where
/// they differ, else the shorter.
pub open spec fn bytes_precedence(a: Seq<u8>, b: Seq<u8>) -> Precedence
    decreases a.len(),
{
    if a.len() == 0 && b.len() == 0 {
        Precedence::Same
    } else if a.len() == 0 {
        Precedence::Before
    } else if b.len() == 0 {
        Precedence::After
    } else if a[0] < b[0] {
        Precedence::Before
    } else if a[0] > b[0] {
        Precedence::After
    } else {
        bytes_precedence(a.skip(1), b.skip(1))
    }
}

impl TriggerView {
    /// Which of two triggers is handled first. Logs go before blocks, so that
    /// a block's handler sees what the handlers of its logs did; logs go by
    /// their index and then by their transaction.
    pub open spec fn precedence(self, other: TriggerView) -> Precedence {
        match (self, other) {
            (TriggerView::Block(_), TriggerView::PublicLog(..)) => Precedence::After,
            (TriggerView::PublicLog(..), TriggerView::Block(_)) => Precedence::Before,
            (TriggerView::Block(_), TriggerView::Block(_)) => Precedence::Same,
            (TriggerView::PublicLog(a, _), TriggerView::PublicLog(b, _)) => if a.log_index
                < b.log_index {
                Precedence::Before
            } else if a.log_index > b.log_index {
                Precedence::After
            } else {
                bytes_precedence(a.tx_hash, b.tx_hash)
            },
        }
    }
}

/// Which of two byte strings comes first: the lesser at the first byte where
/// they differ, else the shorter.
pub fn compare_bytes(a: &Vec<u8>, b: &Vec<u8>) -> (r: Precedence)
    ensures
        r == bytes_precedence(a@, b@),
{
    let mut i: usize = 0;
    assert(a@.skip(0) == a@);
    assert(b@.skip(0) == b@);
    while i < a.len() && i < b.len()
        invariant
            i <= a@.len(),
            i <= b@.len(),
            bytes_precedence(a@, b@) == bytes_precedence(a@.skip(i as int), b@.skip(i as int)),
        decreases a@.len() - i,
    {
        proof {
            assert(a@.skip(i as int).skip(1) == a@.skip(i + 1));
            assert(b@.skip(i as int).skip(1) == b@.skip(i + 1));
        }
        if a[i] < b[i] {
            return Precedence::Before;
        }
        if a[i] > b[i] {
            return Precedence::After;
        }
        i += 1;
    }
    if i < b.len() {
        Precedence::Before
    } else if i < a.len() {
        Precedence::After
    } else {
        Precedence::Same
    }
}

/// The hash of a block as it is shown.
pub open spec fn hash_text(hash: Seq<u8>) -> Seq<char> {
    "0x"@ + hex_text(hash)
}

/// The number and the hash of a block as they are shown.
pub open spec fn block_text(block: BlockView) -> Seq<char> {
    decimal(block.ptr().number as int) + " ("@ + hash_text(block.ptr().hash) + ")"@
}

/// What a trigger is called in messages.
pub open spec fn context_text(trigger: TriggerView) -> Seq<char> {
    match trigger {
        TriggerView::Block(block) => "Aztec block #"@ + block_text(block),
        TriggerView::PublicLog(log, block) => "Aztec public log contract 0x"@ + hex_text(
            log.contract_address,
        ) + ", tag 0x"@ + hex_text(log.tag) + ", tx 0x"@ + hex_text(log.tx_hash) + ", block #"@
            + block_text(block),
    }
}

/// What a trigger is called in logs: what it is by, in short.
pub open spec fn debug_text(trigger: TriggerView) -> Seq<char> {
    match trigger {
        TriggerView::Block(block) => "Block { number: "@ + decimal(block.header->0.number as int)
            + ", hash: \""@ + hex_text(block.ptr().hash) + "\" }"@,
        TriggerView::PublicLog(log, block) => "PublicLog { block: "@ + decimal(
            block.header->0.number as int,
        ) + ", contract: \""@ + hex_text(log.contract_address) + "\", tag: \""@ + hex_text(log.tag)
            + "\", log_index: "@ + decimal(log.log_index as int) + " }"@,
    }
}

fn append_block(text: &mut String, block: &Block)
    requires
        block@.located(),
    ensures
        final(text)@ == old(text)@ + block_text(block@),
{
    let ptr = block.ptr();
    text.append(decimal_text(ptr.number as i64).as_str());
    text.append(" (");
    text.append("0x");
    text.append(ptr.hash.hash_hex().as_str());
    text.append(")");
    assert(text@ =~= old(text)@ + block_text(block@));
}

/// What a trigger hands to its handler, as bytes.
pub open spec fn payload(trigger: TriggerView) -> Seq<u8> {
    match trigger {
        TriggerView::Block(block) => block.ptr().hash,
        TriggerView::PublicLog(log, _) => log.contract_address + log.tag + log.fields.flatten(),
    }
}

impl AztecTrigger {
    /// The number of the block that the trigger is about or in.
    pub fn block_number(&self) -> (r: BlockNumber)
        requires
            self@.block().numbered(),
        ensures
            r == self@.block().header->0.number,
    {
        match self {
            AztecTrigger::Block(block) => block.number(),
            AztecTrigger::PublicLog(trigger) => trigger.block.number(),
        }
    }

    /// What the trigger is called in messages.
    pub fn error_context(&self) -> (r: String)
        requires
            self@.block().located(),
        ensures
            r@ == context_text(self@),
    {
        let mut text = String::new();
        match self {
            AztecTrigger::Block(block) => {
                text.append("Aztec block #");
                append_block(&mut text, block);
            },
            AztecTrigger::PublicLog(trigger) => {
                text.append("Aztec public log contract 0x");
                text.append(trigger.log.contract_address_hex().as_str());
                text.append(", tag 0x");
                text.append(trigger.log.tag_hex().as_str());
                text.append(", tx 0x");
                text.append(hex_encode(trigger.log.tx_hash.as_slice()).as_str());
                text.append(", block #");
                append_block(&mut text, &trigger.block);
            },
        }
        assert(text@ =~= context_text(self@));
        text
    }

    /// What the trigger is called in logs.
    pub fn debug_text(&self) -> (r: String)
        requires
            self@.block().numbered(),
            self@ is Block ==> self@.block().located(),
        ensures
            r@ == debug_text(self@),
    {
        let mut text = String::new();
        match self {
            AztecTrigger::Block(block) => {
                text.append("Block { number: ");
                text.append(decimal_text(block.number() as i64).as_str());
                text.append(", hash: \"");
                text.append(block.hash().hash_hex().as_str());
                text.append("\" }");
            },
            AztecTrigger::PublicLog(trigger) => {
                text.append("PublicLog { block: ");
                text.append(decimal_text(trigger.block.number() as i64).as_str());
                text.append(", contract: \"");
                text.append(trigger.log.contract_address_hex().as_str());
                text.append("\", tag: \"");
                text.append(trigger.log.tag_hex().as_str());
                text.append("\", log_index: ");
                text.append(decimal_text(trigger.log.log_index as i64).as_str());
                text.append(" }");
            },
        }
        assert(text@ =~= debug_text(self@));
        text
    }

    /// Whether the two are one: the same block, or the log with the same index
    /// in the same transaction of the same block.
    pub fn eq(&self, other: &Self) -> (r: bool)
        requires
            self@.same_kind(other@) ==> self@.block().located() && other@.block().located(),
        ensures
            r == self@.same(other@),
    {
        match (self, other) {
            (AztecTrigger::Block(a), AztecTrigger::Block(b)) => a.ptr() == b.ptr(),
            (AztecTrigger::PublicLog(a), AztecTrigger::PublicLog(b)) => {
                a.block.ptr() == b.block.ptr() && same_bytes(&a.log.tx_hash, &b.log.tx_hash)
                    && a.log.log_index == b.log.log_index
            },
            _ => false,
        }
    }

    /// Which of the two is handled first.
    pub fn precedence(&self, other: &Self) -> (r: Precedence)
        ensures
            r == self@.precedence(other@),
    {
        match (self, other) {
            (AztecTrigger::Block(_), AztecTrigger::PublicLog(_)) => Precedence::After,
            (AztecTrigger::PublicLog(_), AztecTrigger::Block(_)) => Precedence::Before,
            (AztecTrigger::Block(_), AztecTrigger::Block(_)) => Precedence::Same,
            (AztecTrigger::PublicLog(a), AztecTrigger::PublicLog(b)) => {
                if a.log.log_index < b.log.log_index {
                    Precedence::Before
                } else if a.log.log_index > b.log.log_index {
                    Precedence::After
                } else {
                    compare_bytes(&a.log.tx_hash, &b.log.tx_hash)
                }
            },
        }
    }

    /// Which of the two is handled first, as an `Ordering`.
    pub fn cmp(&self, other: &Self) -> (r: Ordering)
        ensures
            match r {
                Ordering::Less => self@.precedence(other@) is Before,
                Ordering::Equal => self@.precedence(other@) is Same,
                Ordering::Greater => self@.precedence(other@) is After,
            },
    {
        match self.precedence(other) {
            Precedence::Before => Ordering::Less,
            Precedence::Same => Ordering::Equal,
            Precedence::After => Ordering::Greater,
        }
    }

    /// Which of the two is handled first: there is always an answer.
    pub fn partial_cmp(&self, other: &Self) -> (r: Option<Ordering>)
        ensures
            match r {
                Some(Ordering::Less) => self@.precedence(other@) is Before,
                Some(Ordering::Equal) => self@.precedence(other@) is Same,
                Some(Ordering::Greater) => self@.precedence(other@) is After,
                None => false,
            },
    {
        Some(self.cmp(other))
    }

    /// The address by which triggers are looked up: there is none.
    pub fn address_match(&self) -> (r: Option<&[u8]>)
        ensures
            r is None,
    {
        None
    }

    /// What the trigger hands to its handler: the hash of a block; of a log
    /// the contract's address, the tag and the fields, one behind the other.
    pub fn to_bytes(&self) -> (r: Vec<u8>)
        requires
            self@ is Block ==> self@.block().located(),
        ensures
            r@ == payload(self@),
    {
        match self {
            AztecTrigger::Block(block) => block.hash().0,
            AztecTrigger::PublicLog(trigger) => {
                let mut bytes: Vec<u8> = Vec::new();
                bytes.extend_from_slice(trigger.log.contract_address.as_slice());
                bytes.extend_from_slice(trigger.log.tag.as_slice());
                let ghost front = bytes@;
                let ghost fields = trigger.log@.fields;
                let mut i: usize = 0;
                assert(bytes@ =~= front + fields.take(0).flatten());
                while i < trigger.log.fields.len()
                    invariant
                        i <= trigger.log.fields@.len(),
                        fields == trigger.log@.fields,
                        bytes@ == front + fields.take(i as int).flatten(),
                    decreases trigger.log.fields@.len() - i,
                {
                    bytes.extend_from_slice(trigger.log.fields[i].as_slice());
                    proof {
                        let before = fields.take(i as int);
                        let after = fields.take(i + 1);
                        before.lemma_flatten_and_flatten_alt_are_equivalent();
                        after.lemma_flatten_and_flatten_alt_are_equivalent();
                        assert(after.drop_last() == before);
                        assert(bytes@ =~= front + after.flatten());
                    }
                    i += 1;
                }
                assert(fields.take(i as int) == fields);
                bytes
            },
        }
    }
}

proof fn lemma_bytes_swapped(a: Seq<u8>, b: Seq<u8>)
    ensures
        bytes_precedence(a, b) is Before <==> bytes_precedence(b, a) is After,
        bytes_precedence(a, b) is Same <==> a == b,
    decreases a.len(),
{
    if a.len() > 0 && b.len() > 0 && a[0] == b[0] {
        lemma_bytes_swapped(a.skip(1), b.skip(1));
        if a.skip(1) == b.skip(1) {
            assert(a =~= seq![a[0]] + a.skip(1));
            assert(b =~= seq![b[0]] + b.skip(1));
        }
    } else if a.len() == 0 && b.len() == 0 {
        assert(a =~= b);
    }
}

proof fn lemma_bytes_transitive(a: Seq<u8>, b: Seq<u8>, c: Seq<u8>)
    requires
        !(bytes_precedence(a, b) is After),
        !(bytes_precedence(b, c) is After),
    ensures
        !(bytes_precedence(a, c) is After),
    decreases a.len(),
{
    if a.len() > 0 && b.len() > 0 && c.len() > 0 && a[0] == b[0] && b[0] == c[0] {
        lemma_bytes_transitive(a.skip(1), b.skip(1), c.skip(1));
    }
}

/// Of two triggers one comes before the other exactly where the other comes
/// after it, and nothing comes before itself.
pub proof fn law_precedence_swapped(a: TriggerView, b: TriggerView)
    ensures
        a.precedence(b) is Before <==> b.precedence(a) is After,
        a.precedence(b) is Same <==> b.precedence(a) is Same,
        a.precedence(a) is Same,
{
    if a is PublicLog && b is PublicLog {
        lemma_bytes_swapped(a->PublicLog_0.tx_hash, b->PublicLog_0.tx_hash);
        lemma_bytes_swapped(b->PublicLog_0.tx_hash, a->PublicLog_0.tx_hash);
    }
    if a is PublicLog {
        lemma_bytes_swapped(a->PublicLog_0.tx_hash, a->PublicLog_0.tx_hash);
    }
}

/// What comes no later than something comes no later than whatever follows it.
pub proof fn law_precedence_transitive(a: TriggerView, b: TriggerView, c: TriggerView)
    requires
        !(a.precedence(b) is After),
        !(b.precedence(c) is After),
    ensures
        !(a.precedence(c) is After),
{
    if a is PublicLog && b is PublicLog && c is PublicLog && a->PublicLog_0.log_index
        == b->PublicLog_0.log_index && b->PublicLog_0.log_index == c->PublicLog_0.log_index {
        lemma_bytes_transitive(
            a->PublicLog_0.tx_hash,
            b->PublicLog_0.tx_hash,
            c->PublicLog_0.tx_hash,
        );
    }
}

/// Every public log is handled before every block.
pub proof fn law_logs_before_blocks(log: TriggerView, block: TriggerView)
    requires
        log is PublicLog,
        block is Block,
    ensures
        log.precedence(block) is Before,
        block.precedence(log) is After,
{
}

/// To be one trigger is an equivalence, and triggers that are one have the
/// same place in the order.
pub proof fn law_same_trigger(a: TriggerView, b: TriggerView, c: TriggerView)
    ensures
        a.same(a),
        a.same(b) ==> b.same(a),
        a.same(b) && b.same(c) ==> a.same(c),
        a.same(b) ==> a.precedence(b) is Same,
{
    if a is PublicLog && b is PublicLog {
        lemma_bytes_swapped(a->PublicLog_0.tx_hash, b->PublicLog_0.tx_hash);
    }
}

/// Two triggers are one exactly where both are blocks with one hash and one
/// number, or both are logs with one index, in one transaction, in blocks with
/// one hash and one number.
pub proof fn law_same_means(a: BlockView, b: BlockView, x: LogView, y: LogView)
    requires
        a.located(),
        b.located(),
    ensures
        TriggerView::Block(a).same(TriggerView::Block(b)) <==> word(a.header->0.hash) == word(
            b.header->0.hash,
        ) && a.header->0.number == b.header->0.number,
        TriggerView::PublicLog(x, a).same(TriggerView::PublicLog(y, b)) <==> word(a.header->0.hash)
            == word(b.header->0.hash) && a.header->0.number == b.header->0.number && x.tx_hash
            == y.tx_hash && x.log_index == y.log_index,
        !TriggerView::Block(a).same(TriggerView::PublicLog(y, b)),
        !TriggerView::PublicLog(x, a).same(TriggerView::Block(b)),
{
}

proof fn lemma_bytes_at(a: Seq<u8>, b: Seq<u8>, k: int)
    requires
        0 <= k <= a.len(),
        k <= b.len(),
        forall|j: int| 0 <= j < k ==> a[j] == b[j],
    ensures
        k < a.len() && k < b.len() && a[k] < b[k] ==> bytes_precedence(a, b) is Before,
        k < a.len() && k < b.len() && a[k] > b[k] ==> bytes_precedence(a, b) is After,
        k == a.len() && k < b.len() ==> bytes_precedence(a, b) is Before,
        k < a.len() && k == b.len() ==> bytes_precedence(a, b) is After,
        k == a.len() && k == b.len() ==> bytes_precedence(a, b) is Same,
    decreases k,
{
    if k > 0 {
        let c = a.skip(1);
        let d = b.skip(1);
        assert(a[0] == b[0]);
        assert forall|j: int| 0 <= j < k - 1 implies c[j] == d[j] by {
            assert(c[j] == a[j + 1] && d[j] == b[j + 1]);
        }
        lemma_bytes_at(c, d, k - 1);
    }
}

/// Of two logs the one with the lower index is handled first, whatever else is
/// in them. With one index it is the one whose transaction is lower at the
/// first byte where they differ, here that at `k`, or ends there. Blocks have
/// no order among them.
pub proof fn law_order_of_logs(x: LogView, y: LogView, a: BlockView, b: BlockView, k: int)
    requires
        0 <= k <= x.tx_hash.len(),
        k <= y.tx_hash.len(),
        forall|j: int| 0 <= j < k ==> x.tx_hash[j] == y.tx_hash[j],
    ensures
        ({
            let order = TriggerView::PublicLog(x, a).precedence(TriggerView::PublicLog(y, b));
            let s = x.tx_hash;
            let t = y.tx_hash;
            &&& x.log_index < y.log_index ==> order is Before
            &&& x.log_index > y.log_index ==> order is After
            &&& x.log_index == y.log_index && k < s.len() && k < t.len() && s[k] < t[k]
                ==> order is Before
            &&& x.log_index == y.log_index && k < s.len() && k < t.len() && s[k] > t[k]
                ==> order is After
            &&& x.log_index == y.log_index && k == s.len() && k < t.len() ==> order is Before
            &&& x.log_index == y.log_index && k < s.len() && k == t.len() ==> order is After
            &&& x.log_index == y.log_index && k == s.len() && k == t.len() ==> order is Same
        }),
        TriggerView::Block(a).precedence(TriggerView::Block(b)) is Same,
{
    lemma_bytes_at(x.tx_hash, y.tx_hash, k);
}

/// The block that a trigger is about or in is the one that it was made with,
/// and the pointer to a block is that to its header.
pub proof fn law_block_of_trigger(block: BlockView, log: LogView)
    ensures
        TriggerView::Block(block).block() == block,
        TriggerView::PublicLog(log, block).block() == block,
        block.ptr() == block.header->0.ptr(),
{
}

/// What a log hands to its handler begins with the contract's address and the
/// tag, and that is all without fields. One field more, whatever it holds, adds
/// that field at the end. A block hands on its hash.
pub proof fn law_payload_grows(log: LogView, block: BlockView, field: Seq<u8>)
    ensures
        log.fields.len() == 0 ==> payload(TriggerView::PublicLog(log, block)) == log.contract_address
            + log.tag,
        payload(
            TriggerView::PublicLog(LogView { fields: log.fields.push(field), ..log }, block),
        ) == payload(TriggerView::PublicLog(log, block)) + field,
        payload(TriggerView::Block(block)) == word(block.header->0.hash),
{
    let more = log.fields.push(field);
    log.fields.lemma_flatten_and_flatten_alt_are_equivalent();
    more.lemma_flatten_and_flatten_alt_are_equivalent();
    assert(more.drop_last() =~= log.fields);
    if log.fields.len() == 0 {
        assert(payload(TriggerView::PublicLog(log, block)) =~= log.contract_address + log.tag);
    }
    assert(payload(TriggerView::PublicLog(LogView { fields: more, ..log }, block)) =~= payload(
        TriggerView::PublicLog(log, block),
    ) + field);
}

/// How many bytes `parts` have together.
pub open spec fn total_len(parts: Seq<Seq<u8>>) -> nat
    decreases parts.len(),
{
    if parts.len() == 0 {
        0
    } else {
        total_len(parts.drop_last()) + parts.last().len()
    }
}

/// What a log hands to its handler is as long as its address, its tag and all
/// of its fields together, and field `k` stands in it right behind the address,
/// the tag and the fields before it, whatever the tag is.
pub proof fn law_payload_holds_every_field(log: LogView, block: BlockView, k: int)
    requires
        0 <= k < log.fields.len(),
    ensures
        ({
            let bytes = payload(TriggerView::PublicLog(log, block));
            let at = log.contract_address.len() + log.tag.len() + total_len(log.fields.take(k));
            &&& bytes.len() == log.contract_address.len() + log.tag.len() + total_len(log.fields)
            &&& at + log.fields[k].len() <= bytes.len()
            &&& bytes.subrange(at as int, (at + log.fields[k].len()) as int) == log.fields[k]
            &&& bytes.take((log.contract_address.len() + log.tag.len()) as int) == log.contract_address
                + log.tag
        }),
    decreases log.fields.len(),
{
    let last = log.fields.len() - 1;
    let front = LogView { fields: log.fields.drop_last(), ..log };
    let field = log.fields.last();
    let bytes = payload(TriggerView::PublicLog(log, block));
    let before = payload(TriggerView::PublicLog(front, block));
    let head = log.contract_address + log.tag;
    law_payload_grows(front, block, field);
    assert(front.fields.push(field) =~= log.fields);
    assert(LogView { fields: front.fields.push(field), ..front } == log);
    assert(bytes == before + field);
    if front.fields.len() == 0 {
        assert(before == head);
        assert(log.fields.take(k) =~= front.fields);
        assert(bytes.take(head.len() as int) =~= head);
        assert(bytes.subrange(head.len() as int, (head.len() + field.len()) as int) =~= field);
    } else {
        law_payload_holds_every_field(front, block, if k < last {
            k
        } else {
            0
        });
        assert(bytes.take(head.len() as int) =~= before.take(head.len() as int));
        if k < last {
            assert(front.fields.take(k) =~= log.fields.take(k));
            assert(front.fields[k] == log.fields[k]);
            let at = head.len() + total_len(log.fields.take(k));
            assert(bytes.subrange(at as int, (at + log.fields[k].len()) as int) =~= before.subrange(
                at as int,
                (at + log.fields[k].len()) as int,
            ));
        } else {
            assert(log.fields.take(k) =~= front.fields);
            assert(bytes.subrange(before.len() as int, bytes.len() as int) =~= field);
        }
    }
}

/// A trigger is called in messages by the number and the hash of its block, and
/// a log by its contract, its tag and its transaction too; in logs by fewer of
/// these and by the index of the log.
pub proof fn law_names_of_triggers(block: BlockView, log: LogView)
    requires
        block.located(),
    ensures
        ({
            let number = decimal(block.header->0.number as int);
            let hash = hex_text(word(block.header->0.hash));
            let contract = hex_text(log.contract_address);
            let tag = hex_text(log.tag);
            &&& context_text(TriggerView::Block(block)) == "Aztec block #"@ + number + " (0x"@ + hash
                + ")"@
            &&& context_text(TriggerView::PublicLog(log, block)) == "Aztec public log contract 0x"@
                + contract + ", tag 0x"@ + tag + ", tx 0x"@ + hex_text(log.tx_hash) + ", block #"@
                + number + " (0x"@ + hash + ")"@
            &&& debug_text(TriggerView::Block(block)) == "Block { number: "@ + number + ", hash: \""@
                + hash + "\" }"@
            &&& debug_text(TriggerView::PublicLog(log, block)) == "PublicLog { block: "@ + number
                + ", contract: \""@ + contract + "\", tag: \""@ + tag + "\", log_index: "@ + decimal(
                log.log_index as int,
            ) + " }"@
        }),
{
    reveal_strlit(" (");
    reveal_strlit("0x");
    reveal_strlit(" (0x");
    assert(" (0x"@ =~= " ("@ + "0x"@);
    let number = decimal(block.header->0.number as int);
    let hash = hex_text(word(block.header->0.hash));
    assert(context_text(TriggerView::Block(block)) =~= "Aztec block #"@ + number + " (0x"@ + hash
        + ")"@);
    assert(context_text(TriggerView::PublicLog(log, block)) =~= "Aztec public log contract 0x"@
        + hex_text(log.contract_address) + ", tag 0x"@ + hex_text(log.tag) + ", tx 0x"@ + hex_text(
        log.tx_hash,
    ) + ", block #"@ + number + " (0x"@ + hash + ")"@);
}

/// The model of a trigger holds what the trigger holds.
pub proof fn law_model_of_trigger(block: Arc<Block>, trigger: Arc<PublicLogTrigger>)
    ensures
        AztecTrigger::Block(block)@ == TriggerView::Block((*block)@),
        AztecTrigger::PublicLog(trigger)@ == TriggerView::PublicLog(trigger.log@, (*trigger.block)@),
{
}

} // verus!

//! Data sources: which triggers they want, and what handles them.
use std::sync::Arc;
use vstd::prelude::*;
use vstd::string::*;
use vstd::utf8::encode_utf8;
use crate::codec::{ascii_lower, has_hex_prefix, normalize_hex, normalized_hex, same_but_case, Block, BlockNumber, BlockPtr, BlockTime, BlockView, LogView};
use crate::hexadecimal::hex_text;
use crate::reading::{law_hex_read_back, law_spelling_of_bytes};
use crate::trigger::{share, AztecTrigger, PublicLogTrigger, TriggerView};
use crate::version::Version;

verus! {

/// The kind of a data source that follows the chain.
pub const AZTEC_KIND: &'static str = "aztec";

/// The kind of a data source that follows a contract.
pub const AZTEC_CONTRACT_KIND: &'static str = "aztec/contract";

/// What the handlers of blocks are called.
pub const BLOCK_HANDLER_KIND: &'static str = "block";

/// What the handlers of public logs are called.
pub const PUBLIC_LOG_HANDLER_KIND: &'static str = "event";

/// What a data source follows, and from which block to which.
#[derive(Clone, Debug, Default, PartialEq, Eq)]
pub struct Source {
    pub address: Option<String>,
    pub start_block: BlockNumber,
    pub end_block: Option<BlockNumber>,
}

/// A handler of blocks.
#[derive(Clone, Debug, PartialEq, Eq)]
pub struct MappingBlockHandler {
    pub handler: String,
}

/// A handler of public logs: of those with a tag, or of all. The tag may be
/// given as an event instead.
#[derive(Clone, Debug, PartialEq, Eq)]
pub struct MappingEventHandler {
    pub handler: String,
    pub event: Option<String>,
    pub tag: Option<String>,
}

/// Where a file is.
#[derive(Clone, Debug, Default, PartialEq, Eq)]
pub struct Link {
    pub link: String,
}

/// The attributes that a data source hands to its handlers: names and values
/// as text, in a fixed order.
#[derive(Clone, Debug, PartialEq, Eq)]
pub struct DataSourceContext {
    pub attributes: Vec<(String, String)>,
}

/// The handlers of a data source, with the module that they are in.
#[derive(Clone, Debug)]
pub struct Mapping {
    pub api_version: Version,
    pub language: String,
    pub entities: Vec<String>,
    pub block_handlers: Vec<MappingBlockHandler>,
    pub event_handlers: Vec<MappingEventHandler>,
    pub runtime: Arc<Vec<u8>>,
    pub link: Link,
}

/// A data source.
#[derive(Clone, Debug)]
pub struct DataSource {
    pub kind: String,
    pub network: Option<String>,
    pub name: String,
    pub source: Source,
    pub mapping: Mapping,
    pub context: Arc<Option<DataSourceContext>>,
    pub creation_block: Option<BlockNumber>,
}

/// A text that may be missing.
pub open spec fn maybe_text(text: Option<String>) -> Option<Seq<char>> {
    match text {
        Some(t) => Some(t@),
        None => None,
    }
}

/// The mathematical model of a `Source`.
pub struct SourceView {
    pub address: Option<Seq<char>>,
    pub start_block: BlockNumber,
    pub end_block: Option<BlockNumber>,
}

/// The mathematical model of a `MappingEventHandler`.
pub struct EventHandlerView {
    pub handler: Seq<char>,
    pub event: Option<Seq<char>>,
    pub tag: Option<Seq<char>>,
}

/// The mathematical model of a `Mapping`.
pub struct MappingView {
    pub api_version: (u64, u64, u64, Seq<char>, Seq<char>),
    pub language: Seq<char>,
    pub entities: Seq<Seq<char>>,
    pub block_handlers: Seq<Seq<char>>,
    pub event_handlers: Seq<EventHandlerView>,
    pub runtime: Seq<u8>,
    pub link: Seq<char>,
}

/// The mathematical model of a `DataSource`.
pub struct DataSourceView {
    pub kind: Seq<char>,
    pub network: Option<Seq<char>>,
    pub name: Seq<char>,
    pub source: SourceView,
    pub mapping: MappingView,
    pub context: Option<Seq<(Seq<char>, Seq<char>)>>,
    pub creation_block: Option<BlockNumber>,
}

impl View for Source {
    type V = SourceView;

    open spec fn view(&self) -> SourceView {
        SourceView {
            address: maybe_text(self.address),
            start_block: self.start_block,
            end_block: self.end_block,
        }
    }
}

impl View for MappingEventHandler {
    type V = EventHandlerView;

    open spec fn view(&self) -> EventHandlerView {
        EventHandlerView {
            handler: self.handler@,
            event: maybe_text(self.event),
            tag: maybe_text(self.tag),
        }
    }
}

/// The texts of `texts`, in order.
pub open spec fn text_views(texts: Seq<String>) -> Seq<Seq<char>> {
    texts.map_values(|t: String| t@)
}

/// The handlers named in `handlers`, in order.
pub open spec fn block_handler_views(handlers: Seq<MappingBlockHandler>) -> Seq<Seq<char>> {
    handlers.map_values(|h: MappingBlockHandler| h.handler@)
}

/// The models of `handlers`, in order.
pub open spec fn event_handler_views(handlers: Seq<MappingEventHandler>) -> Seq<EventHandlerView> {
    handlers.map_values(|h: MappingEventHandler| h@)
}

impl View for Mapping {
    type V = MappingView;

    open spec fn view(&self) -> MappingView {
        MappingView {
            api_version: self.api_version@,
            language: self.language@,
            entities: text_views(self.entities@),
            block_handlers: block_handler_views(self.block_handlers@),
            event_handlers: event_handler_views(self.event_handlers@),
            runtime: (*self.runtime)@,
            link: self.link.link@,
        }
    }
}

/// The names and values in `attributes`, in order.
pub open spec fn attribute_views(attributes: Seq<(String, String)>) -> Seq<(Seq<char>, Seq<char>)> {
    attributes.map_values(|a: (String, String)| (a.0@, a.1@))
}

/// The attributes in `context`, in order.
pub open spec fn context_view(context: Option<DataSourceContext>) -> Option<Seq<(Seq<char>, Seq<char>)>> {
    match context {
        Some(c) => Some(attribute_views(c.attributes@)),
        None => None,
    }
}

impl View for DataSource {
    type V = DataSourceView;

    open spec fn view(&self) -> DataSourceView {
        DataSourceView {
            kind: self.kind@,
            network: maybe_text(self.network),
            name: self.name@,
            source: self.source@,
            mapping: self.mapping@,
            context: context_view(*self.context),
            creation_block: self.creation_block,
        }
    }
}

impl EventHandlerView {
    /// The tag that the handler wants, if it wants a certain one.
    pub open spec fn wanted_tag(self) -> Option<Seq<char>> {
        match self.tag {
            Some(tag) => Some(tag),
            None => self.event,
        }
    }

    /// Whether the handler wants `log`, by its tag.
    pub open spec fn wants(self, log: LogView) -> bool {
        match self.wanted_tag() {
            Some(tag) => normalized_hex(tag) == hex_text(log.tag),
            None => true,
        }
    }
}

/// The first of `handlers` that wants `log`.
pub open spec fn first_handler(handlers: Seq<EventHandlerView>, log: LogView) -> Option<EventHandlerView>
    decreases handlers.len(),
{
    if handlers.len() == 0 {
        None
    } else if handlers[0].wants(log) {
        Some(handlers[0])
    } else {
        first_handler(handlers.skip(1), log)
    }
}

impl DataSourceView {
    /// Whether the data source handles blocks.
    pub open spec fn handles_blocks(self) -> bool {
        self.mapping.block_handlers.len() > 0
    }

    /// Whether the data source handles public logs.
    pub open spec fn handles_logs(self) -> bool {
        self.mapping.event_handlers.len() > 0
    }

    /// Whether `log` is of the contract that the data source follows; without
    /// an address it follows all.
    pub open spec fn follows(self, log: LogView) -> bool {
        match self.source.address {
            Some(address) => normalized_hex(address) == hex_text(log.contract_address),
            None => true,
        }
    }

    /// What handles `log`: the first handler that wants it.
    pub open spec fn log_handler(self, log: LogView) -> Option<EventHandlerView> {
        if self.follows(log) {
            first_handler(self.mapping.event_handlers, log)
        } else {
            None
        }
    }

    /// The name of what handles `trigger`, by its kind.
    pub open spec fn handler(self, trigger: TriggerView) -> Option<Seq<char>> {
        match trigger {
            TriggerView::Block(_) => if self.handles_blocks() {
                Some(self.mapping.block_handlers[0])
            } else {
                None
            },
            TriggerView::PublicLog(log, _) => match self.log_handler(log) {
                Some(handler) => Some(handler.handler),
                None => None,
            },
        }
    }

    /// The name of what handles `trigger` at `block`: nothing does before the
    /// block that the data source starts at.
    pub open spec fn handler_at(self, trigger: TriggerView, block: BlockView) -> Option<Seq<char>> {
        if self.source.start_block > block.header->0.number {
            None
        } else {
            self.handler(trigger)
        }
    }

    /// Whether `other` says the same: all but the module and where it is from.
    pub open spec fn duplicates(self, other: DataSourceView) -> bool {
        &&& self.kind == other.kind
        &&& self.network == other.network
        &&& self.name == other.name
        &&& self.source == other.source
        &&& self.mapping.block_handlers == other.mapping.block_handlers
        &&& self.mapping.event_handlers == other.mapping.event_handlers
        &&& self.context == other.context
    }
}

/// A trigger with the name of the handler to run for it.
#[derive(Debug)]
pub struct TriggerWithHandler {
    pub trigger: AztecTrigger,
    pub handler: String,
    pub block_ptr: BlockPtr,
    pub timestamp: BlockTime,
}

/// What is wrong with a data source.
#[derive(Debug, PartialEq, Eq)]
pub enum ValidationError {
    /// It is of this kind, which is none of this chain.
    InvalidKind(String),
    /// It handles public logs but does not say of which contract.
    MissingAddress,
}

/// The mathematical model of a `ValidationError`.
pub enum ValidationView {
    InvalidKind(Seq<char>),
    MissingAddress,
}

impl View for ValidationError {
    type V = ValidationView;

    open spec fn view(&self) -> ValidationView {
        match self {
            ValidationError::InvalidKind(kind) => ValidationView::InvalidKind(kind@),
            ValidationError::MissingAddress => ValidationView::MissingAddress,
        }
    }
}

/// The message for a fault in a data source.
pub open spec fn validation_message(fault: ValidationView) -> Seq<char> {
    match fault {
        ValidationView::InvalidKind(kind) => "data source has invalid `kind`, expected "@ + AZTEC_KIND@
            + " or "@ + AZTEC_CONTRACT_KIND@ + " but found "@ + kind,
        ValidationView::MissingAddress =>
            "Aztec public event/log handlers require `source.address` for this POC"@,
    }
}

impl ValidationError {
    /// The message for the fault.
    pub fn message(&self) -> (r: String)
        ensures
            r@ == validation_message(self@),
    {
        let mut text = String::new();
        match self {
            ValidationError::InvalidKind(kind) => {
                text.append("data source has invalid `kind`, expected ");
                text.append(AZTEC_KIND);
                text.append(" or ");
                text.append(AZTEC_CONTRACT_KIND);
                text.append(" but found ");
                text.append(kind.as_str());
            },
            ValidationError::MissingAddress => {
                text.append("Aztec public event/log handlers require `source.address` for this POC");
            },
        }
        assert(text@ =~= validation_message(self@));
        text
    }
}

/// What is wrong with a data source.
pub open spec fn faults(source: DataSourceView) -> Seq<ValidationView> {
    let kind = if source.kind != AZTEC_KIND@ && source.kind != AZTEC_CONTRACT_KIND@ {
        seq![ValidationView::InvalidKind(source.kind)]
    } else {
        Seq::empty()
    };
    let address = if source.handles_logs() && source.source.address is None {
        seq![ValidationView::MissingAddress]
    } else {
        Seq::empty()
    };
    kind + address
}

/// The names of the kinds of handlers that a data source has.
pub open spec fn kinds_of(source: DataSourceView) -> Seq<Seq<char>> {
    (if source.handles_blocks() {
        seq![BLOCK_HANDLER_KIND@]
    } else {
        Seq::empty()
    }) + (if source.handles_logs() {
        seq![PUBLIC_LOG_HANDLER_KIND@]
    } else {
        Seq::empty()
    })
}

fn same_texts(a: &Option<String>, b: &Option<String>) -> (r: bool)
    ensures
        r == (maybe_text(*a) == maybe_text(*b)),
{
    match (a, b) {
        (Some(a), Some(b)) => *a == *b,
        (None, None) => true,
        _ => false,
    }
}

fn same_source(a: &Source, b: &Source) -> (r: bool)
    ensures
        r == (a@ == b@),
{
    same_texts(&a.address, &b.address) && a.start_block == b.start_block && match (
        a.end_block,
        b.end_block,
    ) {
        (Some(a), Some(b)) => a == b,
        (None, None) => true,
        _ => false,
    }
}

fn same_block_handlers(a: &Vec<MappingBlockHandler>, b: &Vec<MappingBlockHandler>) -> (r: bool)
    ensures
        r == (block_handler_views(a@) == block_handler_views(b@)),
{
    let ghost va = block_handler_views(a@);
    let ghost vb = block_handler_views(b@);
    if a.len() != b.len() {
        assert(va.len() != vb.len());
        return false;
    }
    let mut i: usize = 0;
    while i < a.len()
        invariant
            i <= a@.len(),
            a@.len() == b@.len(),
            va == block_handler_views(a@),
            vb == block_handler_views(b@),
            forall|k: int| 0 <= k < i ==> va[k] == vb[k],
        decreases a@.len() - i,
    {
        if !(a[i].handler == b[i].handler) {
            assert(va[i as int] != vb[i as int]);
            return false;
        }
        i += 1;
    }
    assert(va =~= vb);
    true
}

fn same_event_handlers(a: &Vec<MappingEventHandler>, b: &Vec<MappingEventHandler>) -> (r: bool)
    ensures
        r == (event_handler_views(a@) == event_handler_views(b@)),
{
    let ghost va = event_handler_views(a@);
    let ghost vb = event_handler_views(b@);
    if a.len() != b.len() {
        assert(va.len() != vb.len());
        return false;
    }
    let mut i: usize = 0;
    while i < a.len()
        invariant
            i <= a@.len(),
            a@.len() == b@.len(),
            va == event_handler_views(a@),
            vb == event_handler_views(b@),
            forall|k: int| 0 <= k < i ==> va[k] == vb[k],
        decreases a@.len() - i,
    {
        if !(a[i].handler == b[i].handler && same_texts(&a[i].event, &b[i].event) && same_texts(
            &a[i].tag,
            &b[i].tag,
        )) {
            assert(va[i as int] != vb[i as int]);
            return false;
        }
        i += 1;
    }
    assert(va =~= vb);
    true
}

fn same_attributes(a: &Vec<(String, String)>, b: &Vec<(String, String)>) -> (r: bool)
    ensures
        r == (attribute_views(a@) == attribute_views(b@)),
{
    let ghost va = attribute_views(a@);
    let ghost vb = attribute_views(b@);
    if a.len() != b.len() {
        assert(va.len() != vb.len());
        return false;
    }
    let mut i: usize = 0;
    while i < a.len()
        invariant
            i <= a@.len(),
            a@.len() == b@.len(),
            va == attribute_views(a@),
            vb == attribute_views(b@),
            forall|k: int| 0 <= k < i ==> va[k] == vb[k],
        decreases a@.len() - i,
    {
        if !(a[i].0 == b[i].0 && a[i].1 == b[i].1) {
            assert(va[i as int] != vb[i as int]);
            return false;
        }
        i += 1;
    }
    assert(va =~= vb);
    true
}

fn same_contexts(a: &Option<DataSourceContext>, b: &Option<DataSourceContext>) -> (r: bool)
    ensures
        r == (context_view(*a) == context_view(*b)),
{
    match (a, b) {
        (Some(a), Some(b)) => same_attributes(&a.attributes, &b.attributes),
        (None, None) => true,
        _ => false,
    }
}

impl DataSource {
    /// The data source that a manifest describes.
    pub fn from_manifest(
        kind: String,
        network: Option<String>,
        name: String,
        source: Source,
        mapping: Mapping,
        context: Option<DataSourceContext>,
    ) -> (r: Self)
        ensures
            r@ == (DataSourceView {
                kind: kind@,
                network: maybe_text(network),
                name: name@,
                source: source@,
                mapping: mapping@,
                context: context_view(context),
                creation_block: None,
            }),
    {
        DataSource { kind, network, name, source, mapping, context: Arc::new(context), creation_block: None }
    }

    /// Whether the data source handles blocks.
    pub fn has_block_handler(&self) -> (r: bool)
        ensures
            r == self@.handles_blocks(),
    {
        !self.mapping.block_handlers.is_empty()
    }

    /// Whether the data source handles public logs.
    pub fn has_public_log_handler(&self) -> (r: bool)
        ensures
            r == self@.handles_logs(),
    {
        !self.mapping.event_handlers.is_empty()
    }

    /// What handles blocks: the first handler given for them.
    pub fn block_handler(&self) -> (r: Option<&MappingBlockHandler>)
        ensures
            match r {
                Some(handler) => self@.handles_blocks() && handler.handler@
                    == self@.mapping.block_handlers[0],
                None => !self@.handles_blocks(),
            },
    {
        if self.mapping.block_handlers.len() > 0 {
            Some(&self.mapping.block_handlers[0])
        } else {
            None
        }
    }

    /// What handles the log of `trigger`: the first handler that wants its
    /// tag, if the log is of the contract that the data source follows.
    pub fn matching_public_log_handler(&self, trigger: &PublicLogTrigger) -> (r: Option<&MappingEventHandler>)
        ensures
            match r {
                Some(handler) => self@.log_handler(trigger.log@) == Some(handler@),
                None => self@.log_handler(trigger.log@) is None,
            },
    {
        match &self.source.address {
            Some(address) => {
                if !(normalize_hex(address.as_str()) == trigger.log.contract_address_hex()) {
                    return None;
                }
            },
            None => {},
        }
        let tag_hex = trigger.log.tag_hex();
        let ghost all = self@.mapping.event_handlers;
        let handlers = &self.mapping.event_handlers;
        let mut i: usize = 0;
        assert(all.skip(0) == all);
        while i < handlers.len()
            invariant
                i <= handlers@.len(),
                all == event_handler_views(handlers@),
                tag_hex@ == hex_text(trigger.log@.tag),
                self@.follows(trigger.log@),
                all == self@.mapping.event_handlers,
                first_handler(all, trigger.log@) == first_handler(all.skip(i as int), trigger.log@),
            decreases handlers@.len() - i,
        {
            proof {
                assert(all.skip(i as int)[0] == handlers@[i as int]@);
                assert(all.skip(i as int).skip(1) == all.skip(i + 1));
            }
            let wanted = match &handlers[i].tag {
                Some(tag) => Some(tag),
                None => handlers[i].event.as_ref(),
            };
            let wants = match wanted {
                Some(tag) => normalize_hex(tag.as_str()) == tag_hex,
                None => true,
            };
            if wants {
                return Some(&handlers[i]);
            }
            i += 1;
        }
        None
    }

    /// The address as it is given, as bytes.
    pub fn address(&self) -> (r: Option<&[u8]>)
        ensures
            match r {
                Some(bytes) => self@.source.address is Some && bytes@ == encode_utf8(
                    self@.source.address->0,
                ),
                None => self@.source.address is None,
            },
    {
        match &self.source.address {
            Some(address) => Some(address.as_str().as_bytes()),
            None => None,
        }
    }

    /// The block that the data source starts at.
    pub fn start_block(&self) -> (r: BlockNumber)
        ensures
            r == self@.source.start_block,
    {
        self.source.start_block
    }

    /// The block that the data source ends at, if it does.
    pub fn end_block(&self) -> (r: Option<BlockNumber>)
        ensures
            r == self@.source.end_block,
    {
        self.source.end_block
    }

    /// The name.
    pub fn name(&self) -> (r: &str)
        ensures
            r@ == self@.name,
    {
        self.name.as_str()
    }

    /// The kind.
    pub fn kind(&self) -> (r: &str)
        ensures
            r@ == self@.kind,
    {
        self.kind.as_str()
    }

    /// The network, if one is given.
    pub fn network(&self) -> (r: Option<&str>)
        ensures
            match r {
                Some(network) => self@.network == Some(network@),
                None => self@.network is None,
            },
    {
        match &self.network {
            Some(network) => Some(network.as_str()),
            None => None,
        }
    }

    /// The context.
    pub fn context(&self) -> (r: Arc<Option<DataSourceContext>>)
        ensures
            r == self.context,
    {
        share(&self.context)
    }

    /// The block that the data source was created at, if it was.
    pub fn creation_block(&self) -> (r: Option<BlockNumber>)
        ensures
            r == self@.creation_block,
    {
        self.creation_block
    }

    /// The version of the interface that the mapping is written against.
    pub fn api_version(&self) -> (r: Version)
        ensures
            r@ == self@.mapping.api_version,
    {
        self.mapping.api_version.clone()
    }

    /// The module that the handlers are in.
    pub fn runtime(&self) -> (r: Option<Arc<Vec<u8>>>)
        ensures
            r == Some(self.mapping.runtime),
    {
        Some(share(&self.mapping.runtime))
    }

    /// The kinds of handlers that there are, each once.
    pub fn handler_kinds(&self) -> (r: Vec<&'static str>)
        ensures
            r@ == (if self@.handles_blocks() {
                seq![BLOCK_HANDLER_KIND]
            } else {
                Seq::empty()
            }) + (if self@.handles_logs() {
                seq![PUBLIC_LOG_HANDLER_KIND]
            } else {
                Seq::empty()
            }),
            r@.map_values(|kind: &'static str| kind@) == kinds_of(self@),
    {
        let mut kinds: Vec<&'static str> = Vec::new();
        if self.has_block_handler() {
            kinds.push(BLOCK_HANDLER_KIND);
        }
        if self.has_public_log_handler() {
            kinds.push(PUBLIC_LOG_HANDLER_KIND);
        }
        assert(kinds@.map_values(|kind: &'static str| kind@) =~= kinds_of(self@));
        kinds
    }

    /// `trigger` with its handler, if the data source wants it at `block`.
    pub fn match_and_decode(&self, trigger: &AztecTrigger, block: &Block) -> (r: Option<TriggerWithHandler>)
        requires
            block@.numbered(),
            self@.handler_at(trigger@, block@) is Some ==> block@.located(),
        ensures
            match r {
                Some(matched) => {
                    &&& self@.handler_at(trigger@, block@) == Some(matched.handler@)
                    &&& matched.trigger == *trigger
                    &&& matched.block_ptr@ == block@.ptr()
                    &&& matched.timestamp == (BlockTime {
                        seconds: block@.header->0.timestamp,
                        nanos: 0,
                    })
                    &&& matched.timestamp == block@.header->0.time()
                },
                None => self@.handler_at(trigger@, block@) is None,
            },
    {
        if self.source.start_block > block.number() {
            return None;
        }
        let handler = match trigger {
            AztecTrigger::Block(_) => match self.block_handler() {
                Some(handler) => handler.handler.clone(),
                None => return None,
            },
            AztecTrigger::PublicLog(public_log) => match self.matching_public_log_handler(
                public_log,
            ) {
                Some(handler) => handler.handler.clone(),
                None => return None,
            },
        };
        Some(
            TriggerWithHandler {
                trigger: trigger.clone(),
                handler,
                block_ptr: block.ptr(),
                timestamp: block.timestamp(),
            },
        )
    }

    /// Whether `other` says the same: all but the module and where it is from.
    pub fn is_duplicate_of(&self, other: &Self) -> (r: bool)
        ensures
            r == self@.duplicates(other@),
    {
        self.kind == other.kind && same_texts(&self.network, &other.network) && self.name
            == other.name && same_source(&self.source, &other.source) && same_block_handlers(
            &self.mapping.block_handlers,
            &other.mapping.block_handlers,
        ) && same_event_handlers(&self.mapping.event_handlers, &other.mapping.event_handlers)
            && same_contexts(&self.context, &other.context)
    }

    /// What is wrong with the data source: a kind that is none of this chain,
    /// and public logs handled without an address.
    pub fn validate(&self) -> (r: Vec<ValidationError>)
        ensures
            r@.map_values(|e: ValidationError| e@) == faults(self@),
    {
        let mut errors: Vec<ValidationError> = Vec::new();
        if !(self.kind == AZTEC_KIND.to_owned()) && !(self.kind == AZTEC_CONTRACT_KIND.to_owned()) {
            errors.push(ValidationError::InvalidKind(self.kind.clone()));
        }
        if self.has_public_log_handler() && self.source.address.is_none() {
            errors.push(ValidationError::MissingAddress);
        }
        assert(errors@.map_values(|e: ValidationError| e@) =~= faults(self@));
        errors
    }
}

/// To say the same is an equivalence, and sources that say the same run the
/// same handlers.
pub proof fn law_duplicates(
    a: DataSourceView,
    b: DataSourceView,
    c: DataSourceView,
    trigger: TriggerView,
    block: BlockView,
)
    ensures
        a.duplicates(a),
        a.duplicates(b) ==> b.duplicates(a),
        a.duplicates(b) && b.duplicates(c) ==> a.duplicates(c),
        a.duplicates(b) ==> a.handler_at(trigger, block) == b.handler_at(trigger, block),
{
}

/// A data source whose address is that of a contract in hexadecimal digits,
/// with `0x` in front or without, in whatever case the digits are, follows the
/// logs of that contract and no others.
pub proof fn law_follows_its_contract(source: DataSourceView, contract: Seq<u8>, log: LogView)
    requires
        source.source.address is Some,
        same_but_case(source.source.address->0, hex_text(contract)) || same_but_case(
            source.source.address->0,
            "0x"@ + hex_text(contract),
        ),
    ensures
        source.follows(log) <==> log.contract_address == contract,
{
    law_spelling_of_bytes(contract, source.source.address->0);
    law_hex_read_back(contract, hex_text(contract));
    law_hex_read_back(log.contract_address, hex_text(log.contract_address));
}

/// A handler whose tag is given in hexadecimal digits, with `0x` in front or
/// without, in whatever case the digits are, wants the logs with that tag and
/// no others.
pub proof fn law_wants_its_tag(handler: EventHandlerView, tag: Seq<u8>, log: LogView)
    requires
        handler.wanted_tag() is Some,
        same_but_case(handler.wanted_tag()->0, hex_text(tag)) || same_but_case(
            handler.wanted_tag()->0,
            "0x"@ + hex_text(tag),
        ),
    ensures
        handler.wants(log) <==> log.tag == tag,
{
    law_spelling_of_bytes(tag, handler.wanted_tag()->0);
    law_hex_read_back(tag, hex_text(tag));
    law_hex_read_back(log.tag, hex_text(log.tag));
}

/// The models of data sources hold what these hold.
pub proof fn law_models_of_sources(source: DataSource, handler: MappingEventHandler, k: int)
    ensures
        handler@.handler == handler.handler@,
        handler@.tag == maybe_text(handler.tag),
        handler@.event == maybe_text(handler.event),
        source@.kind == source.kind@,
        source@.network == maybe_text(source.network),
        source@.name == source.name@,
        source@.source.address == maybe_text(source.source.address),
        source@.source.start_block == source.source.start_block,
        source@.source.end_block == source.source.end_block,
        source@.creation_block == source.creation_block,
        source@.context is Some <==> *source.context is Some,
        *source.context matches Some(c) ==> source@.context->0.len() == c.attributes@.len() && (0 <= k
            < c.attributes@.len() ==> source@.context->0[k] == (
            c.attributes@[k].0@,
            c.attributes@[k].1@,
        )),
        source@.mapping.language == source.mapping.language@,
        source@.mapping.link == source.mapping.link.link@,
        source@.mapping.runtime == (*source.mapping.runtime)@,
        source@.mapping.api_version == source.mapping.api_version@,
        source@.mapping.entities.len() == source.mapping.entities@.len(),
        0 <= k < source.mapping.entities@.len() ==> source@.mapping.entities[k]
            == source.mapping.entities@[k]@,
        source@.mapping.block_handlers.len() == source.mapping.block_handlers@.len(),
        0 <= k < source.mapping.block_handlers@.len() ==> source@.mapping.block_handlers[k]
            == source.mapping.block_handlers@[k].handler@,
        source@.mapping.event_handlers.len() == source.mapping.event_handlers@.len(),
        0 <= k < source.mapping.event_handlers@.len() ==> source@.mapping.event_handlers[k]
            == source.mapping.event_handlers@[k]@,
        forall|t: Option<String>| (#[trigger] maybe_text(t)) is Some <==> t is Some,
        forall|t: String| #[trigger] maybe_text(Some(t)) == Some(t@),
{
}

/// The tag that a handler wants is the one given as its tag, whatever event is
/// given; without a tag it is the event. A handler without either wants every
/// log.
pub proof fn law_wanted_tag(handler: EventHandlerView, log: LogView)
    ensures
        handler.tag is Some ==> handler.wanted_tag() == handler.tag,
        handler.tag is None ==> handler.wanted_tag() == handler.event,
        handler.tag is None && handler.event is None ==> handler.wants(log),
{
}

/// A handler that wants a certain tag wants only logs whose tag is written so:
/// in hexadecimal digits, with `0x` or `0X` in front or without, in whatever
/// case. The same holds of the address that a data source follows.
pub proof fn law_only_what_is_written(handler: EventHandlerView, source: DataSourceView, log: LogView)
    ensures
        handler.wants(log) && handler.wanted_tag() is Some ==> spells(
            handler.wanted_tag()->0,
            log.tag,
        ),
        handler.wanted_tag() is Some && spells(handler.wanted_tag()->0, log.tag) ==> handler.wants(
            log,
        ),
        source.source.address is None ==> source.follows(log),
        source.source.address is Some ==> (source.follows(log) <==> spells(
            source.source.address->0,
            log.contract_address,
        )),
{
    if let Some(tag) = handler.wanted_tag() {
        lemma_spells(tag, log.tag);
    }
    if let Some(address) = source.source.address {
        lemma_spells(address, log.contract_address);
    }
}

/// Whether `s` writes `bytes` out in hexadecimal digits, with `0x` or `0X` in
/// front or without, in whatever case.
pub open spec fn spells(s: Seq<char>, bytes: Seq<u8>) -> bool {
    same_but_case(s, hex_text(bytes)) || same_but_case(s, "0x"@ + hex_text(bytes))
}

proof fn lemma_spells(s: Seq<char>, bytes: Seq<u8>)
    ensures
        spells(s, bytes) <==> normalized_hex(s) == hex_text(bytes),
{
    if spells(s, bytes) {
        law_spelling_of_bytes(bytes, s);
    }
    if normalized_hex(s) == hex_text(bytes) {
        reveal_strlit("0x");
        let t = hex_text(bytes);
        law_spelling_of_bytes(bytes, t);
        let lower_t = t.map_values(|c: char| ascii_lower(c));
        assert(lower_t =~= t) by {
            assert forall|i: int| 0 <= i < t.len() implies ascii_lower(t[i]) == t[i] by {
                assert(t[i] == normalized_hex(s)[i]);
            }
        }
        if has_hex_prefix(s) {
            let u = "0x"@ + t;
            assert(s.map_values(|c: char| ascii_lower(c)) =~= u.map_values(|c: char| ascii_lower(c))) by {
                assert forall|i: int| 0 <= i < s.len() implies ascii_lower(s[i]) == ascii_lower(u[i]) by {
                    if i >= 2 {
                        assert(s.skip(2)[i - 2] == s[i]);
                        assert(normalized_hex(s)[i - 2] == ascii_lower(s[i]));
                        assert(lower_t[i - 2] == t[i - 2]);
                        assert(u[i] == t[i - 2]);
                    }
                }
            }
        } else {
            assert(s.map_values(|c: char| ascii_lower(c)) =~= lower_t);
        }
    }
}

proof fn lemma_first_handler_at(handlers: Seq<EventHandlerView>, log: LogView, k: int)
    requires
        0 <= k <= handlers.len(),
        forall|j: int| 0 <= j < k ==> !(#[trigger] handlers[j]).wants(log),
    ensures
        k < handlers.len() && handlers[k].wants(log) ==> first_handler(handlers, log) == Some(
            handlers[k],
        ),
        k == handlers.len() ==> first_handler(handlers, log) is None,
    decreases k,
{
    if k > 0 {
        let rest = handlers.skip(1);
        assert(!handlers[0].wants(log));
        assert forall|j: int| 0 <= j < k - 1 implies !(#[trigger] rest[j]).wants(log) by {
            assert(rest[j] == handlers[j + 1]);
        }
        lemma_first_handler_at(rest, log, k - 1);
    }
}

/// A log of the contract that a data source follows is handled by the handler
/// that wants it and before which, in the manifest's order, none wants it.
/// Nothing handles it where no handler wants it, or where it is of another
/// contract.
pub proof fn law_first_handler_that_wants(source: DataSourceView, log: LogView, k: int)
    requires
        0 <= k <= source.mapping.event_handlers.len(),
        forall|j: int| 0 <= j < k ==> !(#[trigger] source.mapping.event_handlers[j]).wants(log),
    ensures
        !source.follows(log) ==> source.log_handler(log) is None,
        source.follows(log) && k < source.mapping.event_handlers.len()
            && source.mapping.event_handlers[k].wants(log) ==> source.log_handler(log) == Some(
            source.mapping.event_handlers[k],
        ),
        k == source.mapping.event_handlers.len() ==> source.log_handler(log) is None,
{
    lemma_first_handler_at(source.mapping.event_handlers, log, k);
}

/// Before the block that a data source starts at it handles nothing. From that
/// block on, whatever block it ends at, it runs the first of its block handlers
/// for a block, and for a log the handler that the log has.
pub proof fn law_handled_from_the_start(source: DataSourceView, block: BlockView, log: LogView, within: BlockView)
    ensures
        block.header->0.number < source.source.start_block ==> source.handler_at(
            TriggerView::Block(within),
            block,
        ) is None && source.handler_at(TriggerView::PublicLog(log, within), block) is None,
        block.header->0.number >= source.source.start_block ==> source.handler_at(
            TriggerView::Block(within),
            block,
        ) == (if source.mapping.block_handlers.len() > 0 {
            Some(source.mapping.block_handlers[0])
        } else {
            None
        }),
        block.header->0.number >= source.source.start_block && source.log_handler(log) is Some
            ==> source.handler_at(TriggerView::PublicLog(log, within), block) == Some(
            source.log_handler(log)->0.handler,
        ),
        source.log_handler(log) is None ==> source.handler_at(
            TriggerView::PublicLog(log, within),
            block,
        ) is None,
{
}

/// Whether a data source handles blocks or logs is whether it has handlers for
/// them.
pub proof fn law_handles(source: DataSourceView)
    ensures
        source.handles_blocks() <==> source.mapping.block_handlers.len() > 0,
        source.handles_logs() <==> source.mapping.event_handlers.len() > 0,
{
}

/// Two data sources say the same exactly where they are alike in kind, network,
/// name, address, start and end, in each handler, and in the context.
pub proof fn law_alike(a: DataSourceView, b: DataSourceView)
    ensures
        a.duplicates(b) ==> a.kind == b.kind && a.network == b.network && a.name == b.name && a.context
            == b.context,
        a.duplicates(b) ==> a.source.address == b.source.address && a.source.start_block
            == b.source.start_block && a.source.end_block == b.source.end_block,
        a.duplicates(b) ==> a.mapping.block_handlers.len() == b.mapping.block_handlers.len() && forall|
            k: int,
        |
            0 <= k < a.mapping.block_handlers.len() ==> a.mapping.block_handlers[k]
                == b.mapping.block_handlers[k],
        a.duplicates(b) ==> a.mapping.event_handlers.len() == b.mapping.event_handlers.len() && forall|
            k: int,
        |
            0 <= k < a.mapping.event_handlers.len() ==> a.mapping.event_handlers[k].handler
                == b.mapping.event_handlers[k].handler && a.mapping.event_handlers[k].tag
                == b.mapping.event_handlers[k].tag && a.mapping.event_handlers[k].event
                == b.mapping.event_handlers[k].event,
        a.kind == b.kind && a.network == b.network && a.name == b.name && a.source == b.source
            && a.context == b.context && a.mapping.block_handlers == b.mapping.block_handlers
            && a.mapping.event_handlers == b.mapping.event_handlers ==> a.duplicates(b),
{
}

/// A data source has a fault exactly where its kind is neither that of the
/// chain nor that of a contract, and where it handles logs without an address;
/// each fault is told once, that of the kind first.
pub proof fn law_faults(source: DataSourceView)
    ensures
        ({
            let known = source.kind == "aztec"@ || source.kind == "aztec/contract"@;
            let lost = source.mapping.event_handlers.len() > 0 && source.source.address is None;
            let found = faults(source);
            &&& found.len() == (if known { 0int } else { 1 }) + (if lost { 1int } else { 0 })
            &&& !known ==> found[0] == ValidationView::InvalidKind(source.kind)
            &&& lost ==> found[found.len() - 1] == ValidationView::MissingAddress
        }),
{
}

/// The messages for faults name what was found and what is expected.
pub proof fn law_fault_messages(kind: Seq<char>)
    ensures
        validation_message(ValidationView::InvalidKind(kind))
            == "data source has invalid `kind`, expected "@ + "aztec"@ + " or "@ + "aztec/contract"@
            + " but found "@ + kind,
        validation_message(ValidationView::MissingAddress)
            == "Aztec public event/log handlers require `source.address` for this POC"@,
{
}

/// The names of the kinds of handlers that a data source has are those of the
/// kinds that it handles, each once, blocks first.
pub proof fn law_kinds_of_handlers(source: DataSourceView)
    ensures
        kinds_of(source).contains("block"@) <==> source.mapping.block_handlers.len() > 0,
        kinds_of(source).contains("event"@) <==> source.mapping.event_handlers.len() > 0,
        kinds_of(source).len() == (if source.mapping.block_handlers.len() > 0 { 1int } else { 0 }) + (
        if source.mapping.event_handlers.len() > 0 {
            1int
        } else {
            0
        }),
        source.mapping.block_handlers.len() > 0 ==> kinds_of(source)[0] == "block"@,
{
    reveal_strlit("block");
    reveal_strlit("event");
    assert("block"@[0] != "event"@[0]);
    let kinds = kinds_of(source);
    if source.handles_blocks() {
        assert(kinds[0] == "block"@);
    }
    if source.handles_logs() {
        assert(kinds[kinds.len() - 1] == "event"@);
    }
}

} // verus!

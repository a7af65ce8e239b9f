//! Which blocks and logs the data sources of a subgraph want.
use vstd::prelude::*;
use crate::codec::{normalize_hex, normalized_hex, LogView};
use crate::data_source::{event_handler_views, first_handler, DataSource, DataSourceView, EventHandlerView};
use crate::hexadecimal::hex_text;
use crate::manifest::DataSourceTemplate;

verus! {

/// A set of texts.
#[derive(Debug)]
pub struct TextSet {
    items: Vec<String>,
}

/// The texts among `items`.
pub open spec fn texts_in(items: Seq<String>) -> Set<Seq<char>> {
    items.map_values(|t: String| t@).to_set()
}

impl View for TextSet {
    type V = Set<Seq<char>>;

    closed spec fn view(&self) -> Set<Seq<char>> {
        texts_in(self.items@)
    }
}

impl TextSet {
    /// No text is there twice.
    #[verifier::type_invariant]
    spec fn distinct(self) -> bool {
        self.items@.map_values(|t: String| t@).no_duplicates()
    }

    /// The set that holds nothing.
    pub fn new() -> (r: Self)
        ensures
            r@ == Set::<Seq<char>>::empty(),
    {
        let r = TextSet { items: Vec::new() };
        assert(r@ =~= Set::<Seq<char>>::empty());
        r
    }

    /// Whether the set holds nothing.
    pub fn is_empty(&self) -> (r: bool)
        ensures
            r == (self@ == Set::<Seq<char>>::empty()),
    {
        let r = self.items.is_empty();
        proof {
            let texts = self.items@.map_values(|t: String| t@);
            if r {
                assert(self@ =~= Set::<Seq<char>>::empty());
            } else {
                assert(texts.contains(texts[0]));
                assert(self@.contains(texts[0]));
            }
        }
        r
    }

    /// Whether `text` is in the set.
    pub fn contains(&self, text: &str) -> (r: bool)
        ensures
            r == self@.contains(text@),
    {
        let wanted = text.to_owned();
        let ghost texts = self.items@.map_values(|t: String| t@);
        let mut i: usize = 0;
        while i < self.items.len()
            invariant
                i <= self.items@.len(),
                wanted@ == text@,
                texts == self.items@.map_values(|t: String| t@),
                forall|k: int| 0 <= k < i ==> texts[k] != text@,
            decreases self.items@.len() - i,
        {
            if self.items[i] == wanted {
                assert(texts[i as int] == text@);
                assert(texts.contains(text@));
                return true;
            }
            i += 1;
        }
        assert(!texts.contains(text@));
        false
    }

    /// Puts `text` into the set.
    pub fn insert(&mut self, text: String)
        ensures
            final(self)@ == old(self)@.insert(text@),
    {
        if self.contains(text.as_str()) {
            assert(self@ =~= self@.insert(text@));
            return;
        }
        proof {
            use_type_invariant(&*self);
        }
        let ghost before = self.items@.map_values(|t: String| t@);
        let mut items: Vec<String> = Vec::new();
        std::mem::swap(&mut items, &mut self.items);
        items.push(text);
        proof {
            let after = items@.map_values(|t: String| t@);
            assert(after =~= before.push(text@));
            assert(!before.contains(text@));
            assert(after.no_duplicates());
            assert(after.to_set() =~= before.to_set().insert(text@)) by {
                broadcast use vstd::seq_lib::group_seq_properties;

                assert forall|x: Seq<char>| after.contains(x) <==> before.contains(x) || x == text@ by {
                    if before.contains(x) {
                        let k = before.index_of(x);
                        assert(after[k] == x);
                    }
                    if x == text@ {
                        assert(after[before.len() as int] == x);
                    }
                }
            }
        }
        self.items = items;
    }
}

impl Clone for TextSet {
    fn clone(&self) -> (r: Self)
        ensures
            r@ == self@,
    {
        proof {
            use_type_invariant(self);
        }
        let mut items: Vec<String> = Vec::new();
        let mut i: usize = 0;
        while i < self.items.len()
            invariant
                i <= self.items@.len(),
                items@ == self.items@.take(i as int),
            decreases self.items@.len() - i,
        {
            items.push(self.items[i].clone());
            i += 1;
        }
        assert(items@ =~= self.items@);
        TextSet { items }
    }
}

/// Which blocks and public logs to look at: every block, or those with a log
/// of one of the contracts and with one of the tags. No contract stands for
/// all of them, and so does no tag.
#[derive(Debug)]
pub struct TriggerFilter {
    pub trigger_every_block: bool,
    pub contract_addresses: TextSet,
    pub tags: TextSet,
}

/// The mathematical model of a `TriggerFilter`.
pub struct FilterView {
    pub trigger_every_block: bool,
    pub contract_addresses: Set<Seq<char>>,
    pub tags: Set<Seq<char>>,
}

impl View for TriggerFilter {
    type V = FilterView;

    open spec fn view(&self) -> FilterView {
        FilterView {
            trigger_every_block: self.trigger_every_block,
            contract_addresses: self.contract_addresses@,
            tags: self.tags@,
        }
    }
}

/// `tags` with those that `handlers` want.
pub open spec fn with_tags(tags: Set<Seq<char>>, handlers: Seq<EventHandlerView>) -> Set<Seq<char>>
    decreases handlers.len(),
{
    if handlers.len() == 0 {
        tags
    } else {
        let before = with_tags(tags, handlers.drop_last());
        match handlers.last().wanted_tag() {
            Some(tag) => before.insert(normalized_hex(tag)),
            None => before,
        }
    }
}

impl FilterView {
    /// The filter of nothing in particular.
    pub open spec fn nothing() -> FilterView {
        FilterView { trigger_every_block: false, contract_addresses: Set::empty(), tags: Set::empty() }
    }

    /// Whether the filter lets a log of `contract` with `tag` through.
    pub open spec fn admits(self, contract: Seq<char>, tag: Seq<char>) -> bool {
        &&& self.contract_addresses == Set::<Seq<char>>::empty() || self.contract_addresses.contains(
            contract,
        )
        &&& self.tags == Set::<Seq<char>>::empty() || self.tags.contains(tag)
    }

    /// Whether the filter lets `log` through.
    pub open spec fn admits_log(self, log: LogView) -> bool {
        self.admits(hex_text(log.contract_address), hex_text(log.tag))
    }

    /// The filter for what it was for and for what `source` wants.
    pub open spec fn with_source(self, source: DataSourceView) -> FilterView {
        FilterView {
            trigger_every_block: self.trigger_every_block || source.handles_blocks(),
            contract_addresses: match source.source.address {
                Some(address) if source.handles_logs() => self.contract_addresses.insert(
                    normalized_hex(address),
                ),
                _ => self.contract_addresses,
            },
            tags: with_tags(self.tags, source.mapping.event_handlers),
        }
    }

    /// The filter for what it was for and for what each of `sources` wants.
    pub open spec fn with_sources(self, sources: Seq<DataSourceView>) -> FilterView
        decreases sources.len(),
    {
        if sources.len() == 0 {
            self
        } else {
            self.with_sources(sources.drop_last()).with_source(sources.last())
        }
    }
}

/// The models of `sources`, in order.
pub open spec fn source_views(sources: Seq<DataSource>) -> Seq<DataSourceView> {
    sources.map_values(|s: DataSource| s@)
}

/// A message of the filter that a Firehose endpoint takes.
#[verifier::external_type_specification]
#[verifier::external_body]
pub struct ExAny(prost_types::Any);

impl Clone for TriggerFilter {
    fn clone(&self) -> (r: Self)
        ensures
            r@ == self@,
    {
        TriggerFilter {
            trigger_every_block: self.trigger_every_block,
            contract_addresses: self.contract_addresses.clone(),
            tags: self.tags.clone(),
        }
    }
}

impl Default for TriggerFilter {
    fn default() -> (r: Self)
        ensures
            r@ == FilterView::nothing(),
    {
        TriggerFilter {
            trigger_every_block: false,
            contract_addresses: TextSet::new(),
            tags: TextSet::new(),
        }
    }
}

impl TriggerFilter {
    /// Whether the filter lets a log of `contract_address` with `tag` through,
    /// both in lower-case hexadecimal digits.
    pub fn matches_public_log(&self, contract_address: &str, tag: &str) -> (r: bool)
        ensures
            r == self@.admits(contract_address@, tag@),
    {
        let contract_matches = self.contract_addresses.is_empty() || self.contract_addresses.contains(
            contract_address,
        );
        let tag_matches = self.tags.is_empty() || self.tags.contains(tag);
        contract_matches && tag_matches
    }

    fn extend_with(&mut self, data_source: &DataSource)
        ensures
            final(self)@ == old(self)@.with_source(data_source@),
    {
        self.trigger_every_block = self.trigger_every_block || data_source.has_block_handler();
        let ghost handlers = data_source@.mapping.event_handlers;
        if !data_source.has_public_log_handler() {
            return;
        }
        match &data_source.source.address {
            Some(address) => self.contract_addresses.insert(normalize_hex(address.as_str())),
            None => {},
        }
        let mut i: usize = 0;
        assert(handlers.take(0) =~= Seq::empty());
        while i < data_source.mapping.event_handlers.len()
            invariant
                i <= data_source.mapping.event_handlers@.len(),
                handlers == event_handler_views(data_source.mapping.event_handlers@),
                self@.trigger_every_block == old(self)@.with_source(data_source@).trigger_every_block,
                self@.contract_addresses == old(self)@.with_source(data_source@).contract_addresses,
                self@.tags == with_tags(old(self)@.tags, handlers.take(i as int)),
            decreases data_source.mapping.event_handlers@.len() - i,
        {
            let handler = &data_source.mapping.event_handlers[i];
            proof {
                assert(handlers.take(i + 1).drop_last() == handlers.take(i as int));
                assert(handlers.take(i + 1).last() == handler@);
            }
            match &handler.tag {
                Some(tag) => self.tags.insert(normalize_hex(tag.as_str())),
                None => match &handler.event {
                    Some(tag) => self.tags.insert(normalize_hex(tag.as_str())),
                    None => {},
                },
            }
            i += 1;
        }
        assert(handlers.take(i as int) == handlers);
    }

    /// Makes the filter let through what `data_sources` want.
    pub fn extend(&mut self, data_sources: &[DataSource])
        ensures
            final(self)@ == old(self)@.with_sources(source_views(data_sources@)),
    {
        let ghost sources = source_views(data_sources@);
        let mut i: usize = 0;
        assert(sources.take(0) =~= Seq::empty());
        while i < data_sources.len()
            invariant
                i <= data_sources@.len(),
                sources == source_views(data_sources@),
                self@ == old(self)@.with_sources(sources.take(i as int)),
            decreases data_sources@.len() - i,
        {
            proof {
                assert(sources.take(i + 1).drop_last() == sources.take(i as int));
                assert(sources.take(i + 1).last() == data_sources@[i as int]@);
            }
            self.extend_with(&data_sources[i]);
            i += 1;
        }
        assert(sources.take(i as int) == sources);
    }

    /// Templates want nothing.
    pub fn extend_with_template(&mut self, data_sources: &[DataSourceTemplate])
        ensures
            *final(self) == *old(self),
    {
    }

    /// The filter as a Firehose endpoint takes it: all blocks are asked for.
    pub fn to_firehose_filter(self) -> (r: Vec<prost_types::Any>)
        ensures
            r@.len() == 0,
    {
        Vec::new()
    }
}

proof fn lemma_with_tags(tags: Set<Seq<char>>, handlers: Seq<EventHandlerView>, x: Seq<char>)
    ensures
        with_tags(tags, handlers).contains(x) <==> tags.contains(x) || exists|k: int|
            0 <= k < handlers.len() && #[trigger] wants_tag(handlers[k], x),
    decreases handlers.len(),
{
    if handlers.len() > 0 {
        let front = handlers.drop_last();
        lemma_with_tags(tags, front, x);
        if exists|k: int| 0 <= k < front.len() && #[trigger] wants_tag(front[k], x) {
            let k = choose|k: int| 0 <= k < front.len() && #[trigger] wants_tag(front[k], x);
            assert(wants_tag(handlers[k], x));
        }
        if exists|k: int| 0 <= k < handlers.len() && #[trigger] wants_tag(handlers[k], x) {
            let k = choose|k: int| 0 <= k < handlers.len() && #[trigger] wants_tag(handlers[k], x);
            if k < front.len() {
                assert(wants_tag(front[k], x));
            }
        }
        if wants_tag(handlers.last(), x) {
            assert(wants_tag(handlers[handlers.len() - 1], x));
        }
    }
}

/// Whether `handler` wants the logs with the tag `x`, in normal form.
pub open spec fn wants_tag(handler: EventHandlerView, x: Seq<char>) -> bool {
    handler.wanted_tag() matches Some(tag) && normalized_hex(tag) == x
}

/// Whether `source` follows the contract `x`, in normal form, for its logs.
pub open spec fn follows_contract(source: DataSourceView, x: Seq<char>) -> bool {
    &&& source.handles_logs()
    &&& source.source.address matches Some(address)
    &&& normalized_hex(address) == x
}

/// Whether some handler of `source` wants the logs with the tag `x`.
pub open spec fn source_wants_tag(source: DataSourceView, x: Seq<char>) -> bool {
    exists|k: int|
        0 <= k < source.mapping.event_handlers.len() && #[trigger] wants_tag(
            source.mapping.event_handlers[k],
            x,
        )
}

/// A filter that was extended looks at every block if it did before or if one
/// of the sources handles blocks. Its contracts are those that it had and the
/// addresses of the sources that handle logs; its tags are those that it had
/// and those that the sources' handlers want.
pub proof fn law_extended(filter: FilterView, sources: Seq<DataSourceView>, x: Seq<char>)
    ensures
        filter.with_sources(sources).trigger_every_block <==> filter.trigger_every_block || exists|
            i: int,
        | 0 <= i < sources.len() && (#[trigger] sources[i]).handles_blocks(),
        filter.with_sources(sources).contract_addresses.contains(x)
            <==> filter.contract_addresses.contains(x) || exists|i: int|
            0 <= i < sources.len() && #[trigger] follows_contract(sources[i], x),
        filter.with_sources(sources).tags.contains(x) <==> filter.tags.contains(x) || exists|i: int|
            0 <= i < sources.len() && #[trigger] source_wants_tag(sources[i], x),
    decreases sources.len(),
{
    if sources.len() > 0 {
        let front = sources.drop_last();
        let last = sources.last();
        law_extended(filter, front, x);
        lemma_with_tags(filter.with_sources(front).tags, last.mapping.event_handlers, x);
        assert(last == sources[sources.len() - 1]);
        assert forall|i: int| 0 <= i < front.len() implies #[trigger] front[i] == sources[i] by {}
        if exists|i: int| 0 <= i < front.len() && (#[trigger] front[i]).handles_blocks() {
            let i = choose|i: int| 0 <= i < front.len() && (#[trigger] front[i]).handles_blocks();
            assert(sources[i].handles_blocks());
        }
        if exists|i: int| 0 <= i < front.len() && #[trigger] follows_contract(front[i], x) {
            let i = choose|i: int| 0 <= i < front.len() && #[trigger] follows_contract(front[i], x);
            assert(follows_contract(sources[i], x));
        }
        if exists|i: int| 0 <= i < front.len() && #[trigger] source_wants_tag(front[i], x) {
            let i = choose|i: int| 0 <= i < front.len() && #[trigger] source_wants_tag(front[i], x);
            assert(source_wants_tag(sources[i], x));
        }
        if exists|i: int| 0 <= i < sources.len() && (#[trigger] sources[i]).handles_blocks() {
            let i = choose|i: int| 0 <= i < sources.len() && (#[trigger] sources[i]).handles_blocks();
            if i < front.len() {
                assert(front[i].handles_blocks());
            }
        }
        if exists|i: int| 0 <= i < sources.len() && #[trigger] follows_contract(sources[i], x) {
            let i = choose|i: int|
                0 <= i < sources.len() && #[trigger] follows_contract(sources[i], x);
            if i < front.len() {
                assert(follows_contract(front[i], x));
            }
        }
        if exists|i: int| 0 <= i < sources.len() && #[trigger] source_wants_tag(sources[i], x) {
            let i = choose|i: int|
                0 <= i < sources.len() && #[trigger] source_wants_tag(sources[i], x);
            if i < front.len() {
                assert(source_wants_tag(front[i], x));
            }
        }
        if follows_contract(last, x) {
            assert(follows_contract(sources[sources.len() - 1], x));
        }
        if source_wants_tag(last, x) {
            assert(source_wants_tag(sources[sources.len() - 1], x));
        }
    }
}

proof fn lemma_first_handler(handlers: Seq<EventHandlerView>, log: LogView)
    ensures
        first_handler(handlers, log) matches Some(handler) ==> handler.wants(log) && exists|k: int|
            0 <= k < handlers.len() && #[trigger] handlers[k] == handler,
    decreases handlers.len(),
{
    if handlers.len() > 0 && !handlers[0].wants(log) {
        lemma_first_handler(handlers.skip(1), log);
        if let Some(handler) = first_handler(handlers, log) {
            let k = choose|k: int|
                0 <= k < handlers.skip(1).len() && #[trigger] handlers.skip(1)[k] == handler;
            assert(handlers[k + 1] == handler);
        }
    }
}

/// A log that one of the sources has a handler for passes the filter that was
/// extended with them. It may be kept back in two cases: the source has no
/// address, and the filter is for other contracts; or the handler wants no
/// certain tag, and the filter is for other tags.
pub proof fn law_wanted_logs_pass(
    filter: FilterView,
    sources: Seq<DataSourceView>,
    i: int,
    log: LogView,
)
    requires
        0 <= i < sources.len(),
        sources[i].log_handler(log) is Some,
    ensures
        ({
            let extended = filter.with_sources(sources);
            ||| extended.admits_log(log)
            ||| sources[i].source.address is None && !extended.contract_addresses.contains(
                hex_text(log.contract_address),
            )
            ||| sources[i].log_handler(log)->0.wanted_tag() is None && !extended.tags.contains(
                hex_text(log.tag),
            )
        }),
{
    let source = sources[i];
    let handlers = source.mapping.event_handlers;
    let contract = hex_text(log.contract_address);
    let tag = hex_text(log.tag);
    lemma_first_handler(handlers, log);
    let handler = source.log_handler(log)->0;
    let k = choose|k: int| 0 <= k < handlers.len() && #[trigger] handlers[k] == handler;
    law_extended(filter, sources, contract);
    law_extended(filter, sources, tag);
    if source.source.address is Some {
        assert(follows_contract(sources[i], contract));
    }
    if handler.wanted_tag() is Some {
        assert(wants_tag(handlers[k], tag));
        assert(source_wants_tag(sources[i], tag));
    }
}

/// A filter looks at every block once it was extended with a source that
/// handles blocks.
pub proof fn law_wanted_blocks_pass(filter: FilterView, sources: Seq<DataSourceView>, i: int)
    requires
        0 <= i < sources.len(),
        sources[i].handles_blocks(),
    ensures
        filter.with_sources(sources).trigger_every_block,
{
    law_extended(filter, sources, Seq::empty());
}

/// To extend a filter with some sources and then with others is to extend it
/// with all of them.
pub proof fn law_extended_twice(
    filter: FilterView,
    first: Seq<DataSourceView>,
    second: Seq<DataSourceView>,
)
    ensures
        filter.with_sources(first).with_sources(second) == filter.with_sources(first + second),
    decreases second.len(),
{
    if second.len() == 0 {
        assert(first + second == first);
    } else {
        law_extended_twice(filter, first, second.drop_last());
        assert((first + second).drop_last() == first + second.drop_last());
        assert((first + second).last() == second.last());
    }
}

/// A filter with contracts lets no log of another contract through, whatever
/// its tag is and whatever the tags of the filter are; a filter with tags lets
/// no log with another tag through, whatever its contract is. Every other log
/// passes. Contracts and tags are looked up in lower-case hexadecimal digits.
pub proof fn law_filter_keeps_out(filter: FilterView, contract: Seq<char>, tag: Seq<char>, other: Seq<char>, log: LogView)
    ensures
        filter.contract_addresses.contains(other) && !filter.contract_addresses.contains(contract)
            ==> !filter.admits(contract, tag),
        filter.tags.contains(other) && !filter.tags.contains(tag) ==> !filter.admits(contract, tag),
        filter.contract_addresses.contains(contract) && filter.tags.contains(tag) ==> filter.admits(
            contract,
            tag,
        ),
        filter.contract_addresses.contains(contract) && (forall|t: Seq<char>| !filter.tags.contains(t))
            ==> filter.admits(contract, tag),
        (forall|c: Seq<char>| !filter.contract_addresses.contains(c)) && filter.tags.contains(tag)
            ==> filter.admits(contract, tag),
        (forall|c: Seq<char>| !filter.contract_addresses.contains(c)) && (forall|t: Seq<char>|
            !filter.tags.contains(t)) ==> filter.admits(contract, tag),
        filter.admits_log(log) <==> filter.admits(hex_text(log.contract_address), hex_text(log.tag)),
{
    if forall|c: Seq<char>| !filter.contract_addresses.contains(c) {
        assert(filter.contract_addresses =~= Set::<Seq<char>>::empty());
    }
    if forall|t: Seq<char>| !filter.tags.contains(t) {
        assert(filter.tags =~= Set::<Seq<char>>::empty());
    }
}

/// A filter of nothing in particular lets every log through and looks at no
/// block for its own sake.
pub proof fn law_filter_of_nothing(contract: Seq<char>, tag: Seq<char>)
    ensures
        FilterView::nothing().admits(contract, tag),
        !FilterView::nothing().trigger_every_block,
        !FilterView::nothing().contract_addresses.contains(contract),
        !FilterView::nothing().tags.contains(tag),
{
}

} // verus!

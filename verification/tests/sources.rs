//! Data sources, templates and filters.
use graph_chain_aztec::adapter::{TextSet, TriggerFilter};
use graph_chain_aztec::chain::TriggersAdapter;
use graph_chain_aztec::codec::{Block, BlockHeader, BlockTime, PublicLog};
use graph_chain_aztec::data_source::{DataSourceContext, Link, Source, ValidationError};
use graph_chain_aztec::manifest::{DynamicDataSource, MappingError};
use graph_chain_aztec::trigger::{AztecTrigger, PublicLogTrigger};
use graph_chain_aztec::version::Version;
use graph_chain_aztec::{
    DataSource, MappingBlockHandler, MappingEventHandler, UnresolvedDataSource, UnresolvedDataSourceTemplate,
    UnresolvedMapping,
};
use std::sync::Arc;

fn some(text: Option<&str>) -> Option<String> {
    text.map(|t| t.to_string())
}

fn event(handler: &str, event: Option<&str>, tag: Option<&str>) -> MappingEventHandler {
    MappingEventHandler { handler: handler.to_string(), event: some(event), tag: some(tag) }
}

fn mapping(version: &str, blocks: &[&str], events: Vec<MappingEventHandler>) -> UnresolvedMapping {
    UnresolvedMapping {
        api_version: version.to_string(),
        language: "wasm/assemblyscript".to_string(),
        entities: vec!["Thing".to_string()],
        block_handlers: blocks.iter().map(|h| MappingBlockHandler { handler: h.to_string() }).collect(),
        event_handlers: events,
        file: Link { link: "/ipfs/module".to_string() },
    }
}

fn described(address: Option<&str>, blocks: &[&str], events: Vec<MappingEventHandler>) -> UnresolvedDataSource {
    UnresolvedDataSource {
        kind: "aztec".to_string(),
        network: some(Some("testnet")),
        name: "Token".to_string(),
        source: Source { address: some(address), start_block: 10, end_block: Some(99) },
        mapping: mapping("0.0.9", blocks, events),
        context: Some(DataSourceContext { attributes: vec![("a".to_string(), "b".to_string())] }),
    }
}

fn source(address: Option<&str>, blocks: &[&str], events: Vec<MappingEventHandler>) -> DataSource {
    described(address, blocks, events).resolve::<()>(Ok(vec![1, 2, 3])).unwrap()
}

fn block_at(number: i64) -> Arc<Block> {
    Arc::new(Block {
        header: Some(BlockHeader {
            number,
            hash: vec![5; 32],
            parent_hash: vec![4; 32],
            timestamp: 77,
            final_block_number: 0,
        }),
        public_logs: vec![],
    })
}

fn log_of(contract: &[u8], tag: &[u8]) -> PublicLog {
    PublicLog {
        contract_address: contract.to_vec(),
        tag: tag.to_vec(),
        fields: vec![],
        tx_hash: vec![],
        log_index: 0,
    }
}

fn trigger(contract: &[u8], tag: &[u8]) -> AztecTrigger {
    AztecTrigger::PublicLog(Arc::new(PublicLogTrigger { log: log_of(contract, tag), block: block_at(10) }))
}

fn handler(source: &DataSource, trigger: &AztecTrigger, number: i64) -> Option<String> {
    source.match_and_decode(trigger, &block_at(number)).map(|matched| matched.handler)
}

#[test]
fn the_first_handler_that_wants_a_log_gets_it() {
    let source = source(
        Some("0xAbCd"),
        &[],
        vec![event("one", None, Some("0x01")), event("two", Some("02"), None), event("rest", None, None)],
    );
    assert_eq!(handler(&source, &trigger(&[0xab, 0xcd], &[1]), 10), some(Some("one")));
    assert_eq!(handler(&source, &trigger(&[0xab, 0xcd], &[2]), 10), some(Some("two")));
    assert_eq!(handler(&source, &trigger(&[0xab, 0xcd], &[3]), 10), some(Some("rest")));
    assert_eq!(handler(&source, &trigger(&[0xab], &[1]), 10), None);
    assert_eq!(handler(&source, &AztecTrigger::Block(block_at(10)), 10), None);
}

#[test]
fn the_tag_counts_before_the_event() {
    let source = source(Some("ab"), &[], vec![event("one", Some("0x02"), Some("0x01"))]);
    assert_eq!(handler(&source, &trigger(&[0xab], &[1]), 10), some(Some("one")));
    assert_eq!(handler(&source, &trigger(&[0xab], &[2]), 10), None);
}

#[test]
fn without_an_address_every_contract_is_followed() {
    let source = source(None, &["block", "other"], vec![event("log", None, None)]);
    assert_eq!(handler(&source, &trigger(&[1], &[2]), 10), some(Some("log")));
    assert_eq!(handler(&source, &AztecTrigger::Block(block_at(10)), 10), some(Some("block")));
    assert_eq!(source.block_handler().unwrap().handler, "block");
}

#[test]
fn nothing_is_handled_before_the_start() {
    let source = source(None, &["block"], vec![]);
    assert_eq!(handler(&source, &AztecTrigger::Block(block_at(9)), 9), None);
    let matched = source.match_and_decode(&AztecTrigger::Block(block_at(10)), &block_at(10)).unwrap();
    assert_eq!(matched.block_ptr, block_at(10).ptr());
    assert_eq!(matched.timestamp, BlockTime { seconds: 77, nanos: 0 });
    assert!(matches!(matched.trigger, AztecTrigger::Block(_)));
    // The end does not count here.
    assert_eq!(handler(&source, &AztecTrigger::Block(block_at(100)), 100), some(Some("block")));
}

#[test]
fn addresses_in_any_spelling_are_one() {
    for address in ["0xAbCd", "0XABCD", "abcd", "ABCD"] {
        let source = source(Some(address), &[], vec![event("log", None, Some("0xFF"))]);
        assert_eq!(handler(&source, &trigger(&[0xab, 0xcd], &[0xff]), 10), some(Some("log")));
        assert_eq!(handler(&source, &trigger(&[0xab, 0xce], &[0xff]), 10), None);
        assert_eq!(handler(&source, &trigger(&[0xab, 0xcd], &[0xfe]), 10), None);
    }
}

#[test]
fn sources_show_what_they_are() {
    let source = source(Some("0xAB"), &["b"], vec![event("e", None, None)]);
    assert_eq!(source.address(), Some("0xAB".as_bytes()));
    assert_eq!((source.start_block(), source.end_block()), (10, Some(99)));
    assert_eq!((source.name(), source.kind(), source.network()), ("Token", "aztec", Some("testnet")));
    assert_eq!(source.creation_block(), None);
    assert_eq!(source.context().as_ref().as_ref().unwrap().attributes.len(), 1);
    assert_eq!(source.runtime().unwrap().as_ref(), &vec![1, 2, 3]);
    assert_eq!(source.handler_kinds(), vec!["block", "event"]);
    assert_eq!(source.mapping.link.link, "/ipfs/module");
}

#[test]
fn sources_without_handlers_have_no_kinds() {
    assert!(source(None, &[], vec![]).handler_kinds().is_empty());
    assert!(source(None, &[], vec![]).address().is_none());
}

#[test]
fn duplicates_say_the_same() {
    let make = || source(Some("ab"), &["b"], vec![event("e", None, Some("01"))]);
    assert!(make().is_duplicate_of(&make()));
    // The module and the languages make no difference.
    let mut other = make();
    other.mapping.runtime = Arc::new(vec![9]);
    other.mapping.language = "other".to_string();
    other.creation_block = Some(4);
    assert!(make().is_duplicate_of(&other));
    let mut changed: Vec<DataSource> = Vec::new();
    for i in 0..7 {
        let mut source = make();
        match i {
            0 => source.kind = "aztec/contract".to_string(),
            1 => source.network = None,
            2 => source.name = "Other".to_string(),
            3 => source.source.start_block = 11,
            4 => source.mapping.block_handlers[0].handler = "c".to_string(),
            5 => source.mapping.event_handlers[0].tag = None,
            _ => source.context = Arc::new(None),
        }
        changed.push(source);
    }
    for source in &changed {
        assert!(!make().is_duplicate_of(source));
        assert!(!source.is_duplicate_of(&make()));
    }
}

#[test]
fn faults_are_found() {
    assert!(source(Some("ab"), &[], vec![event("e", None, None)]).validate().is_empty());
    assert!(source(None, &["b"], vec![]).validate().is_empty());
    let mut contract = source(None, &[], vec![]);
    contract.kind = "aztec/contract".to_string();
    assert!(contract.validate().is_empty());
    let mut wrong = source(None, &[], vec![event("e", None, None)]);
    wrong.kind = "ethereum".to_string();
    let faults = wrong.validate();
    assert_eq!(
        faults,
        vec![ValidationError::InvalidKind("ethereum".to_string()), ValidationError::MissingAddress],
    );
    assert_eq!(
        faults[0].message(),
        "data source has invalid `kind`, expected aztec or aztec/contract but found ethereum",
    );
    assert_eq!(
        faults[1].message(),
        "Aztec public event/log handlers require `source.address` for this POC",
    );
}

#[test]
fn descriptions_are_resolved_with_their_module() {
    let source = source(Some("ab"), &["b"], vec![]);
    assert_eq!(
        source.api_version(),
        Version { major: 0, minor: 0, patch: 9, pre: String::new(), build: String::new() },
    );
    assert_eq!(source.mapping.entities, vec!["Thing".to_string()]);
    let mut described = described(None, &[], vec![]);
    described.mapping.api_version = "1.2.3-rc.1+b5".to_string();
    let source = described.resolve::<()>(Ok(vec![])).unwrap();
    assert_eq!(
        source.api_version(),
        Version { major: 1, minor: 2, patch: 3, pre: "rc.1".to_string(), build: "b5".to_string() },
    );
}

#[test]
fn what_cannot_be_resolved_is_named() {
    let error = described(None, &[], vec![]).resolve(Err("gone")).unwrap_err();
    assert_eq!(error.name, "Token");
    match error.cause {
        MappingError::Module { link, cause } => {
            assert_eq!((link.as_str(), cause), ("/ipfs/module", "gone"));
        }
        MappingError::ApiVersion(_) => panic!("the module counts first"),
    }
    let mut described = described(None, &[], vec![]);
    described.mapping.api_version = "1.2".to_string();
    let error = described.resolve::<()>(Ok(vec![])).unwrap_err();
    assert!(matches!(error.cause, MappingError::ApiVersion(_)));
}

#[test]
fn templates_are_resolved_but_not_used() {
    let described = UnresolvedDataSourceTemplate {
        kind: "aztec".to_string(),
        network: None,
        name: "T".to_string(),
        mapping: mapping("0.0.7", &[], vec![]),
    };
    let template = described.resolve::<()>(Ok(vec![8])).unwrap();
    let info = template.info();
    assert_eq!((template.name(), template.kind()), ("T", "aztec"));
    assert_eq!((info.name.as_str(), info.kind.as_str(), info.manifest_idx), ("T", "aztec", None));
    assert_eq!(info.api_version.patch, 7);
    assert_eq!(info.runtime.unwrap().as_ref(), &vec![8]);
    let broken = UnresolvedDataSourceTemplate {
        kind: "aztec".to_string(),
        network: None,
        name: "T".to_string(),
        mapping: mapping("x", &[], vec![]),
    };
    assert_eq!(broken.resolve::<()>(Ok(vec![])).unwrap_err().name, "T");
    let mut filter = TriggerFilter::default();
    filter.extend_with_template(&[template]);
    assert!(filter.tags.is_empty() && filter.contract_addresses.is_empty() && !filter.trigger_every_block);
    assert_eq!(DataSource::from_template_info().err(), Some(DynamicDataSource));
    assert_eq!(
        DataSource::from_stored_dynamic_data_source().err().unwrap().message(),
        "Aztec subgraphs do not support dynamic data sources in this POC",
    );
}

#[test]
fn filters_collect_what_sources_want() {
    let mut filter = TriggerFilter::default();
    assert!(filter.matches_public_log("ab", "01"));
    filter.extend(&[
        source(Some("0xAB"), &[], vec![event("e", Some("0x02"), Some("0x01")), event("f", Some("03"), None)]),
        source(Some("cd"), &["b"], vec![]),
    ]);
    assert!(filter.trigger_every_block);
    assert!(filter.contract_addresses.contains("ab"));
    // The address of a source that handles no logs is not looked for.
    assert!(!filter.contract_addresses.contains("cd"));
    assert!(filter.tags.contains("01") && filter.tags.contains("03"));
    assert!(!filter.tags.contains("02"));
    assert!(filter.matches_public_log("ab", "03"));
    assert!(!filter.matches_public_log("ab", "02"));
    assert!(!filter.matches_public_log("cd", "01"));
    let copy = filter.clone();
    assert!(copy.matches_public_log("ab", "01") && !copy.matches_public_log("cd", "01"));
    assert!(filter.to_firehose_filter().is_empty());
}

#[test]
fn extending_twice_is_extending_with_all() {
    let first = || source(Some("ab"), &[], vec![event("e", None, Some("01"))]);
    let second = || source(Some("cd"), &["b"], vec![event("e", None, Some("02"))]);
    let mut twice = TriggerFilter::default();
    twice.extend(&[first()]);
    assert!(!twice.trigger_every_block);
    twice.extend(&[second()]);
    let mut once = TriggerFilter::default();
    once.extend(&[first(), second()]);
    assert_eq!(twice.trigger_every_block, once.trigger_every_block);
    for contract in ["ab", "cd", "ef"] {
        for tag in ["01", "02", "03"] {
            assert_eq!(twice.matches_public_log(contract, tag), once.matches_public_log(contract, tag));
        }
    }
}

#[test]
fn handlers_for_all_tags_see_what_the_others_let_through() {
    let mut filter = TriggerFilter::default();
    filter.extend(&[source(Some("ab"), &[], vec![event("all", None, None)])]);
    assert!(filter.matches_public_log("ab", "05"));
    filter.extend(&[source(Some("ab"), &[], vec![event("one", None, Some("01"))])]);
    assert!(!filter.matches_public_log("ab", "05"));
}

#[test]
fn sets_hold_each_text_once() {
    let mut set = TextSet::new();
    assert!(set.is_empty());
    set.insert("a".to_string());
    set.insert("b".to_string());
    set.insert("a".to_string());
    assert!(!set.is_empty());
    assert!(set.contains("a") && set.contains("b") && !set.contains("c"));
    assert!(set.clone().contains("b"));
}

#[test]
fn what_sources_want_is_found_and_handled() {
    let source = source(Some("0xAB"), &["block"], vec![event("log", None, Some("0x01"))]);
    let mut filter = TriggerFilter::default();
    filter.extend(&[source]);
    let source = self::source(Some("0xAB"), &["block"], vec![event("log", None, Some("0x01"))]);
    let mut block = block_at(12).as_ref().clone();
    block.public_logs = vec![log_of(&[0xab], &[2]), log_of(&[0xab], &[1]), log_of(&[0xac], &[1])];
    let found = TriggersAdapter {}.triggers_in_block(block.clone(), &filter);
    let handlers: Vec<Option<String>> = found
        .trigger_data
        .iter()
        .map(|t| source.match_and_decode(t, &block).map(|matched| matched.handler))
        .collect();
    assert_eq!(handlers, vec![some(Some("log")), some(Some("block"))]);
}

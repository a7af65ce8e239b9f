//! The node's JSON-RPC interface.
use graph_chain_aztec::codec::{BlockHash, BlockPtr, PublicLog};
use graph_chain_aztec::headers::HeadersError;
use graph_chain_aztec::hexadecimal::HexError;
use graph_chain_aztec::json::{Number, Value};
use graph_chain_aztec::reading::{
    first_array, first_bytes, first_i64, hex_to_bytes, value_at, value_to_bytes, value_to_i64, BytesError,
};
use graph_chain_aztec::rpc::{
    block_number_params, block_params, chain_identifier, parse_block_header, parse_public_log, read_page,
    public_log_fields, reply_result, request, value_to_block_number, AztecRpcClient, BlockFetch, BlockNumberError, FetchError, FetchStep, HeaderError,
    PageError, PublicLogError, PublicLogPages, ReplyError, GET_BLOCK, GET_BLOCK_NUMBER, GET_PUBLIC_LOGS,
};
use graph_chain_aztec::text::{decimal_text, parse_i64};

fn number(n: i64) -> Value {
    if n < 0 {
        Value::Number(Number::NegInt(n))
    } else {
        Value::Number(Number::PosInt(n as u64))
    }
}

fn text(s: &str) -> Value {
    Value::Text(s.to_string())
}

fn object(members: Vec<(&str, Value)>) -> Value {
    Value::Object(members.into_iter().map(|(name, value)| (name.to_string(), value)).collect())
}

fn chars(s: &str) -> Vec<char> {
    s.chars().collect()
}

#[test]
fn integers_are_read_in_both_bases() {
    for (s, expected) in [
        ("12", Some(12)),
        ("+12", Some(12)),
        ("-12", Some(-12)),
        ("0x1f", Some(31)),
        ("0x-1F", Some(-31)),
        ("0x+a", Some(10)),
        ("0X1f", None),
        ("1f", None),
        ("0x", None),
        ("", None),
        ("-", None),
        ("+", None),
        ("0x8000000000000000", None),
        ("0x7fffffffffffffff", Some(i64::MAX)),
        ("0x-8000000000000000", Some(i64::MIN)),
        ("9223372036854775807", Some(i64::MAX)),
        ("9223372036854775808", None),
        ("-9223372036854775808", Some(i64::MIN)),
        ("-9223372036854775809", None),
        ("0000000000000000000000000000000000000001", Some(1)),
        (" 1", None),
        ("1_000", None),
        ("\u{661}", None),
    ] {
        assert_eq!(value_to_i64(&text(s)), expected, "{:?}", s);
        let from_std = s
            .strip_prefix("0x")
            .and_then(|hex| i64::from_str_radix(hex, 16).ok())
            .or_else(|| s.parse::<i64>().ok());
        assert_eq!(from_std, expected, "{:?}", s);
    }
    assert_eq!(value_to_i64(&number(-5)), Some(-5));
    assert_eq!(value_to_i64(&Value::Number(Number::PosInt(u64::MAX))), None);
    assert_eq!(value_to_i64(&Value::Number(Number::Float("1.0".to_string()))), None);
    assert_eq!(value_to_i64(&Value::Bool(true)), None);
    assert_eq!(value_to_i64(&Value::Null), None);
}

#[test]
fn decimals_are_read_back() {
    for n in [0, 7, 10, -1, 90210, i64::MAX, i64::MIN] {
        let written = decimal_text(n);
        assert_eq!(written, n.to_string());
        assert_eq!(parse_i64(&chars(&written), 10), Some(n));
    }
}

#[test]
fn block_numbers_are_in_range() {
    assert_eq!(value_to_block_number(&number(42)), Ok(42));
    assert_eq!(value_to_block_number(&text("0x2a")), Ok(42));
    assert_eq!(value_to_block_number(&number(-1)), Ok(-1));
    assert_eq!(value_to_block_number(&number(2147483647)), Ok(i32::MAX));
    assert_eq!(value_to_block_number(&number(2147483648)), Err(BlockNumberError::OutOfRange(2147483648)));
    assert_eq!(value_to_block_number(&text("x")), Err(BlockNumberError::Invalid));
}

#[test]
fn bytes_are_read_from_text_and_arrays() {
    assert_eq!(hex_to_bytes("0xAbCd"), Ok(vec![0xab, 0xcd]));
    assert_eq!(hex_to_bytes("abc"), Ok(vec![0x0a, 0xbc]));
    assert_eq!(hex_to_bytes("0X1"), Ok(vec![1]));
    assert_eq!(hex_to_bytes(""), Ok(vec![]));
    assert_eq!(hex_to_bytes("0x"), Ok(vec![]));
    assert_eq!(hex_to_bytes("zz"), Err(HexError::InvalidHexCharacter { c: 'z', index: 0 }));
    assert_eq!(hex_to_bytes("0x0g"), Err(HexError::InvalidHexCharacter { c: 'g', index: 1 }));
    // With the zero in front the fault stands one further on.
    assert_eq!(hex_to_bytes("12g"), Err(HexError::InvalidHexCharacter { c: 'g', index: 3 }));
    assert_eq!(hex_to_bytes("\u{e9}"), Err(HexError::InvalidHexCharacter { c: '\u{c3}', index: 0 }));
    assert_eq!(value_to_bytes(&text("0x0102")), Ok(vec![1, 2]));
    assert_eq!(value_to_bytes(&Value::Array(vec![number(0), number(255)])), Ok(vec![0, 255]));
    assert_eq!(value_to_bytes(&Value::Array(vec![])), Ok(vec![]));
    assert_eq!(value_to_bytes(&Value::Array(vec![number(1), number(256)])), Err(BytesError::Element(1)));
    assert_eq!(value_to_bytes(&Value::Array(vec![number(-1)])), Err(BytesError::Element(0)));
    assert_eq!(value_to_bytes(&Value::Array(vec![text("1")])), Err(BytesError::Element(0)));
    assert_eq!(value_to_bytes(&number(5)), Err(BytesError::NotBytes));
    assert_eq!(value_to_bytes(&Value::Null), Err(BytesError::NotBytes));
    assert_eq!(
        value_to_bytes(&text("xyz0")),
        Err(BytesError::Hex(HexError::InvalidHexCharacter { c: 'x', index: 0 })),
    );
}

#[test]
fn bytes_in_any_spelling_are_read_back() {
    let bytes: Vec<u8> = (0..=255).collect();
    let written: String = bytes.iter().map(|b| format!("{:02x}", b)).collect();
    assert_eq!(hex_to_bytes(&written), Ok(bytes.clone()));
    assert_eq!(hex_to_bytes(&format!("0x{}", written)), Ok(bytes.clone()));
    assert_eq!(hex_to_bytes(&written.to_uppercase()), Ok(bytes.clone()));
    assert_eq!(hex_to_bytes(&format!("0X{}", written.to_uppercase())), Ok(bytes));
}

#[test]
fn values_are_found_along_paths() {
    let value = object(vec![
        ("a", object(vec![("b", number(1)), ("b", number(2))])),
        ("c", Value::Array(vec![number(3)])),
        ("d", text("0x10")),
    ]);
    assert_eq!(value_at(&value, &["a", "b"]), Some(&number(1)));
    assert_eq!(value_at(&value, &["a", "x"]), None);
    assert_eq!(value_at(&value, &["c", "b"]), None);
    assert_eq!(value_at(&value, &[]), Some(&value));
    // What is there but of another kind is passed over.
    assert_eq!(first_i64(&value, &[&["x"], &["c"], &["d"], &["a", "b"]]), Some(16));
    assert_eq!(first_i64(&value, &[&["x"], &["c"]]), None);
    assert_eq!(first_bytes(&value, &[&["a"], &["c"]]), Some(vec![3]));
    assert_eq!(first_bytes(&value, &[]), None);
    assert_eq!(first_array(&value, &[&["d"], &["c"]]), Some(&vec![number(3)]));
    assert_eq!(first_array(&value, &[&["d"]]), None);
}

#[test]
fn headers_are_read_in_every_shape() {
    let flat = object(vec![
        ("number", number(5)),
        ("hash", text("0xaa")),
        ("parentHash", text("0xbb")),
        ("timestamp", number(6)),
        ("finalBlockNumber", number(4)),
    ]);
    let header = parse_block_header(&flat).unwrap();
    assert_eq!(header.number, 5);
    assert_eq!(header.hash, vec![0xaa]);
    assert_eq!(header.parent_hash, vec![0xbb]);
    assert_eq!(header.timestamp, 6);
    assert_eq!(header.final_block_number, 4);

    let nested = object(vec![
        ("blockHash", text("0xcc")),
        (
            "header",
            object(vec![
                ("previousBlockHash", text("0xdd")),
                ("lastFinalBlockHeight", text("3")),
                ("globalVariables", object(vec![("blockNumber", text("0x9")), ("timestamp", number(8))])),
            ]),
        ),
    ]);
    let header = parse_block_header(&nested).unwrap();
    assert_eq!(header.number, 9);
    assert_eq!(header.hash, vec![0xcc]);
    assert_eq!(header.parent_hash, vec![0xdd]);
    assert_eq!(header.timestamp, 8);
    assert_eq!(header.final_block_number, 3);

    let snake = object(vec![(
        "header",
        object(vec![
            ("blockHash", text("0x01")),
            ("globalVariables", object(vec![("block_number", number(2))])),
        ]),
    )]);
    let header = parse_block_header(&snake).unwrap();
    assert_eq!((header.number, header.timestamp, header.final_block_number), (2, 0, 0));
    assert_eq!(header.parent_hash, Vec::<u8>::new());

    // The first place that holds a number counts.
    let both = object(vec![
        ("number", text("no")),
        ("blockNumber", number(1)),
        ("header", object(vec![("number", number(2))])),
        ("hash", text("0x00")),
        ("previousBlockHash", text("0x02")),
        ("finalizedBlockNumber", number(7)),
    ]);
    let header = parse_block_header(&both).unwrap();
    assert_eq!((header.number, header.final_block_number), (1, 7));
    assert_eq!(header.parent_hash, vec![2]);
}

#[test]
fn headers_need_a_number_and_a_hash() {
    assert_eq!(parse_block_header(&object(vec![("hash", text("0xaa"))])), Err(HeaderError::MissingNumber));
    assert_eq!(parse_block_header(&object(vec![("number", number(1))])), Err(HeaderError::MissingHash));
    assert_eq!(
        parse_block_header(&object(vec![("number", number(1)), ("hash", text("zz"))])),
        Err(HeaderError::MissingHash),
    );
    assert_eq!(parse_block_header(&Value::Null), Err(HeaderError::MissingNumber));
}

fn log_value(index: i64) -> Value {
    object(vec![
        (
            "id",
            object(vec![("txHash", text("0x0102")), ("logIndex", number(index)), ("blockNumber", number(5))]),
        ),
        (
            "log",
            object(vec![
                ("contractAddress", text("0xABCD")),
                ("fields", Value::Array(vec![text("0x07"), Value::Array(vec![number(8), number(9)])])),
            ]),
        ),
    ])
}

fn log_read(index: u32) -> PublicLog {
    PublicLog {
        contract_address: vec![0xab, 0xcd],
        tag: vec![7],
        fields: vec![vec![7], vec![8, 9]],
        tx_hash: vec![1, 2],
        log_index: index,
    }
}

#[test]
fn logs_are_read() {
    assert_eq!(parse_public_log(&log_value(3)), Ok(log_read(3)));
    let flat = object(vec![
        ("address", text("0x01")),
        ("tag", text("0x02")),
        ("fields", Value::Array(vec![])),
        ("transactionHash", text("0x03")),
        ("index", text("4")),
    ]);
    assert_eq!(
        parse_public_log(&flat),
        Ok(PublicLog {
            contract_address: vec![1],
            tag: vec![2],
            fields: vec![],
            tx_hash: vec![3],
            log_index: 4,
        }),
    );
    // Without a tag and without fields the tag is empty; an index out of
    // range counts as zero, and so does a missing one.
    for index in [number(-1), number(4294967296), Value::Null] {
        let bare = object(vec![
            ("contract_address", text("0x01")),
            ("fields", Value::Array(vec![])),
            ("logIndex", index),
        ]);
        let log = parse_public_log(&bare).unwrap();
        assert_eq!((log.tag, log.tx_hash, log.log_index), (vec![], vec![], 0));
    }
    // A log inside the log, and what identifies it in `logId`.
    let deep = object(vec![
        (
            "log",
            object(vec![(
                "log",
                object(vec![("contractAddress", text("0x05")), ("fields", Value::Array(vec![text("0x06")]))]),
            )]),
        ),
        ("logId", object(vec![("txHash", text("0x07"))])),
    ]);
    assert_eq!(
        parse_public_log(&deep),
        Ok(PublicLog {
            contract_address: vec![5],
            tag: vec![6],
            fields: vec![vec![6]],
            tx_hash: vec![7],
            log_index: 0,
        }),
    );
}

#[test]
fn logs_need_fields_and_an_address() {
    assert_eq!(
        parse_public_log(&object(vec![("address", text("0x01"))])),
        Err(PublicLogError::MissingFields),
    );
    assert_eq!(
        parse_public_log(&object(vec![("fields", Value::Array(vec![]))])),
        Err(PublicLogError::MissingContractAddress),
    );
    assert_eq!(
        parse_public_log(&object(vec![("fields", Value::Array(vec![text("0x1"), number(2)]))])),
        Err(PublicLogError::Field { index: 1, cause: BytesError::NotBytes }),
    );
}

#[test]
fn calls_are_written_as_json_rpc() {
    assert_eq!(
        request(7, GET_BLOCK, block_params(-3)),
        object(vec![
            ("jsonrpc", text("2.0")),
            ("id", number(7)),
            ("method", text("node_getBlock")),
            ("params", Value::Array(vec![number(-3)])),
        ]),
    );
    assert_eq!(GET_BLOCK_NUMBER, "node_getBlockNumber");
    assert_eq!(GET_PUBLIC_LOGS, "node_getPublicLogs");
    assert_eq!(block_number_params(), Value::Array(vec![]));
}

#[test]
fn answers_hold_a_result_or_an_error() {
    let answer = object(vec![("id", number(1)), ("result", number(5))]);
    assert_eq!(reply_result(&answer), Ok(&number(5)));
    let null = object(vec![("result", Value::Null)]);
    assert_eq!(reply_result(&null), Ok(&Value::Null));
    let failed = object(vec![("result", number(5)), ("error", Value::Null)]);
    assert_eq!(reply_result(&failed), Err(ReplyError::Returned(Value::Null)));
    assert_eq!(reply_result(&object(vec![])), Err(ReplyError::MissingResult));
    assert_eq!(reply_result(&text("no")), Err(ReplyError::MissingResult));
}

#[test]
fn pages_are_joined_in_order() {
    let mut pages = PublicLogPages::new(5);
    assert_eq!(
        pages.params(),
        Value::Array(vec![object(vec![("fromBlock", number(5)), ("toBlock", number(6))])]),
    );
    let first = object(vec![
        ("logs", Value::Array(vec![log_value(0), log_value(1)])),
        ("maxLogsHit", Value::Bool(true)),
    ]);
    assert_eq!(pages.accept(&first), Ok(true));
    let cursor = log_value(1).get("id").unwrap().clone();
    assert_eq!(
        pages.params(),
        Value::Array(vec![object(vec![
            ("fromBlock", number(5)),
            ("toBlock", number(6)),
            ("afterLog", cursor),
        ])]),
    );
    // A page that cannot be read changes nothing.
    assert_eq!(pages.accept(&Value::Null), Err(PageError::MissingLogs));
    let last = object(vec![
        ("logs", Value::Array(vec![log_value(2)])),
        ("maxLogsHit", Value::Bool(false)),
    ]);
    assert_eq!(pages.accept(&last), Ok(false));
    let header =
        parse_block_header(&object(vec![("number", number(5)), ("hash", text("0xaa"))])).unwrap();
    let block = pages.into_block(header.clone());
    assert_eq!(block.header, Some(header));
    assert_eq!(block.public_logs, vec![log_read(0), log_read(1), log_read(2)]);
}

#[test]
fn pages_that_cannot_be_read_are_refused() {
    assert_eq!(read_page(&object(vec![("logs", number(1))])).err(), Some(PageError::MissingLogs));
    assert_eq!(
        read_page(&object(vec![("logs", Value::Array(vec![log_value(0), Value::Null]))])).err(),
        Some(PageError::Log { index: 1, cause: PublicLogError::MissingFields }),
    );
    let empty = object(vec![("logs", Value::Array(vec![])), ("maxLogsHit", Value::Bool(true))]);
    assert_eq!(read_page(&empty).err(), Some(PageError::MissingCursor));
    let bare = object(vec![("fields", Value::Array(vec![])), ("address", text("0x01"))]);
    let unnamed = object(vec![("logs", Value::Array(vec![bare])), ("maxLogsHit", Value::Bool(true))]);
    assert_eq!(read_page(&unnamed).err(), Some(PageError::MissingCursor));
}

#[test]
fn cursors_are_ids() {
    let log = object(vec![
        ("fields", Value::Array(vec![])),
        ("address", text("0x01")),
        ("logId", text("c")),
    ]);
    let page = object(vec![("logs", Value::Array(vec![log])), ("maxLogsHit", Value::Bool(true))]);
    let read = read_page(&page).unwrap();
    assert_eq!(read.next, Some(text("c")));
    assert_eq!(read.logs.len(), 1);
    // Only the truth value counts.
    let page = object(vec![("logs", Value::Array(vec![])), ("maxLogsHit", text("true"))]);
    assert_eq!(read_page(&page).unwrap().next, None);
}

#[test]
fn the_chain_is_known_by_its_first_block() {
    let genesis = BlockPtr { hash: BlockHash(vec![3; 32]), number: 0 };
    let known = chain_identifier::<()>(Ok(genesis));
    assert_eq!(known.net_version, "aztec");
    assert_eq!(known.genesis_block_hash, BlockHash(vec![3; 32]));
    assert_eq!(chain_identifier(Err("down")).genesis_block_hash, BlockHash::zero());
}

#[test]
fn numbers_of_json_have_a_range() {
    assert_eq!(number(5).as_u64(), Some(5));
    assert_eq!(number(-5).as_u64(), None);
    assert_eq!(number(-5).as_i64(), Some(-5));
    assert_eq!(Value::Bool(true).as_bool(), Some(true));
    assert_eq!(text("a").as_bool(), None);
    assert_eq!(text("a").as_str(), Some("a"));
    assert_eq!(number(1).as_str(), None);
    let nested = object(vec![("a", Value::Array(vec![Value::Null, object(vec![("b", number(1))])]))]);
    assert_eq!(nested.clone(), nested);
}

fn next_fetch(step: FetchStep) -> BlockFetch {
    match step {
        FetchStep::More(fetch) => fetch,
        FetchStep::Done(block) => panic!("{:?}", block),
    }
}

#[test]
fn blocks_are_fetched_whole() {
    let fetch = BlockFetch::new(5);
    assert_eq!((fetch.method(), fetch.params()), (GET_BLOCK, Value::Array(vec![number(5)])));
    let header = object(vec![("number", number(5)), ("hash", text("0xaa"))]);
    let fetch = next_fetch(fetch.accept(&header).unwrap());
    let range = || vec![("fromBlock", number(5)), ("toBlock", number(6))];
    assert_eq!((fetch.method(), fetch.params()), (GET_PUBLIC_LOGS, Value::Array(vec![object(range())])));
    let first = object(vec![
        ("logs", Value::Array(vec![log_value(0)])),
        ("maxLogsHit", Value::Bool(true)),
    ]);
    let fetch = next_fetch(fetch.accept(&first).unwrap());
    let mut filter = range();
    filter.push(("afterLog", log_value(0).get("id").unwrap().clone()));
    assert_eq!((fetch.method(), fetch.params()), (GET_PUBLIC_LOGS, Value::Array(vec![object(filter)])));
    let last = object(vec![("logs", Value::Array(vec![log_value(1), log_value(2)]))]);
    match fetch.accept(&last).unwrap() {
        FetchStep::Done(block) => {
            assert_eq!(block.header().number, 5);
            assert_eq!(block.public_logs, vec![log_read(0), log_read(1), log_read(2)]);
        }
        FetchStep::More(fetch) => panic!("{:?}", fetch),
    }
}

#[test]
fn fetches_fail_where_an_answer_cannot_be_read() {
    assert_eq!(
        BlockFetch::new(5).accept(&Value::Null).err(),
        Some(FetchError::Header(HeaderError::MissingNumber)),
    );
    let header = object(vec![("number", number(5)), ("hash", text("0xaa"))]);
    let fetch = next_fetch(BlockFetch::new(5).accept(&header).unwrap());
    assert_eq!(fetch.accept(&Value::Null).err(), Some(FetchError::Page(PageError::MissingLogs)));
}

#[test]
fn calls_are_numbered_from_one() {
    let headers = vec![("X-Key".to_string(), "v".to_string())];
    let mut client = AztecRpcClient::new("node".to_string(), "http://localhost".to_string(), &headers).unwrap();
    assert_eq!((client.label(), client.url()), ("node", "http://localhost"));
    assert_eq!(client.headers().get("x-key").unwrap().as_bytes(), b"v");
    for n in 1..=5 {
        // Whether the call before it had a result makes no difference.
        let body = client.call(GET_BLOCK, block_params(9));
        assert_eq!(body, request(n, GET_BLOCK, block_params(9)));
        assert_eq!(body.get("id"), Some(&number(n as i64)));
        assert_eq!(reply_result(&Value::Null), Err(ReplyError::MissingResult));
    }
    let refused = AztecRpcClient::new(String::new(), String::new(), &vec![("".to_string(), String::new())]);
    assert_eq!(refused.err(), Some(HeadersError::InvalidName(String::new())));
}

#[test]
fn fields_are_shown_as_they_are_given() {
    assert_eq!(public_log_fields(&log_value(0)).unwrap()[0], text("0x07"));
    assert_eq!(public_log_fields(&Value::Null), None);
}

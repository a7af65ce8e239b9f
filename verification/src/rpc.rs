//! The node's JSON-RPC interface: what is asked and what is read in the answers.
use reqwest::header::{HeaderMap, HeaderValue};
use vstd::prelude::*;
use crate::codec::{byte_strings, copy_bytes, log_views, zeros, Block, BlockHash, BlockHeader, BlockNumber, BlockPtr, BlockView, HeaderView, LogView, PtrView, PublicLog};
use crate::hexadecimal::hex_text;
use crate::headers::{default_headers, entries_of, header_entries, header_texts, headers_refused, valid_headers, HeadersError};
use crate::json::{json_items, json_members, lemma_json_items, lemma_json_members, law_first_member, law_no_member, member, Json, Number, Value};
use crate::reading::{array_stands, at_path, bytes_of, bytes_stand, first_array, first_array_at, first_bytes, first_bytes_at, first_i64, first_i64_at, i64_of, integer_stands, law_first_array, law_first_bytes, law_first_integer, law_hex_read_back, law_path_of_one, law_paths_join, paths_text, value_to_bytes, value_to_i64, BytesError};

verus! {

/// Why a JSON value does not stand for a block number.
#[derive(Clone, Copy, Debug, PartialEq, Eq)]
pub enum BlockNumberError {
    /// It is no integer.
    Invalid,
    /// It is this integer, which no block has as its number.
    OutOfRange(i64),
}

/// Why a JSON value does not stand for a block.
#[derive(Clone, Copy, Debug, PartialEq, Eq)]
pub enum HeaderError {
    MissingNumber,
    MissingHash,
}

/// Why a JSON value does not stand for a public log.
#[derive(Clone, Copy, Debug, PartialEq, Eq)]
pub enum PublicLogError {
    MissingFields,
    /// The field at `index` does not stand for bytes.
    Field { index: usize, cause: BytesError },
    MissingContractAddress,
}

/// The block number that `value` stands for.
pub open spec fn block_number_of(value: Json) -> Result<BlockNumber, BlockNumberError> {
    match i64_of(value) {
        None => Err(BlockNumberError::Invalid),
        Some(n) => if i32::MIN <= n <= i32::MAX {
            Ok(n as i32)
        } else {
            Err(BlockNumberError::OutOfRange(n))
        },
    }
}

/// The block number that `value` stands for: an integer in the range of
/// block numbers.
pub fn value_to_block_number(value: &Value) -> (r: Result<BlockNumber, BlockNumberError>)
    ensures
        r == block_number_of(value@),
{
    match value_to_i64(value) {
        None => Err(BlockNumberError::Invalid),
        Some(n) => if -0x8000_0000 <= n && n <= 0x7fff_ffff {
            Ok(n as i32)
        } else {
            Err(BlockNumberError::OutOfRange(n))
        },
    }
}

/// Where a block's number may stand.
pub open spec fn number_paths() -> Seq<Seq<Seq<char>>> {
    seq![
        seq!["number"@],
        seq!["blockNumber"@],
        seq!["header"@, "number"@],
        seq!["header"@, "globalVariables"@, "blockNumber"@],
        seq!["header"@, "globalVariables"@, "block_number"@],
    ]
}

/// Where a block's hash may stand.
pub open spec fn hash_paths() -> Seq<Seq<Seq<char>>> {
    seq![
        seq!["hash"@],
        seq!["blockHash"@],
        seq!["header"@, "hash"@],
        seq!["header"@, "blockHash"@],
    ]
}

/// Where the hash of a block's parent may stand.
pub open spec fn parent_hash_paths() -> Seq<Seq<Seq<char>>> {
    seq![
        seq!["parentHash"@],
        seq!["previousBlockHash"@],
        seq!["header"@, "parentHash"@],
        seq!["header"@, "previousBlockHash"@],
    ]
}

/// Where a block's time may stand.
pub open spec fn timestamp_paths() -> Seq<Seq<Seq<char>>> {
    seq![
        seq!["timestamp"@],
        seq!["header"@, "timestamp"@],
        seq!["header"@, "globalVariables"@, "timestamp"@],
    ]
}

/// Where the number of the last final block may stand.
pub open spec fn final_number_paths() -> Seq<Seq<Seq<char>>> {
    seq![
        seq!["finalBlockNumber"@],
        seq!["finalizedBlockNumber"@],
        seq!["header"@, "lastFinalBlockHeight"@],
        seq!["header"@, "finalBlockNumber"@],
    ]
}

/// `value`, or `default` where it is missing.
pub open spec fn value_or<T>(value: Option<T>, default: T) -> T {
    match value {
        Some(v) => v,
        None => default,
    }
}

/// The header of the block that `value` stands for. Its number and its hash
/// have to be there; without a parent hash that is empty, without a time or a
/// final block that is zero.
pub open spec fn block_header_of(value: Json) -> Result<HeaderView, HeaderError> {
    match (first_i64_at(value, number_paths()), first_bytes_at(value, hash_paths())) {
        (None, _) => Err(HeaderError::MissingNumber),
        (_, None) => Err(HeaderError::MissingHash),
        (Some(number), Some(hash)) => Ok(
            HeaderView {
                number,
                hash,
                parent_hash: value_or(first_bytes_at(value, parent_hash_paths()), Seq::empty()),
                timestamp: value_or(first_i64_at(value, timestamp_paths()), 0),
                final_block_number: value_or(first_i64_at(value, final_number_paths()), 0),
            },
        ),
    }
}

/// The header of the block that `value` stands for.
pub fn parse_block_header(value: &Value) -> (r: Result<BlockHeader, HeaderError>)
    ensures
        match r {
            Ok(header) => block_header_of(value@) == Ok::<HeaderView, HeaderError>(header@),
            Err(e) => block_header_of(value@) == Err::<HeaderView, HeaderError>(e),
        },
{
    let paths: &[&[&str]] = &[
        &["number"],
        &["blockNumber"],
        &["header", "number"],
        &["header", "globalVariables", "blockNumber"],
        &["header", "globalVariables", "block_number"],
    ];
    assert(paths_text(paths@) =~~= number_paths());
    let number = match first_i64(value, paths) {
        Some(number) => number,
        None => return Err(HeaderError::MissingNumber),
    };

    let paths: &[&[&str]] = &[&["hash"], &["blockHash"], &["header", "hash"], &["header", "blockHash"]];
    assert(paths_text(paths@) =~~= hash_paths());
    let hash = match first_bytes(value, paths) {
        Some(hash) => hash,
        None => return Err(HeaderError::MissingHash),
    };

    let paths: &[&[&str]] = &[
        &["parentHash"],
        &["previousBlockHash"],
        &["header", "parentHash"],
        &["header", "previousBlockHash"],
    ];
    assert(paths_text(paths@) =~~= parent_hash_paths());
    let parent_hash = match first_bytes(value, paths) {
        Some(parent_hash) => parent_hash,
        None => Vec::new(),
    };

    let paths: &[&[&str]] = &[
        &["timestamp"],
        &["header", "timestamp"],
        &["header", "globalVariables", "timestamp"],
    ];
    assert(paths_text(paths@) =~~= timestamp_paths());
    let timestamp = match first_i64(value, paths) {
        Some(timestamp) => timestamp,
        None => 0,
    };

    let paths: &[&[&str]] = &[
        &["finalBlockNumber"],
        &["finalizedBlockNumber"],
        &["header", "lastFinalBlockHeight"],
        &["header", "finalBlockNumber"],
    ];
    assert(paths_text(paths@) =~~= final_number_paths());
    let final_block_number = match first_i64(value, paths) {
        Some(final_block_number) => final_block_number,
        None => 0,
    };

    Ok(BlockHeader { number, hash, parent_hash, timestamp, final_block_number })
}

/// The member `name` of `value`, or `value` itself where it has none.
pub open spec fn inner_or_self(value: Json, name: Seq<char>) -> Json {
    value_or(value.get(name), value)
}

/// How many of `items`, from the first, stand for bytes.
pub open spec fn field_count(items: Seq<Json>) -> nat
    decreases items.len(),
{
    if items.len() == 0 || bytes_of(items[0]) is Err {
        0
    } else {
        1 + field_count(items.skip(1))
    }
}

/// Where the fields of a log may stand.
pub open spec fn fields_paths() -> Seq<Seq<Seq<char>>> {
    seq![seq!["fields"@], seq!["log"@, "fields"@]]
}

/// Where the tag of a log may stand.
pub open spec fn tag_paths() -> Seq<Seq<Seq<char>>> {
    seq![seq!["tag"@]]
}

/// Where the address of the contract may stand.
pub open spec fn address_paths() -> Seq<Seq<Seq<char>>> {
    seq![
        seq!["contractAddress"@],
        seq!["contract_address"@],
        seq!["address"@],
        seq!["log"@, "contractAddress"@],
    ]
}

/// Where the hash of the transaction may stand.
pub open spec fn tx_hash_paths() -> Seq<Seq<Seq<char>>> {
    seq![
        seq!["txHash"@],
        seq!["transactionHash"@],
        seq!["id"@, "txHash"@],
        seq!["logId"@, "txHash"@],
    ]
}

/// Where the index of a log may stand.
pub open spec fn log_index_paths() -> Seq<Seq<Seq<char>>> {
    seq![seq!["logIndex"@], seq!["index"@], seq!["id"@, "logIndex"@]]
}

/// `n` as the index of a log, where it can be one, else zero.
pub open spec fn log_index_of(n: Option<i64>) -> u32 {
    match n {
        Some(n) if 0 <= n <= u32::MAX => n as u32,
        _ => 0,
    }
}

/// The tag: the one given, else the first field, else empty.
pub open spec fn tag_of(given: Option<Seq<u8>>, fields: Seq<Seq<u8>>) -> Seq<u8> {
    match given {
        Some(tag) => tag,
        None => if fields.len() > 0 {
            fields[0]
        } else {
            Seq::empty()
        },
    }
}

/// The public log that `value` stands for. What was logged is in its member
/// `log` and what identifies it in its member `id`, or else in `value` itself.
/// The fields, which are all bytes, and the contract's address have to be
/// there.
pub open spec fn public_log_of(value: Json) -> Result<LogView, PublicLogError> {
    let log = inner_or_self(value, "log"@);
    let id = inner_or_self(value, "id"@);
    match first_array_at(log, fields_paths()) {
        None => Err(PublicLogError::MissingFields),
        Some(items) => if field_count(items) < items.len() {
            Err(
                PublicLogError::Field {
                    index: field_count(items) as usize,
                    cause: bytes_of(items[field_count(items) as int])->Err_0,
                },
            )
        } else {
            let fields = items.map_values(|item: Json| bytes_of(item)->Ok_0);
            match first_bytes_at(log, address_paths()) {
                None => Err(PublicLogError::MissingContractAddress),
                Some(contract_address) => Ok(
                    LogView {
                        contract_address,
                        tag: tag_of(first_bytes_at(log, tag_paths()), fields),
                        fields,
                        tx_hash: value_or(first_bytes_at(id, tx_hash_paths()), Seq::empty()),
                        log_index: log_index_of(first_i64_at(id, log_index_paths())),
                    },
                ),
            }
        },
    }
}

fn parse_fields(items: &Vec<Value>) -> (r: Result<Vec<Vec<u8>>, PublicLogError>)
    ensures
        match r {
            Ok(fields) => field_count(json_items(items@)) == items@.len() && byte_strings(fields@)
                == json_items(items@).map_values(|item: Json| bytes_of(item)->Ok_0),
            Err(e) => {
                &&& field_count(json_items(items@)) < items@.len()
                &&& e == (PublicLogError::Field {
                    index: field_count(json_items(items@)) as usize,
                    cause: bytes_of(json_items(items@)[field_count(json_items(items@)) as int])->Err_0,
                })
            },
        },
{
    broadcast use lemma_json_items;

    let ghost models = json_items(items@);
    let mut fields: Vec<Vec<u8>> = Vec::new();
    let mut i: usize = 0;
    assert(models.skip(0) == models);
    while i < items.len()
        invariant
            i <= items@.len(),
            models == json_items(items@),
            fields@.len() == i,
            forall|k: int| 0 <= k < i ==> (#[trigger] fields@[k])@ == bytes_of(models[k])->Ok_0,
            field_count(models) == i + field_count(models.skip(i as int)),
        decreases items@.len() - i,
    {
        broadcast use lemma_json_items;

        proof {
            assert(models.skip(i as int)[0] == items@[i as int]@);
            assert(models.skip(i as int).skip(1) == models.skip(i + 1));
        }
        match value_to_bytes(&items[i]) {
            Ok(bytes) => fields.push(bytes),
            Err(cause) => return Err(PublicLogError::Field { index: i, cause }),
        }
        i += 1;
    }
    assert(byte_strings(fields@) =~= models.map_values(|item: Json| bytes_of(item)->Ok_0));
    Ok(fields)
}

/// The fields of the public log that `value` stands for, as they are given.
pub fn public_log_fields(value: &Value) -> (r: Option<&Vec<Value>>)
    ensures
        match r {
            Some(items) => first_array_at(inner_or_self(value@, "log"@), fields_paths()) == Some(
                json_items(items@),
            ),
            None => first_array_at(inner_or_self(value@, "log"@), fields_paths()) is None,
        },
{
    let log = match value.get("log") {
        Some(log) => log,
        None => value,
    };
    let paths: &[&[&str]] = &[&["fields"], &["log", "fields"]];
    assert(paths_text(paths@) =~~= fields_paths());
    first_array(log, paths)
}

/// The public log that `value` stands for.
pub fn parse_public_log(value: &Value) -> (r: Result<PublicLog, PublicLogError>)
    ensures
        match r {
            Ok(log) => public_log_of(value@) == Ok::<LogView, PublicLogError>(log@),
            Err(e) => public_log_of(value@) == Err::<LogView, PublicLogError>(e),
        },
{
    broadcast use lemma_json_items;

    let log = match value.get("log") {
        Some(log) => log,
        None => value,
    };
    let id = match value.get("id") {
        Some(id) => id,
        None => value,
    };

    let items = match public_log_fields(value) {
        Some(items) => items,
        None => return Err(PublicLogError::MissingFields),
    };
    let fields = match parse_fields(items) {
        Ok(fields) => fields,
        Err(e) => return Err(e),
    };

    let paths: &[&[&str]] = &[&["tag"]];
    assert(paths_text(paths@) =~~= tag_paths());
    let tag = match first_bytes(log, paths) {
        Some(tag) => tag,
        None => if fields.len() > 0 {
            copy_bytes(&fields[0])
        } else {
            Vec::new()
        },
    };

    let paths: &[&[&str]] = &[
        &["contractAddress"],
        &["contract_address"],
        &["address"],
        &["log", "contractAddress"],
    ];
    assert(paths_text(paths@) =~~= address_paths());
    let contract_address = match first_bytes(log, paths) {
        Some(contract_address) => contract_address,
        None => return Err(PublicLogError::MissingContractAddress),
    };

    let paths: &[&[&str]] = &[
        &["txHash"],
        &["transactionHash"],
        &["id", "txHash"],
        &["logId", "txHash"],
    ];
    assert(paths_text(paths@) =~~= tx_hash_paths());
    let tx_hash = match first_bytes(id, paths) {
        Some(tx_hash) => tx_hash,
        None => Vec::new(),
    };

    let paths: &[&[&str]] = &[&["logIndex"], &["index"], &["id", "logIndex"]];
    assert(paths_text(paths@) =~~= log_index_paths());
    let log_index = match first_i64(id, paths) {
        Some(n) if 0 <= n && n <= 0xffff_ffff => n as u32,
        _ => 0,
    };

    Ok(PublicLog { contract_address, tag, fields, tx_hash, log_index })
}

/// The integer `n` as JSON.
pub open spec fn int_json(n: int) -> Json {
    if n >= 0 {
        Json::PosInt(n as u64)
    } else {
        Json::NegInt(n as i64)
    }
}

fn int_value(n: i32) -> (r: Value)
    ensures
        r@ == int_json(n as int),
{
    if n >= 0 {
        Value::Number(Number::PosInt(n as u64))
    } else {
        Value::Number(Number::NegInt(n as i64))
    }
}

fn text_value(s: &str) -> (r: Value)
    ensures
        r@ == Json::Text(s@),
{
    Value::Text(s.to_owned())
}

/// The call of `method` as JSON.
pub open spec fn request_json(id: u64, method: Seq<char>, params: Json) -> Json {
    Json::Object(
        seq![
            ("jsonrpc"@, Json::Text("2.0"@)),
            ("id"@, Json::PosInt(id)),
            ("method"@, Json::Text(method)),
            ("params"@, params),
        ],
    )
}

/// The body that calls `method` with `params`, as call number `id`.
pub fn request(id: u64, method: &str, params: Value) -> (r: Value)
    ensures
        r@ == request_json(id, method@, params@),
{
    broadcast use lemma_json_members;

    let members = vec![
        ("jsonrpc".to_owned(), text_value("2.0")),
        ("id".to_owned(), Value::Number(Number::PosInt(id))),
        ("method".to_owned(), text_value(method)),
        ("params".to_owned(), params),
    ];
    assert(json_members(members@) =~= request_json(id, method@, params@)->Object_0);
    Value::Object(members)
}

/// What calls to one node go out with: where they go, the headers that go with
/// each, and the number of the next one.
#[derive(Debug)]
pub struct AztecRpcClient {
    label: String,
    url: String,
    headers: HeaderMap<HeaderValue>,
    request_id: u64,
}

/// The mathematical model of an `AztecRpcClient`.
pub struct ClientView {
    pub label: Seq<char>,
    pub url: Seq<char>,
    pub headers: Map<Seq<u8>, Seq<u8>>,
    pub request_id: u64,
}

impl View for AztecRpcClient {
    type V = ClientView;

    closed spec fn view(&self) -> ClientView {
        ClientView {
            label: self.label@,
            url: self.url@,
            headers: header_entries(self.headers),
            request_id: self.request_id,
        }
    }
}

impl ClientView {
    /// The client before its first call.
    pub open spec fn fresh(
        label: Seq<char>,
        url: Seq<char>,
        headers: Seq<(Seq<char>, Seq<char>)>,
    ) -> ClientView {
        ClientView { label, url, headers: entries_of(headers), request_id: 1 }
    }

    /// The client after one more call, whatever comes of it. Behind the
    /// greatest number comes zero.
    pub open spec fn after_call(self) -> ClientView {
        ClientView {
            request_id: if self.request_id == u64::MAX {
                0
            } else {
                (self.request_id + 1) as u64
            },
            ..self
        }
    }

    /// The body of a call of `method` with `params`.
    pub open spec fn body(self, method: Seq<char>, params: Json) -> Json {
        request_json(self.request_id, method, params)
    }

    /// The client after `n` more calls, whatever comes of them.
    pub open spec fn after_calls(self, n: nat) -> ClientView
        decreases n,
    {
        if n == 0 {
            self
        } else {
            self.after_calls((n - 1) as nat).after_call()
        }
    }
}

impl AztecRpcClient {
    /// The client for the node at `url`, known as `label`, which sends
    /// `headers` along with every call.
    pub fn new(label: String, url: String, headers: &Vec<(String, String)>) -> (r: Result<
        Self,
        HeadersError,
    >)
        ensures
            match r {
                Ok(client) => {
                    &&& valid_headers(header_texts(headers@)) == headers@.len()
                    &&& client@ == ClientView::fresh(label@, url@, header_texts(headers@))
                },
                Err(e) => headers_refused(header_texts(headers@), e),
            },
    {
        match default_headers(headers) {
            Ok(headers) => Ok(AztecRpcClient { label, url, headers, request_id: 1 }),
            Err(e) => Err(e),
        }
    }

    /// What the node is known as.
    pub fn label(&self) -> (r: &str)
        ensures
            r@ == self@.label,
    {
        self.label.as_str()
    }

    /// Where calls go.
    pub fn url(&self) -> (r: &str)
        ensures
            r@ == self@.url,
    {
        self.url.as_str()
    }

    /// The headers that go with every call.
    pub fn headers(&self) -> (r: &HeaderMap<HeaderValue>)
        ensures
            header_entries(*r) == self@.headers,
    {
        &self.headers
    }

    /// The body of the next call, which is one of `method` with `params`. Each
    /// call takes a number of its own, whatever comes of it.
    pub fn call(&mut self, method: &str, params: Value) -> (r: Value)
        ensures
            r@ == old(self)@.body(method@, params@),
            final(self)@ == old(self)@.after_call(),
    {
        let id = self.request_id;
        self.request_id = if id == 0xffff_ffff_ffff_ffff {
            0
        } else {
            id + 1
        };
        request(id, method, params)
    }
}

proof fn lemma_after_calls(client: ClientView, n: nat)
    requires
        client.request_id + n <= u64::MAX,
    ensures
        client.after_calls(n) == (ClientView { request_id: (client.request_id + n) as u64, ..client }),
    decreases n,
{
    if n > 0 {
        lemma_after_calls(client, (n - 1) as nat);
    }
}

/// The calls of a client are numbered from one on: call `n`, whatever came of
/// those before it, has the number `n`, and no earlier call `m` had it. What is
/// asked with a call and where it goes do not depend on the calls before it.
pub proof fn law_calls_are_numbered(
    label: Seq<char>,
    url: Seq<char>,
    headers: Seq<(Seq<char>, Seq<char>)>,
    method: Seq<char>,
    params: Json,
    n: u64,
    m: u64,
)
    requires
        1 <= n,
    ensures
        ({
            let fresh = ClientView::fresh(label, url, headers);
            let client = fresh.after_calls((n - 1) as nat);
            &&& client.body(method, params) == request_json(n, method, params)
            &&& client.body(method, params).get("id"@) == Some(Json::PosInt(n))
            &&& 1 <= m < n ==> fresh.after_calls((m - 1) as nat).request_id != client.request_id
            &&& client.url == url
            &&& client.headers == entries_of(headers)
        }),
{
    let fresh = ClientView::fresh(label, url, headers);
    lemma_after_calls(fresh, (n - 1) as nat);
    if 1 <= m {
        lemma_after_calls(fresh, (m - 1) as nat);
    }
    reveal_strlit("jsonrpc");
    reveal_strlit("id");
    let members = request_json(n, method, params)->Object_0;
    assert("jsonrpc"@.len() != "id"@.len());
    assert(members.skip(1)[0] == members[1]);
    reveal_with_fuel(member, 3);
}

/// Why a call gave no result.
#[derive(Debug, PartialEq, Eq)]
pub enum ReplyError {
    /// The node answered with this error.
    Returned(Value),
    /// The node answered with neither an error nor a result.
    MissingResult,
}

/// The result in an answer, or the error in it, or nothing.
pub open spec fn reply_of(response: Json) -> Result<Json, Option<Json>> {
    match (response.get("error"@), response.get("result"@)) {
        (Some(error), _) => Err(Some(error)),
        (None, Some(result)) => Ok(result),
        (None, None) => Err(None),
    }
}

/// What `r` says of an answer.
pub open spec fn reply_view(r: Result<&Value, ReplyError>) -> Result<Json, Option<Json>> {
    match r {
        Ok(result) => Ok(result@),
        Err(ReplyError::Returned(error)) => Err(Some(error@)),
        Err(ReplyError::MissingResult) => Err(None),
    }
}

/// The result in the answer to a call. An answer with a member `error`,
/// whatever it holds, has none.
pub fn reply_result(response: &Value) -> (r: Result<&Value, ReplyError>)
    ensures
        match r {
            Ok(result) => response@.get("error"@) is None && response@.get("result"@) == Some(result@),
            Err(ReplyError::Returned(error)) => response@.get("error"@) == Some(error@),
            Err(ReplyError::MissingResult) => response@.get("error"@) is None && response@.get(
                "result"@,
            ) is None,
        },
        reply_view(r) == reply_of(response@),
{
    match response.get("error") {
        Some(error) => Err(ReplyError::Returned(error.clone())),
        None => match response.get("result") {
            Some(result) => Ok(result),
            None => Err(ReplyError::MissingResult),
        },
    }
}

/// The name of the call for the number of the latest block.
pub const GET_BLOCK_NUMBER: &'static str = "node_getBlockNumber";

/// The name of the call for a block.
pub const GET_BLOCK: &'static str = "node_getBlock";

/// The name of the call for public logs.
pub const GET_PUBLIC_LOGS: &'static str = "node_getPublicLogs";

/// What is asked for the number of the latest block: nothing.
pub fn block_number_params() -> (r: Value)
    ensures
        r@ == Json::Array(Seq::empty()),
{
    let items: Vec<Value> = Vec::new();
    assert(json_items(items@) =~= Seq::empty());
    Value::Array(items)
}

/// What is asked for block `number`.
pub fn block_params(number: BlockNumber) -> (r: Value)
    ensures
        r@ == Json::Array(seq![int_json(number as int)]),
{
    broadcast use lemma_json_items;

    let items = vec![int_value(number)];
    assert(json_items(items@) =~= seq![int_json(number as int)]);
    Value::Array(items)
}

/// The filter for the logs of block `number`, from behind the log `after_log`
/// on where one is given.
pub open spec fn log_filter(number: int, after_log: Option<Json>) -> Json {
    let range = seq![("fromBlock"@, int_json(number)), ("toBlock"@, int_json(number + 1))];
    Json::Object(
        match after_log {
            Some(cursor) => range.push(("afterLog"@, cursor)),
            None => range,
        },
    )
}

/// Why a page of logs cannot be read.
#[derive(Clone, Copy, Debug, PartialEq, Eq)]
pub enum PageError {
    /// It has no array of logs.
    MissingLogs,
    /// The log at `index` is none.
    Log { index: usize, cause: PublicLogError },
    /// More logs follow, but the last one does not say what to ask for.
    MissingCursor,
}

/// The mathematical model of a page: its logs, and what to ask for next.
pub struct PageView {
    pub logs: Seq<LogView>,
    pub next: Option<Json>,
}

/// How many of `items`, from the first, stand for logs.
pub open spec fn log_count(items: Seq<Json>) -> nat
    decreases items.len(),
{
    if items.len() == 0 || public_log_of(items[0]) is Err {
        0
    } else {
        1 + log_count(items.skip(1))
    }
}

/// Whether `response` says that more logs follow.
pub open spec fn more_follow(response: Json) -> bool {
    response.get("maxLogsHit"@) matches Some(hit) && hit.as_bool() == Some(true)
}

/// What identifies `log` to the node.
pub open spec fn cursor_of(log: Json) -> Option<Json> {
    match log.get("id"@) {
        Some(cursor) => Some(cursor),
        None => log.get("logId"@),
    }
}

/// The cursor of the last of `items`.
pub open spec fn last_cursor(items: Seq<Json>) -> Option<Json> {
    if items.len() == 0 {
        None
    } else {
        cursor_of(items.last())
    }
}

/// The items of a page.
pub open spec fn page_items(response: Json) -> Option<Seq<Json>> {
    match response.get("logs"@) {
        Some(logs) => logs.as_array(),
        None => None,
    }
}

/// The page of logs that `response` stands for.
pub open spec fn page_of(response: Json) -> Result<PageView, PageError> {
    match page_items(response) {
        None => Err(PageError::MissingLogs),
        Some(items) => if log_count(items) < items.len() {
            Err(
                PageError::Log {
                    index: log_count(items) as usize,
                    cause: public_log_of(items[log_count(items) as int])->Err_0,
                },
            )
        } else if more_follow(response) && last_cursor(items) is None {
            Err(PageError::MissingCursor)
        } else {
            Ok(
                PageView {
                    logs: items.map_values(|item: Json| public_log_of(item)->Ok_0),
                    next: if more_follow(response) {
                        last_cursor(items)
                    } else {
                        None
                    },
                },
            )
        },
    }
}

fn parse_logs(items: &Vec<Value>) -> (r: Result<Vec<PublicLog>, PageError>)
    ensures
        match r {
            Ok(logs) => log_count(json_items(items@)) == items@.len() && log_views(logs@)
                == json_items(items@).map_values(|item: Json| public_log_of(item)->Ok_0),
            Err(e) => {
                &&& log_count(json_items(items@)) < items@.len()
                &&& e == (PageError::Log {
                    index: log_count(json_items(items@)) as usize,
                    cause: public_log_of(json_items(items@)[log_count(json_items(items@)) as int])->Err_0,
                })
            },
        },
{
    broadcast use lemma_json_items;

    let ghost models = json_items(items@);
    let mut logs: Vec<PublicLog> = Vec::new();
    let mut i: usize = 0;
    assert(models.skip(0) == models);
    while i < items.len()
        invariant
            i <= items@.len(),
            models == json_items(items@),
            logs@.len() == i,
            forall|k: int| 0 <= k < i ==> (#[trigger] logs@[k])@ == public_log_of(models[k])->Ok_0,
            log_count(models) == i + log_count(models.skip(i as int)),
        decreases items@.len() - i,
    {
        broadcast use lemma_json_items;

        proof {
            assert(models.skip(i as int)[0] == items@[i as int]@);
            assert(models.skip(i as int).skip(1) == models.skip(i + 1));
        }
        match parse_public_log(&items[i]) {
            Ok(log) => logs.push(log),
            Err(cause) => return Err(PageError::Log { index: i, cause }),
        }
        i += 1;
    }
    assert(log_views(logs@) =~= models.map_values(|item: Json| public_log_of(item)->Ok_0));
    Ok(logs)
}

/// A page of logs, and what to ask for the next one with, if there is one.
#[derive(Debug)]
pub struct Page {
    pub logs: Vec<PublicLog>,
    pub next: Option<Value>,
}

/// The model of a value that may be missing.
pub open spec fn owned_view(value: Option<Value>) -> Option<Json> {
    match value {
        Some(v) => Some(v@),
        None => None,
    }
}

impl View for Page {
    type V = PageView;

    open spec fn view(&self) -> PageView {
        PageView { logs: log_views(self.logs@), next: owned_view(self.next) }
    }
}

/// The page of logs that `response` stands for.
pub fn read_page(response: &Value) -> (r: Result<Page, PageError>)
    ensures
        match r {
            Ok(page) => page_of(response@) == Ok::<PageView, PageError>(page@),
            Err(e) => page_of(response@) == Err::<PageView, PageError>(e),
        },
{
    broadcast use lemma_json_items;

    let items = match response.get("logs") {
        Some(logs) => match logs.as_array() {
            Some(items) => items,
            None => return Err(PageError::MissingLogs),
        },
        None => return Err(PageError::MissingLogs),
    };
    let logs = match parse_logs(items) {
        Ok(logs) => logs,
        Err(e) => return Err(e),
    };
    let more = match response.get("maxLogsHit") {
        Some(hit) => match hit.as_bool() {
            Some(hit) => hit,
            None => false,
        },
        None => false,
    };
    if !more {
        return Ok(Page { logs, next: None });
    }
    if items.len() == 0 {
        return Err(PageError::MissingCursor);
    }
    let last = &items[items.len() - 1];
    match last.get("id") {
        Some(cursor) => Ok(Page { logs, next: Some(cursor.clone()) }),
        None => match last.get("logId") {
            Some(cursor) => Ok(Page { logs, next: Some(cursor.clone()) }),
            None => Err(PageError::MissingCursor),
        },
    }
}

/// The pages of logs of one block, as far as they were read.
#[derive(Debug)]
pub struct PublicLogPages {
    number: BlockNumber,
    logs: Vec<PublicLog>,
    after_log: Option<Value>,
}

/// The mathematical model of `PublicLogPages`.
pub struct PagesView {
    pub number: BlockNumber,
    pub logs: Seq<LogView>,
    pub after_log: Option<Json>,
}

/// The pages of block `number` before the first one was read.
pub open spec fn no_pages(number: BlockNumber) -> PagesView {
    PagesView { number, logs: Seq::empty(), after_log: None }
}

impl View for PublicLogPages {
    type V = PagesView;

    closed spec fn view(&self) -> PagesView {
        PagesView {
            number: self.number,
            logs: log_views(self.logs@),
            after_log: owned_view(self.after_log),
        }
    }
}

impl PagesView {
    /// What holds once the page `page` was read.
    pub open spec fn with_page(self, page: PageView) -> PagesView {
        PagesView { number: self.number, logs: self.logs + page.logs, after_log: page.next }
    }
}

impl PublicLogPages {
    /// No page of block `number` yet.
    pub fn new(number: BlockNumber) -> (r: Self)
        ensures
            r@ == no_pages(number),
    {
        let r = PublicLogPages { number, logs: Vec::new(), after_log: None };
        assert(r@.logs =~= Seq::empty());
        r
    }

    /// What is asked for the next page.
    pub fn params(&self) -> (r: Value)
        requires
            self@.number < i32::MAX,
        ensures
            r@ == Json::Array(seq![log_filter(self@.number as int, self@.after_log)]),
    {
        broadcast use lemma_json_items, lemma_json_members;

        let mut members = vec![
            ("fromBlock".to_owned(), int_value(self.number)),
            ("toBlock".to_owned(), int_value(self.number + 1)),
        ];
        match &self.after_log {
            Some(cursor) => members.push(("afterLog".to_owned(), cursor.clone())),
            None => {},
        }
        assert(json_members(members@) =~= log_filter(self@.number as int, self@.after_log)->Object_0);
        let items = vec![Value::Object(members)];
        assert(json_items(items@) =~= seq![log_filter(self@.number as int, self@.after_log)]);
        Value::Array(items)
    }

    /// Takes in the answer for the next page and says whether one more
    /// follows. A page that cannot be read changes nothing.
    pub fn accept(&mut self, response: &Value) -> (r: Result<bool, PageError>)
        ensures
            match r {
                Ok(more) => {
                    &&& page_of(response@) is Ok
                    &&& final(self)@ == old(self)@.with_page(page_of(response@)->Ok_0)
                    &&& more == (page_of(response@)->Ok_0.next is Some)
                },
                Err(e) => page_of(response@) == Err::<PageView, PageError>(e) && final(self)@ == old(
                    self,
                )@,
            },
    {
        match read_page(response) {
            Ok(page) => {
                let mut logs = page.logs;
                let more = page.next.is_some();
                self.logs.append(&mut logs);
                self.after_log = page.next;
                assert(self@.logs =~= old(self)@.logs + page@.logs);
                Ok(more)
            },
            Err(e) => Err(e),
        }
    }

    /// The block with the given header and the logs that were read.
    pub fn into_block(self, header: BlockHeader) -> (r: Block)
        ensures
            r@.header == Some(header@),
            r@.public_logs == self@.logs,
    {
        Block { header: Some(header), public_logs: self.logs }
    }
}

impl PagesView {
    /// What holds once all of `pages` were read, one by one.
    pub open spec fn with_pages(self, pages: Seq<PageView>) -> PagesView
        decreases pages.len(),
    {
        if pages.len() == 0 {
            self
        } else {
            self.with_pages(pages.drop_last()).with_page(pages.last())
        }
    }
}

/// The logs of a block are those of its pages, in order, with nothing between
/// them left out; and each page but the first is asked for with the cursor of
/// the last log of the page before it.
pub proof fn law_pages_join(number: BlockNumber, pages: Seq<PageView>)
    ensures
        ({
            let read = no_pages(number).with_pages(pages);
            &&& read.number == number
            &&& read.logs == pages.map_values(|page: PageView| page.logs).flatten()
            &&& read.after_log == (if pages.len() == 0 {
                None
            } else {
                pages.last().next
            })
        }),
    decreases pages.len(),
{
    let parts = pages.map_values(|page: PageView| page.logs);
    parts.lemma_flatten_and_flatten_alt_are_equivalent();
    if pages.len() == 0 {
        assert(parts.flatten() =~= Seq::empty());
    } else {
        let front = pages.drop_last();
        law_pages_join(number, front);
        let front_parts = front.map_values(|page: PageView| page.logs);
        front_parts.lemma_flatten_and_flatten_alt_are_equivalent();
        assert(parts.drop_last() =~= front_parts);
        assert(parts.last() == pages.last().logs);
    }
}

/// A page that says that more logs follow is not taken for the last one, and
/// the next page is asked for with the cursor of its last log; a page that
/// does not say so is the last one.
pub proof fn law_page_cursor(response: Json)
    requires
        page_of(response) is Ok,
    ensures
        more_follow(response) <==> page_of(response)->Ok_0.next is Some,
        more_follow(response) ==> page_items(response)->0.len() > 0 && page_of(response)->Ok_0.next
            == cursor_of(page_items(response)->0.last()),
{
}

/// A block on its way from the node: first its header is asked for, then its
/// logs, page by page.
#[derive(Debug)]
pub enum BlockFetch {
    /// The header of the block with this number is to be asked for.
    Header(BlockNumber),
    /// The header is there; the next page of logs is to be asked for.
    Logs(BlockHeader, PublicLogPages),
}

/// The mathematical model of a `BlockFetch`.
pub enum FetchView {
    Header(BlockNumber),
    Logs(HeaderView, PagesView),
}

impl View for BlockFetch {
    type V = FetchView;

    open spec fn view(&self) -> FetchView {
        match self {
            BlockFetch::Header(number) => FetchView::Header(*number),
            BlockFetch::Logs(header, pages) => FetchView::Logs(header@, pages@),
        }
    }
}

/// Why a block could not be had.
#[derive(Clone, Copy, Debug, PartialEq, Eq)]
pub enum FetchError {
    /// What the node gave for the header is none.
    Header(HeaderError),
    /// What the node gave for a page of logs is none.
    Page(PageError),
}

/// How a fetch stands after an answer.
#[derive(Debug)]
pub enum FetchStep {
    /// There is more to ask for.
    More(BlockFetch),
    /// The block is there.
    Done(Block),
}

/// The mathematical model of a `FetchStep`.
pub enum StepView {
    More(FetchView),
    Done(BlockView),
}

impl View for FetchStep {
    type V = StepView;

    open spec fn view(&self) -> StepView {
        match self {
            FetchStep::More(fetch) => StepView::More(fetch@),
            FetchStep::Done(block) => StepView::Done(block@),
        }
    }
}

impl FetchView {
    /// The call that is made next.
    pub open spec fn method(self) -> Seq<char> {
        match self {
            FetchView::Header(_) => GET_BLOCK@,
            FetchView::Logs(..) => GET_PUBLIC_LOGS@,
        }
    }

    /// What is asked with the call.
    pub open spec fn params(self) -> Json {
        match self {
            FetchView::Header(number) => Json::Array(seq![int_json(number as int)]),
            FetchView::Logs(_, pages) => Json::Array(
                seq![log_filter(pages.number as int, pages.after_log)],
            ),
        }
    }

    /// How the fetch stands after the answer `result`.
    pub open spec fn after(self, result: Json) -> Result<StepView, FetchError> {
        match self {
            FetchView::Header(number) => match block_header_of(result) {
                Ok(header) => Ok(StepView::More(FetchView::Logs(header, no_pages(number)))),
                Err(e) => Err(FetchError::Header(e)),
            },
            FetchView::Logs(header, pages) => match page_of(result) {
                Ok(page) => if page.next is Some {
                    Ok(StepView::More(FetchView::Logs(header, pages.with_page(page))))
                } else {
                    Ok(
                        StepView::Done(
                            BlockView {
                                header: Some(header),
                                public_logs: pages.with_page(page).logs,
                            },
                        ),
                    )
                },
                Err(e) => Err(FetchError::Page(e)),
            },
        }
    }

    /// How the fetch stands after the answers `results`, one by one. What comes
    /// after the block is there or after a failure makes no difference.
    pub open spec fn after_all(self, results: Seq<Json>) -> Result<StepView, FetchError>
        decreases results.len(),
    {
        if results.len() == 0 {
            Ok(StepView::More(self))
        } else {
            match self.after(results[0]) {
                Ok(StepView::More(next)) => next.after_all(results.skip(1)),
                end => end,
            }
        }
    }
}

impl BlockFetch {
    /// Nothing of block `number` is there yet.
    pub fn new(number: BlockNumber) -> (r: Self)
        ensures
            r@ == FetchView::Header(number),
    {
        BlockFetch::Header(number)
    }

    /// The call to make next.
    pub fn method(&self) -> (r: &'static str)
        ensures
            r@ == self@.method(),
    {
        match self {
            BlockFetch::Header(_) => GET_BLOCK,
            BlockFetch::Logs(..) => GET_PUBLIC_LOGS,
        }
    }

    /// What to ask with the call.
    pub fn params(&self) -> (r: Value)
        requires
            self@ matches FetchView::Logs(_, pages) ==> pages.number < i32::MAX,
        ensures
            r@ == self@.params(),
    {
        match self {
            BlockFetch::Header(number) => block_params(*number),
            BlockFetch::Logs(_, pages) => pages.params(),
        }
    }

    /// Takes in the result of the call.
    pub fn accept(self, result: &Value) -> (r: Result<FetchStep, FetchError>)
        ensures
            match r {
                Ok(step) => self@.after(result@) == Ok::<StepView, FetchError>(step@),
                Err(e) => self@.after(result@) == Err::<StepView, FetchError>(e),
            },
    {
        match self {
            BlockFetch::Header(number) => match parse_block_header(result) {
                Ok(header) => Ok(
                    FetchStep::More(BlockFetch::Logs(header, PublicLogPages::new(number))),
                ),
                Err(e) => Err(FetchError::Header(e)),
            },
            BlockFetch::Logs(header, pages) => {
                let mut pages = pages;
                match pages.accept(result) {
                    Ok(true) => Ok(FetchStep::More(BlockFetch::Logs(header, pages))),
                    Ok(false) => Ok(FetchStep::Done(pages.into_block(header))),
                    Err(e) => Err(FetchError::Page(e)),
                }
            },
        }
    }
}

proof fn lemma_logs_fetched(header: HeaderView, read: PagesView, results: Seq<Json>, pages: Seq<PageView>)
    requires
        results.len() == pages.len(),
        pages.len() > 0,
        forall|i: int| 0 <= i < pages.len() ==> page_of(#[trigger] results[i]) == Ok::<PageView, PageError>(
            pages[i],
        ),
        forall|i: int| 0 <= i < pages.len() - 1 ==> (#[trigger] pages[i]).next is Some,
        pages.last().next is None,
    ensures
        FetchView::Logs(header, read).after_all(results) == Ok::<StepView, FetchError>(
            StepView::Done(
                BlockView {
                    header: Some(header),
                    public_logs: read.logs + pages.map_values(|page: PageView| page.logs).flatten(),
                },
            ),
        ),
    decreases pages.len(),
{
    let parts = pages.map_values(|page: PageView| page.logs);
    let next = read.with_page(pages[0]);
    assert(page_of(results[0]) == Ok::<PageView, PageError>(pages[0]));
    let rest = pages.skip(1);
    let rest_parts = rest.map_values(|page: PageView| page.logs);
    assert(parts.drop_first() =~= rest_parts);
    assert(parts.flatten() == pages[0].logs + rest_parts.flatten());
    if pages.len() == 1 {
        assert(rest_parts.flatten() =~= Seq::empty());
        assert(next.logs =~= read.logs + parts.flatten());
    } else {
        assert forall|i: int| 0 <= i < rest.len() implies page_of(#[trigger] results.skip(1)[i]) == Ok::<
            PageView,
            PageError,
        >(rest[i]) by {
            assert(results.skip(1)[i] == results[i + 1]);
        }
        assert forall|i: int| 0 <= i < rest.len() - 1 implies (#[trigger] rest[i]).next is Some by {
            assert(rest[i] == pages[i + 1]);
        }
        assert(pages[0].next is Some);
        lemma_logs_fetched(header, next, results.skip(1), rest);
        assert(next.logs + rest_parts.flatten() =~= read.logs + parts.flatten());
    }
}

/// A block that the node has is fetched whole: where the node gives its header
/// and then its pages of logs, each but the last saying that more follow, the
/// block comes with that header and with the logs of all the pages, in order.
pub proof fn law_block_fetched(
    number: BlockNumber,
    header: HeaderView,
    results: Seq<Json>,
    pages: Seq<PageView>,
)
    requires
        results.len() == pages.len() + 1,
        pages.len() > 0,
        block_header_of(results[0]) == Ok::<HeaderView, HeaderError>(header),
        forall|i: int|
            0 <= i < pages.len() ==> page_of(#[trigger] results.skip(1)[i]) == Ok::<PageView, PageError>(
                pages[i],
            ),
        forall|i: int| 0 <= i < pages.len() - 1 ==> (#[trigger] pages[i]).next is Some,
        pages.last().next is None,
    ensures
        FetchView::Header(number).after_all(results) == Ok::<StepView, FetchError>(
            StepView::Done(
                BlockView {
                    header: Some(header),
                    public_logs: pages.map_values(|page: PageView| page.logs).flatten(),
                },
            ),
        ),
{
    lemma_logs_fetched(header, no_pages(number), results.skip(1), pages);
    let logs = pages.map_values(|page: PageView| page.logs).flatten();
    assert(no_pages(number).logs + logs =~= logs);
}

/// What the chain is known by.
#[derive(Debug)]
pub struct ChainIdentifier {
    pub net_version: String,
    pub genesis_block_hash: BlockHash,
}

/// The hash that the chain is known by, given its first block.
pub open spec fn genesis_hash(genesis: Option<PtrView>) -> Seq<u8> {
    match genesis {
        Some(ptr) => ptr.hash,
        None => zeros(32),
    }
}

/// The chain is known by the hash of its first block, whatever that is, and by
/// 32 zeros where there is none.
pub proof fn law_genesis_hash(ptr: PtrView, i: int)
    ensures
        genesis_hash(Some(ptr)) == ptr.hash,
        genesis_hash(None).len() == 32,
        0 <= i < 32 ==> genesis_hash(None)[i] == 0,
{
}

/// An answer with an error, whatever it is and whatever result stands beside
/// it, gives that error. One without gives its result, whatever that is, and
/// nothing where it has neither.
pub proof fn law_reply(response: Json, x: Json)
    ensures
        response.get("error"@) == Some(x) <==> reply_of(response) == Err::<Json, Option<Json>>(Some(x)),
        response.get("error"@) is None && response.get("result"@) == Some(x) <==> reply_of(response)
            == Ok::<Json, Option<Json>>(x),
        response.get("error"@) is None && response.get("result"@) is None <==> reply_of(response)
            == Err::<Json, Option<Json>>(None),
{
}

/// What the chain is known by: its name, and the hash of its first block,
/// which is all zeros where that block could not be had.
pub fn chain_identifier<E>(genesis: Result<BlockPtr, E>) -> (r: ChainIdentifier)
    ensures
        r.net_version@ == "aztec"@,
        r.genesis_block_hash@ == (match genesis {
            Ok(ptr) => ptr@.hash,
            Err(_) => zeros(32),
        }),
        r.genesis_block_hash@ == genesis_hash(
            match genesis {
                Ok(ptr) => Some(ptr@),
                Err(_) => None,
            },
        ),
{
    let genesis_block_hash = match genesis {
        Ok(ptr) => ptr.hash,
        Err(_) => BlockHash::zero(),
    };
    ChainIdentifier { net_version: "aztec".to_owned(), genesis_block_hash }
}

/// The path to the member `name`.
pub open spec fn here(name: Seq<char>) -> Seq<Seq<char>> {
    seq![name]
}

/// The path to the member `name` of the member `outer`.
pub open spec fn within(outer: Seq<char>, name: Seq<char>) -> Seq<Seq<char>> {
    seq![outer, name]
}

/// The path to the member `name` of the member `inner` of the member `outer`.
pub open spec fn deep(outer: Seq<char>, inner: Seq<char>, name: Seq<char>) -> Seq<Seq<char>> {
    seq![outer, inner, name]
}

/// The member `log` of what the node gives for a log, or all of it without one.
pub open spec fn logged(value: Json) -> Json {
    match value.get("log"@) {
        Some(log) => log,
        None => value,
    }
}

/// The member `id` of what the node gives for a log, or all of it without one.
pub open spec fn identified(value: Json) -> Json {
    match value.get("id"@) {
        Some(id) => id,
        None => value,
    }
}

/// The number of a block is the integer at the first of these places where one
/// stands. Without one the block is refused for it.
pub proof fn law_header_number(value: Json, places: Seq<Seq<Seq<char>>>, k: int, x: i64)
    requires
        places == seq![
            here("number"@),
            here("blockNumber"@),
            within("header"@, "number"@),
            deep("header"@, "globalVariables"@, "blockNumber"@),
            deep("header"@, "globalVariables"@, "block_number"@),
        ],
        0 <= k <= 5,
        forall|j: int, y: i64| 0 <= j < k ==> !#[trigger] integer_stands(value, places[j], y),
    ensures
        k < 5 && integer_stands(value, places[k], x) ==> block_header_of(value) != Err::<HeaderView, HeaderError>(
            HeaderError::MissingNumber,
        ) && (block_header_of(value) matches Ok(header) ==> header.number == x),
        k == 5 ==> block_header_of(value) == Err::<HeaderView, HeaderError>(HeaderError::MissingNumber),
{
    law_first_integer(value, places, k, x);
    assert(places =~= number_paths());
}

/// The hash of a block, of which the number is there, is the bytes at the first
/// of these places where some stand. Without them the block is refused; with
/// them it is read.
pub proof fn law_header_hash(value: Json, places: Seq<Seq<Seq<char>>>, k: int, x: Seq<u8>)
    requires
        places == seq![
            here("hash"@),
            here("blockHash"@),
            within("header"@, "hash"@),
            within("header"@, "blockHash"@),
        ],
        0 <= k <= 4,
        forall|j: int, y: Seq<u8>| 0 <= j < k ==> !#[trigger] bytes_stand(value, places[j], y),
        block_header_of(value) != Err::<HeaderView, HeaderError>(HeaderError::MissingNumber),
    ensures
        k < 4 && bytes_stand(value, places[k], x) ==> block_header_of(value) is Ok && block_header_of(value)->Ok_0.hash == x,
        k == 4 ==> block_header_of(value) == Err::<HeaderView, HeaderError>(HeaderError::MissingHash),
{
    law_first_bytes(value, places, k, x);
    assert(places =~= hash_paths());
}

/// The parent hash of a block is the bytes at the first of these places where
/// some stand, whatever else is given. Without them it is empty.
pub proof fn law_header_parent_hash(value: Json, places: Seq<Seq<Seq<char>>>, k: int, x: Seq<u8>)
    requires
        places == seq![
            here("parentHash"@),
            here("previousBlockHash"@),
            within("header"@, "parentHash"@),
            within("header"@, "previousBlockHash"@),
        ],
        0 <= k <= 4,
        forall|j: int, y: Seq<u8>| 0 <= j < k ==> !#[trigger] bytes_stand(value, places[j], y),
        block_header_of(value) is Ok,
    ensures
        k < 4 && bytes_stand(value, places[k], x) ==> block_header_of(value)->Ok_0.parent_hash == x,
        k == 4 ==> block_header_of(value)->Ok_0.parent_hash.len() == 0,
{
    law_first_bytes(value, places, k, x);
    assert(places =~= parent_hash_paths());
}

/// The time of a block is the integer at the first of these places where one
/// stands. Without one it is zero.
pub proof fn law_header_timestamp(value: Json, places: Seq<Seq<Seq<char>>>, k: int, x: i64)
    requires
        places == seq![
            here("timestamp"@),
            within("header"@, "timestamp"@),
            deep("header"@, "globalVariables"@, "timestamp"@),
        ],
        0 <= k <= 3,
        forall|j: int, y: i64| 0 <= j < k ==> !#[trigger] integer_stands(value, places[j], y),
        block_header_of(value) is Ok,
    ensures
        k < 3 && integer_stands(value, places[k], x) ==> block_header_of(value)->Ok_0.timestamp == x,
        k == 3 ==> block_header_of(value)->Ok_0.timestamp == 0,
{
    law_first_integer(value, places, k, x);
    assert(places =~= timestamp_paths());
}

/// The number of the last final block is the integer at the first of these
/// places where one stands. Without one it is zero.
pub proof fn law_header_final_number(value: Json, places: Seq<Seq<Seq<char>>>, k: int, x: i64)
    requires
        places == seq![
            here("finalBlockNumber"@),
            here("finalizedBlockNumber"@),
            within("header"@, "lastFinalBlockHeight"@),
            within("header"@, "finalBlockNumber"@),
        ],
        0 <= k <= 4,
        forall|j: int, y: i64| 0 <= j < k ==> !#[trigger] integer_stands(value, places[j], y),
        block_header_of(value) is Ok,
    ensures
        k < 4 && integer_stands(value, places[k], x) ==> block_header_of(value)->Ok_0.final_block_number == x,
        k == 4 ==> block_header_of(value)->Ok_0.final_block_number == 0,
{
    law_first_integer(value, places, k, x);
    assert(places =~= final_number_paths());
}

/// The contract of a log, whose fields are all bytes, is the bytes at the first
/// of these places in what was logged where some stand. Without them the log is
/// refused; with them it is read.
pub proof fn law_log_address(value: Json, places: Seq<Seq<Seq<char>>>, k: int, x: Seq<u8>)
    requires
        places == seq![
            here("contractAddress"@),
            here("contract_address"@),
            here("address"@),
            within("log"@, "contractAddress"@),
        ],
        0 <= k <= 4,
        forall|j: int, y: Seq<u8>| 0 <= j < k ==> !#[trigger] bytes_stand(logged(value), places[j], y),
        !(public_log_of(value) matches Err(PublicLogError::MissingFields)),
        !(public_log_of(value) matches Err(PublicLogError::Field { .. })),
    ensures
        k < 4 && bytes_stand(logged(value), places[k], x) ==> public_log_of(value) is Ok && public_log_of(value)->Ok_0.contract_address == x,
        k == 4 ==> public_log_of(value) == Err::<LogView, PublicLogError>(PublicLogError::MissingContractAddress),
{
    law_first_bytes(logged(value), places, k, x);
    assert(places =~= address_paths());
}

/// The transaction of a log is the bytes at the first of these places in what
/// identifies it where some stand. Without them it is empty.
pub proof fn law_log_transaction(value: Json, places: Seq<Seq<Seq<char>>>, k: int, x: Seq<u8>)
    requires
        places == seq![
            here("txHash"@),
            here("transactionHash"@),
            within("id"@, "txHash"@),
            within("logId"@, "txHash"@),
        ],
        0 <= k <= 4,
        forall|j: int, y: Seq<u8>| 0 <= j < k ==> !#[trigger] bytes_stand(identified(value), places[j], y),
        public_log_of(value) is Ok,
    ensures
        k < 4 && bytes_stand(identified(value), places[k], x) ==> public_log_of(value)->Ok_0.tx_hash == x,
        k == 4 ==> public_log_of(value)->Ok_0.tx_hash.len() == 0,
{
    law_first_bytes(identified(value), places, k, x);
    assert(places =~= tx_hash_paths());
}

/// The index of a log is the integer at the first of these places in what
/// identifies it where one stands, if it is in the range of indexes. Else it is
/// zero, and so it is without one.
pub proof fn law_log_index(value: Json, places: Seq<Seq<Seq<char>>>, k: int, x: i64)
    requires
        places == seq![
            here("logIndex"@),
            here("index"@),
            within("id"@, "logIndex"@),
        ],
        0 <= k <= 3,
        forall|j: int, y: i64| 0 <= j < k ==> !#[trigger] integer_stands(identified(value), places[j], y),
        public_log_of(value) is Ok,
    ensures
        k < 3 && integer_stands(identified(value), places[k], x) ==> public_log_of(value)->Ok_0.log_index == (if 0 <= x <= u32::MAX {
            x as int
        } else {
            0
        }),
        k == 3 ==> public_log_of(value)->Ok_0.log_index == 0,
{
    law_first_integer(identified(value), places, k, x);
    assert(places =~= log_index_paths());
}

/// The tag of a log is the bytes in the member `tag` of what was logged, where
/// that stands for bytes, whatever the fields are. Else it is the first field,
/// and empty without fields.
pub proof fn law_log_tag(value: Json, b: Seq<u8>)
    requires
        public_log_of(value) is Ok,
    ensures
        ({
            let log = public_log_of(value)->Ok_0;
            let given = logged(value).get("tag"@);
            &&& given is Some && bytes_of(given->0) == Ok::<Seq<u8>, BytesError>(b) ==> log.tag == b
            &&& (given is None || bytes_of(given->0) is Err) && log.fields.len() > 0 ==> log.tag
                == log.fields[0]
            &&& (given is None || bytes_of(given->0) is Err) && log.fields.len() == 0 ==> log.tag.len()
                == 0
        }),
{
    let source = logged(value);
    let places = seq![seq!["tag"@]];
    law_path_of_one(source, "tag"@);
    assert(places =~= tag_paths());
    let given = source.get("tag"@);
    if given is Some && bytes_of(given->0) is Ok {
        law_first_bytes(source, places, 0, bytes_of(given->0)->Ok_0);
        assert(bytes_stand(source, places[0], bytes_of(given->0)->Ok_0));
    } else {
        assert forall|j: int, y: Seq<u8>| 0 <= j < 1 implies !#[trigger] bytes_stand(source, places[j], y) by {}
        law_first_bytes(source, places, 1, b);
    }
}

proof fn lemma_field_count(items: Seq<Json>, k: int)
    requires
        0 <= k <= items.len(),
        forall|j: int| 0 <= j < k ==> bytes_of(#[trigger] items[j]) is Ok,
        k < items.len() ==> bytes_of(items[k]) is Err,
    ensures
        field_count(items) == k,
    decreases k,
{
    if k > 0 {
        let rest = items.skip(1);
        assert(bytes_of(items[0]) is Ok);
        assert forall|j: int| 0 <= j < k - 1 implies bytes_of(#[trigger] rest[j]) is Ok by {
            assert(rest[j] == items[j + 1]);
        }
        lemma_field_count(rest, k - 1);
    }
}

/// The fields of a log are the items of the array in the member `fields` of
/// what was logged or, where that is no array, in the member `fields` of its
/// own member `log`: each as the bytes that it stands for, all of them, in
/// order. A log without such an array is refused, and so is one at its first
/// field that stands for no bytes, here that at `k`.
pub proof fn law_log_fields(value: Json, items: Seq<Json>, k: int)
    requires
        0 <= k <= items.len() <= usize::MAX,
        forall|j: int| 0 <= j < k ==> bytes_of(#[trigger] items[j]) is Ok,
    ensures
        ({
            let source = logged(value);
            let near = source.get("fields"@);
            let far = match source.get("log"@) {
                Some(inner) => inner.get("fields"@),
                None => None,
            };
            let found = near == Some(Json::Array(items)) || (!(near matches Some(Json::Array(_))) && far
                == Some(Json::Array(items)));
            &&& found && k == items.len() ==> !(public_log_of(value) matches Err(
                PublicLogError::MissingFields,
            )) && !(public_log_of(value) matches Err(PublicLogError::Field { .. })) && (public_log_of(
                value,
            ) matches Ok(log) ==> log.fields.len() == items.len() && forall|j: int|
                0 <= j < items.len() ==> bytes_of(items[j]) == Ok::<Seq<u8>, BytesError>(
                    #[trigger] log.fields[j],
                ))
            &&& found && k < items.len() && bytes_of(items[k]) is Err ==> public_log_of(value) == Err::<
                LogView,
                PublicLogError,
            >(PublicLogError::Field { index: k as usize, cause: bytes_of(items[k])->Err_0 })
            &&& !(near matches Some(Json::Array(_))) && !(far matches Some(Json::Array(_)))
                ==> public_log_of(value) == Err::<LogView, PublicLogError>(PublicLogError::MissingFields)
        }),
{
    let source = logged(value);
    let near = source.get("fields"@);
    let far = match source.get("log"@) {
        Some(inner) => inner.get("fields"@),
        None => None,
    };
    let places = seq![seq!["fields"@], seq!["log"@, "fields"@]];
    assert(places =~= fields_paths());
    law_path_of_one(source, "fields"@);
    law_path_of_one(source, "log"@);
    law_paths_join(source, seq!["log"@], seq!["fields"@]);
    assert(seq!["log"@] + seq!["fields"@] =~= places[1]);
    if let Some(inner) = source.get("log"@) {
        law_path_of_one(inner, "fields"@);
    }
    assert(at_path(source, places[0]) == near);
    assert(at_path(source, places[1]) == far);
    if near == Some(Json::Array(items)) {
        law_first_array(source, places, 0, items);
        assert(array_stands(source, places[0], items));
    } else if !(near matches Some(Json::Array(_))) {
        assert forall|j: int, other: Seq<Json>| 0 <= j < 1 implies !#[trigger] array_stands(
            source,
            places[j],
            other,
        ) by {}
        law_first_array(source, places, 1, items);
        if far == Some(Json::Array(items)) {
            assert(array_stands(source, places[1], items));
        } else if !(far matches Some(Json::Array(_))) {
            assert forall|j: int, other: Seq<Json>| 0 <= j < 2 implies !#[trigger] array_stands(
                source,
                places[j],
                other,
            ) by {}
            law_first_array(source, places, 2, items);
        }
    }
    if k == items.len() || bytes_of(items[k]) is Err {
        lemma_field_count(items, k);
    }
}

proof fn lemma_header_names_apart()
    ensures
        "number"@ != "hash"@,
        "number"@ != "parentHash"@,
        "number"@ != "previousBlockHash"@,
        "number"@ != "timestamp"@,
        "number"@ != "finalBlockNumber"@,
        "number"@ != "blockNumber"@,
        "number"@ != "blockHash"@,
        "number"@ != "header"@,
        "number"@ != "finalizedBlockNumber"@,
        "hash"@ != "parentHash"@,
        "hash"@ != "previousBlockHash"@,
        "hash"@ != "timestamp"@,
        "hash"@ != "finalBlockNumber"@,
        "hash"@ != "blockNumber"@,
        "hash"@ != "blockHash"@,
        "hash"@ != "header"@,
        "hash"@ != "finalizedBlockNumber"@,
        "parentHash"@ != "previousBlockHash"@,
        "parentHash"@ != "timestamp"@,
        "parentHash"@ != "finalBlockNumber"@,
        "parentHash"@ != "blockNumber"@,
        "parentHash"@ != "blockHash"@,
        "parentHash"@ != "header"@,
        "parentHash"@ != "finalizedBlockNumber"@,
        "previousBlockHash"@ != "timestamp"@,
        "previousBlockHash"@ != "finalBlockNumber"@,
        "previousBlockHash"@ != "blockNumber"@,
        "previousBlockHash"@ != "blockHash"@,
        "previousBlockHash"@ != "header"@,
        "previousBlockHash"@ != "finalizedBlockNumber"@,
        "timestamp"@ != "finalBlockNumber"@,
        "timestamp"@ != "blockNumber"@,
        "timestamp"@ != "blockHash"@,
        "timestamp"@ != "header"@,
        "timestamp"@ != "finalizedBlockNumber"@,
        "finalBlockNumber"@ != "blockNumber"@,
        "finalBlockNumber"@ != "blockHash"@,
        "finalBlockNumber"@ != "header"@,
        "finalBlockNumber"@ != "finalizedBlockNumber"@,
        "blockNumber"@ != "blockHash"@,
        "blockNumber"@ != "header"@,
        "blockNumber"@ != "finalizedBlockNumber"@,
        "blockHash"@ != "header"@,
        "blockHash"@ != "finalizedBlockNumber"@,
        "header"@ != "finalizedBlockNumber"@,
{
    reveal_strlit("number");
    reveal_strlit("hash");
    reveal_strlit("parentHash");
    reveal_strlit("previousBlockHash");
    reveal_strlit("timestamp");
    reveal_strlit("finalBlockNumber");
    reveal_strlit("blockNumber");
    reveal_strlit("blockHash");
    reveal_strlit("header");
    reveal_strlit("finalizedBlockNumber");
    assert("number"@.len() != "hash"@.len());
    assert("number"@.len() != "parentHash"@.len());
    assert("number"@.len() != "previousBlockHash"@.len());
    assert("number"@.len() != "timestamp"@.len());
    assert("number"@.len() != "finalBlockNumber"@.len());
    assert("number"@.len() != "blockNumber"@.len());
    assert("number"@.len() != "blockHash"@.len());
    assert("number"@[0] != "header"@[0]);
    assert("number"@.len() != "finalizedBlockNumber"@.len());
    assert("hash"@.len() != "parentHash"@.len());
    assert("hash"@.len() != "previousBlockHash"@.len());
    assert("hash"@.len() != "timestamp"@.len());
    assert("hash"@.len() != "finalBlockNumber"@.len());
    assert("hash"@.len() != "blockNumber"@.len());
    assert("hash"@.len() != "blockHash"@.len());
    assert("hash"@.len() != "header"@.len());
    assert("hash"@.len() != "finalizedBlockNumber"@.len());
    assert("parentHash"@.len() != "previousBlockHash"@.len());
    assert("parentHash"@.len() != "timestamp"@.len());
    assert("parentHash"@.len() != "finalBlockNumber"@.len());
    assert("parentHash"@.len() != "blockNumber"@.len());
    assert("parentHash"@.len() != "blockHash"@.len());
    assert("parentHash"@.len() != "header"@.len());
    assert("parentHash"@.len() != "finalizedBlockNumber"@.len());
    assert("previousBlockHash"@.len() != "timestamp"@.len());
    assert("previousBlockHash"@.len() != "finalBlockNumber"@.len());
    assert("previousBlockHash"@.len() != "blockNumber"@.len());
    assert("previousBlockHash"@.len() != "blockHash"@.len());
    assert("previousBlockHash"@.len() != "header"@.len());
    assert("previousBlockHash"@.len() != "finalizedBlockNumber"@.len());
    assert("timestamp"@.len() != "finalBlockNumber"@.len());
    assert("timestamp"@.len() != "blockNumber"@.len());
    assert("timestamp"@[0] != "blockHash"@[0]);
    assert("timestamp"@.len() != "header"@.len());
    assert("timestamp"@.len() != "finalizedBlockNumber"@.len());
    assert("finalBlockNumber"@.len() != "blockNumber"@.len());
    assert("finalBlockNumber"@.len() != "blockHash"@.len());
    assert("finalBlockNumber"@.len() != "header"@.len());
    assert("finalBlockNumber"@.len() != "finalizedBlockNumber"@.len());
    assert("blockNumber"@.len() != "blockHash"@.len());
    assert("blockNumber"@.len() != "header"@.len());
    assert("blockNumber"@.len() != "finalizedBlockNumber"@.len());
    assert("blockHash"@.len() != "header"@.len());
    assert("blockHash"@.len() != "finalizedBlockNumber"@.len());
    assert("header"@.len() != "finalizedBlockNumber"@.len());
}

proof fn lemma_log_names_apart()
    ensures
        "id"@ != "log"@,
        "id"@ != "txHash"@,
        "id"@ != "logIndex"@,
        "id"@ != "contractAddress"@,
        "id"@ != "tag"@,
        "id"@ != "fields"@,
        "log"@ != "txHash"@,
        "log"@ != "logIndex"@,
        "log"@ != "contractAddress"@,
        "log"@ != "tag"@,
        "log"@ != "fields"@,
        "txHash"@ != "logIndex"@,
        "txHash"@ != "contractAddress"@,
        "txHash"@ != "tag"@,
        "txHash"@ != "fields"@,
        "logIndex"@ != "contractAddress"@,
        "logIndex"@ != "tag"@,
        "logIndex"@ != "fields"@,
        "contractAddress"@ != "tag"@,
        "contractAddress"@ != "fields"@,
        "tag"@ != "fields"@,
{
    reveal_strlit("id");
    reveal_strlit("log");
    reveal_strlit("txHash");
    reveal_strlit("logIndex");
    reveal_strlit("contractAddress");
    reveal_strlit("tag");
    reveal_strlit("fields");
    assert("id"@.len() != "log"@.len());
    assert("id"@.len() != "txHash"@.len());
    assert("id"@.len() != "logIndex"@.len());
    assert("id"@.len() != "contractAddress"@.len());
    assert("id"@.len() != "tag"@.len());
    assert("id"@.len() != "fields"@.len());
    assert("log"@.len() != "txHash"@.len());
    assert("log"@.len() != "logIndex"@.len());
    assert("log"@.len() != "contractAddress"@.len());
    assert("log"@[0] != "tag"@[0]);
    assert("log"@.len() != "fields"@.len());
    assert("txHash"@.len() != "logIndex"@.len());
    assert("txHash"@.len() != "contractAddress"@.len());
    assert("txHash"@.len() != "tag"@.len());
    assert("txHash"@[0] != "fields"@[0]);
    assert("logIndex"@.len() != "contractAddress"@.len());
    assert("logIndex"@.len() != "tag"@.len());
    assert("logIndex"@.len() != "fields"@.len());
    assert("contractAddress"@.len() != "tag"@.len());
    assert("contractAddress"@.len() != "fields"@.len());
    assert("tag"@.len() != "fields"@.len());
}

/// Bytes as the node writes them.
pub open spec fn hex_json(bytes: Seq<u8>) -> Json {
    Json::Text("0x"@ + hex_text(bytes))
}

/// The members of a header as the node writes them, with the hash of the parent
/// under `parent`.
pub open spec fn header_members(header: HeaderView, parent: Seq<char>) -> Seq<(Seq<char>, Json)> {
    seq![
        ("number"@, int_json(header.number as int)),
        ("hash"@, hex_json(header.hash)),
        (parent, hex_json(header.parent_hash)),
        ("timestamp"@, int_json(header.timestamp as int)),
        ("finalBlockNumber"@, int_json(header.final_block_number as int)),
    ]
}

proof fn lemma_header_members(header: HeaderView, parent: Seq<char>)
    requires
        parent == "parentHash"@ || parent == "previousBlockHash"@,
    ensures
        ({
            let value = Json::Object(header_members(header, parent));
            &&& value.get("number"@) == Some(int_json(header.number as int))
            &&& value.get("hash"@) == Some(hex_json(header.hash))
            &&& value.get(parent) == Some(hex_json(header.parent_hash))
            &&& value.get("timestamp"@) == Some(int_json(header.timestamp as int))
            &&& value.get("finalBlockNumber"@) == Some(int_json(header.final_block_number as int))
            &&& parent != "parentHash"@ ==> value.get("parentHash"@) is None
            &&& i64_of(int_json(header.number as int)) == Some(header.number)
            &&& i64_of(int_json(header.timestamp as int)) == Some(header.timestamp)
            &&& i64_of(int_json(header.final_block_number as int)) == Some(header.final_block_number)
            &&& bytes_of(hex_json(header.hash)) == Ok::<Seq<u8>, BytesError>(header.hash)
            &&& bytes_of(hex_json(header.parent_hash)) == Ok::<Seq<u8>, BytesError>(header.parent_hash)
        }),
{
    lemma_header_names_apart();
    let members = header_members(header, parent);
    law_first_member(members, "number"@, 0);
    law_first_member(members, "hash"@, 1);
    law_first_member(members, parent, 2);
    law_first_member(members, "timestamp"@, 3);
    law_first_member(members, "finalBlockNumber"@, 4);
    if parent != "parentHash"@ {
        law_no_member(Json::Object(members), "parentHash"@);
    }
    law_hex_read_back(header.hash, "0x"@ + hex_text(header.hash));
    law_hex_read_back(header.parent_hash, "0x"@ + hex_text(header.parent_hash));
}

/// A header that the node writes out is read back, whether its members stand in
/// the block itself or in the block's `header`, and by either name of the
/// parent's hash.
pub proof fn law_header_read_back(header: HeaderView, parent: Seq<char>)
    requires
        parent == "parentHash"@ || parent == "previousBlockHash"@,
    ensures
        block_header_of(Json::Object(header_members(header, parent))) == Ok::<HeaderView, HeaderError>(
            header,
        ),
        block_header_of(
            Json::Object(seq![("header"@, Json::Object(header_members(header, parent)))]),
        ) == Ok::<HeaderView, HeaderError>(header),
{
    lemma_header_names_apart();
    lemma_header_members(header, parent);
    let flat = Json::Object(header_members(header, parent));
    let block = Json::Object(seq![("header"@, flat)]);
    law_first_member(seq![("header"@, flat)], "header"@, 0);
    lemma_read_at(flat, seq!["number"@], flat, "number"@);
    lemma_read_at(flat, seq!["hash"@], flat, "hash"@);
    lemma_read_at(flat, seq!["parentHash"@], flat, "parentHash"@);
    lemma_read_at(flat, seq!["previousBlockHash"@], flat, "previousBlockHash"@);
    lemma_read_at(flat, seq!["timestamp"@], flat, "timestamp"@);
    lemma_read_at(flat, seq!["finalBlockNumber"@], flat, "finalBlockNumber"@);
    let parent_at = if parent == "parentHash"@ {
        0int
    } else {
        1
    };
    lemma_header_found(flat, header, 0, parent_at, 0, 0, 0);
    let names = seq![
        "number"@,
        "blockNumber"@,
        "hash"@,
        "blockHash"@,
        "parentHash"@,
        "previousBlockHash"@,
        "timestamp"@,
        "finalBlockNumber"@,
        "finalizedBlockNumber"@,
    ];
    assert forall|i: int| 0 <= i < names.len() implies block.get(#[trigger] names[i]) is None && at_path(
        block,
        seq![names[i]],
    ) is None by {
        law_no_member(block, names[i]);
        law_path_of_one(block, names[i]);
    }
    assert(block.get(names[0]) is None && block.get(names[1]) is None && block.get(names[2]) is None
        && block.get(names[3]) is None && block.get(names[4]) is None && block.get(names[5]) is None
        && block.get(names[6]) is None && block.get(names[7]) is None && block.get(names[8]) is None);
    lemma_read_at(block, seq!["header"@, "number"@], flat, "number"@);
    lemma_read_at(block, seq!["header"@, "hash"@], flat, "hash"@);
    lemma_read_at(block, seq!["header"@, "parentHash"@], flat, "parentHash"@);
    lemma_read_at(block, seq!["header"@, "previousBlockHash"@], flat, "previousBlockHash"@);
    lemma_read_at(block, seq!["header"@, "timestamp"@], flat, "timestamp"@);
    lemma_read_at(block, seq!["header"@, "finalBlockNumber"@], flat, "finalBlockNumber"@);
    lemma_read_at(block, seq!["header"@, "lastFinalBlockHeight"@], flat, "lastFinalBlockHeight"@);
    reveal_strlit("lastFinalBlockHeight");
    lemma_last_final_absent(header, parent);
    lemma_header_found(block, header, 2, parent_at + 2, 2, 1, 3);
}

proof fn lemma_last_final_absent(header: HeaderView, parent: Seq<char>)
    requires
        parent == "parentHash"@ || parent == "previousBlockHash"@,
    ensures
        Json::Object(header_members(header, parent)).get("lastFinalBlockHeight"@) is None,
{
    reveal_strlit("lastFinalBlockHeight");
    reveal_strlit("number");
    reveal_strlit("hash");
    reveal_strlit("parentHash");
    reveal_strlit("previousBlockHash");
    reveal_strlit("timestamp");
    reveal_strlit("finalBlockNumber");
    let members = header_members(header, parent);
    assert forall|j: int| 0 <= j < members.len() implies (#[trigger] members[j]).0
        != "lastFinalBlockHeight"@ by {
        assert(members[j].0.len() < 20);
    }
    law_no_member(Json::Object(members), "lastFinalBlockHeight"@);
}

proof fn lemma_read_at(value: Json, path: Seq<Seq<char>>, inner: Json, name: Seq<char>)
    requires
        path == seq![name] && value == inner || path == seq!["header"@, name] && value.get("header"@)
            == Some(inner),
    ensures
        at_path(value, path) == inner.get(name),
{
    law_path_of_one(inner, name);
    if path.len() == 2 {
        law_path_of_one(value, "header"@);
        law_paths_join(value, seq!["header"@], seq![name]);
        assert(seq!["header"@] + seq![name] =~= path);
    }
}

proof fn lemma_header_found(value: Json, header: HeaderView, n: int, p: int, h: int, t: int, f: int)
    requires
        0 <= n < 5,
        0 <= p < 4,
        0 <= h < 4,
        0 <= t < 3,
        0 <= f < 4,
        integer_stands(value, number_paths()[n], header.number),
        bytes_stand(value, hash_paths()[h], header.hash),
        bytes_stand(value, parent_hash_paths()[p], header.parent_hash),
        integer_stands(value, timestamp_paths()[t], header.timestamp),
        integer_stands(value, final_number_paths()[f], header.final_block_number),
        forall|j: int| 0 <= j < n ==> at_path(value, #[trigger] number_paths()[j]) is None,
        forall|j: int| 0 <= j < h ==> at_path(value, #[trigger] hash_paths()[j]) is None,
        forall|j: int| 0 <= j < p ==> at_path(value, #[trigger] parent_hash_paths()[j]) is None,
        forall|j: int| 0 <= j < t ==> at_path(value, #[trigger] timestamp_paths()[j]) is None,
        forall|j: int| 0 <= j < f ==> at_path(value, #[trigger] final_number_paths()[j]) is None,
    ensures
        block_header_of(value) == Ok::<HeaderView, HeaderError>(header),
{
    law_header_number(value, number_paths(), n, header.number);
    law_header_hash(value, hash_paths(), h, header.hash);
    law_header_parent_hash(value, parent_hash_paths(), p, header.parent_hash);
    law_header_timestamp(value, timestamp_paths(), t, header.timestamp);
    law_header_final_number(value, final_number_paths(), f, header.final_block_number);
}

/// What was logged, as the node writes it.
pub open spec fn logged_members(log: LogView) -> Seq<(Seq<char>, Json)> {
    seq![
        ("contractAddress"@, hex_json(log.contract_address)),
        ("tag"@, hex_json(log.tag)),
        ("fields"@, Json::Array(log.fields.map_values(|field: Seq<u8>| hex_json(field)))),
    ]
}

/// What identifies a log, as the node writes it.
pub open spec fn id_members(log: LogView) -> Seq<(Seq<char>, Json)> {
    seq![("txHash"@, hex_json(log.tx_hash)), ("logIndex"@, Json::PosInt(log.log_index as u64))]
}

/// A log that the node writes out with a tag is read back, whether what was
/// logged and what identifies it stand in members `log` and `id` or all
/// together.
pub proof fn law_log_read_back(log: LogView)
    requires
        log.fields.len() <= usize::MAX,
    ensures
        public_log_of(
            Json::Object(
                seq![
                    ("id"@, Json::Object(id_members(log))),
                    ("log"@, Json::Object(logged_members(log))),
                ],
            ),
        ) == Ok::<LogView, PublicLogError>(log),
        public_log_of(Json::Object(logged_members(log) + id_members(log))) == Ok::<
            LogView,
            PublicLogError,
        >(log),
{
    lemma_log_names_apart();
    let id = Json::Object(id_members(log));
    let what = Json::Object(logged_members(log));
    let parts = seq![("id"@, id), ("log"@, what)];
    law_first_member(parts, "id"@, 0);
    law_first_member(parts, "log"@, 1);
    law_first_member(id_members(log), "txHash"@, 0);
    law_first_member(id_members(log), "logIndex"@, 1);
    law_first_member(logged_members(log), "contractAddress"@, 0);
    law_first_member(logged_members(log), "tag"@, 1);
    law_first_member(logged_members(log), "fields"@, 2);
    lemma_log_found(Json::Object(parts), what, id, log);
    let all = logged_members(log) + id_members(log);
    law_no_member(Json::Object(all), "id"@);
    law_no_member(Json::Object(all), "log"@);
    law_first_member(all, "contractAddress"@, 0);
    law_first_member(all, "tag"@, 1);
    law_first_member(all, "fields"@, 2);
    law_first_member(all, "txHash"@, 3);
    law_first_member(all, "logIndex"@, 4);
    lemma_log_found(Json::Object(all), Json::Object(all), Json::Object(all), log);
}

proof fn lemma_log_found(value: Json, what: Json, id: Json, log: LogView)
    requires
        log.fields.len() <= usize::MAX,
        logged(value) == what,
        identified(value) == id,
        what.get("contractAddress"@) == Some(hex_json(log.contract_address)),
        what.get("tag"@) == Some(hex_json(log.tag)),
        what.get("fields"@) == Some(
            Json::Array(log.fields.map_values(|field: Seq<u8>| hex_json(field))),
        ),
        id.get("txHash"@) == Some(hex_json(log.tx_hash)),
        id.get("logIndex"@) == Some(Json::PosInt(log.log_index as u64)),
    ensures
        public_log_of(value) == Ok::<LogView, PublicLogError>(log),
{
    let items = log.fields.map_values(|field: Seq<u8>| hex_json(field));
    assert forall|j: int| 0 <= j < items.len() implies bytes_of(#[trigger] items[j]) == Ok::<
        Seq<u8>,
        BytesError,
    >(log.fields[j]) by {
        law_hex_read_back(log.fields[j], "0x"@ + hex_text(log.fields[j]));
    }
    law_log_fields(value, items, items.len() as int);
    law_hex_read_back(log.contract_address, "0x"@ + hex_text(log.contract_address));
    law_hex_read_back(log.tag, "0x"@ + hex_text(log.tag));
    law_hex_read_back(log.tx_hash, "0x"@ + hex_text(log.tx_hash));
    law_path_of_one(what, "contractAddress"@);
    law_path_of_one(id, "txHash"@);
    law_path_of_one(id, "logIndex"@);
    assert(bytes_stand(what, address_paths()[0], log.contract_address));
    assert(bytes_stand(id, tx_hash_paths()[0], log.tx_hash));
    assert(integer_stands(id, log_index_paths()[0], log.log_index as i64));
    law_log_address(value, address_paths(), 0, log.contract_address);
    law_log_tag(value, log.tag);
    law_log_transaction(value, tx_hash_paths(), 0, log.tx_hash);
    law_log_index(value, log_index_paths(), 0, log.log_index as i64);
    let read = public_log_of(value)->Ok_0;
    assert(read.fields =~= log.fields) by {
        assert forall|j: int| 0 <= j < log.fields.len() implies read.fields[j] == log.fields[j] by {
            assert(bytes_of(items[j]) == Ok::<Seq<u8>, BytesError>(log.fields[j]));
            assert(bytes_of(items[j]) == Ok::<Seq<u8>, BytesError>(read.fields[j]));
        }
    }
}

/// A value that stands for an integer is a block number exactly where the
/// integer is in the range of block numbers, and is that number.
pub proof fn law_block_number_read(value: Json, n: i64)
    ensures
        i64_of(value) is None ==> block_number_of(value) == Err::<BlockNumber, BlockNumberError>(
            BlockNumberError::Invalid,
        ),
        i64_of(value) == Some(n) && -0x8000_0000 <= n <= 0x7fff_ffff ==> block_number_of(value) is Ok
            && block_number_of(value)->Ok_0 == n,
        i64_of(value) == Some(n) && !(-0x8000_0000 <= n <= 0x7fff_ffff) ==> block_number_of(value)
            == Err::<BlockNumber, BlockNumberError>(BlockNumberError::OutOfRange(n)),
{
}

/// The body of a call has four members: the version of the protocol, the
/// number of the call, the method and what is asked.
pub proof fn law_request(id: u64, method: Seq<char>, params: Json)
    ensures
        request_json(id, method, params)->Object_0.len() == 4,
        request_json(id, method, params).get("jsonrpc"@) == Some(Json::Text("2.0"@)),
        request_json(id, method, params).get("id"@) == Some(Json::PosInt(id)),
        request_json(id, method, params).get("method"@) == Some(Json::Text(method)),
        request_json(id, method, params).get("params"@) == Some(params),
{
    reveal_strlit("jsonrpc");
    reveal_strlit("id");
    reveal_strlit("method");
    reveal_strlit("params");
    let members = request_json(id, method, params)->Object_0;
    assert("method"@[0] != "params"@[0]);
    assert("jsonrpc"@.len() != "id"@.len() && "jsonrpc"@.len() != "method"@.len() && "id"@.len()
        != "method"@.len() && "params"@.len() == "method"@.len());
    law_first_member(members, "jsonrpc"@, 0);
    law_first_member(members, "id"@, 1);
    law_first_member(members, "method"@, 2);
    law_first_member(members, "params"@, 3);
}

/// An integer goes out as itself.
pub proof fn law_integer_sent(n: i64)
    ensures
        i64_of(int_json(n as int)) == Some(n),
        n >= 0 ==> int_json(n as int) == Json::PosInt(n as u64),
{
}

/// The logs that are asked for are those from a block on up to, and without,
/// the next one, behind the log with the cursor that is given, if one is.
pub proof fn law_log_filter(number: BlockNumber, cursor: Json)
    requires
        number < i32::MAX,
    ensures
        i64_of(log_filter(number as int, None).get("fromBlock"@)->0) == Some(number as i64),
        i64_of(log_filter(number as int, None).get("toBlock"@)->0) == Some((number + 1) as i64),
        log_filter(number as int, None).get("afterLog"@) is None,
        i64_of(log_filter(number as int, Some(cursor)).get("fromBlock"@)->0) == Some(number as i64),
        i64_of(log_filter(number as int, Some(cursor)).get("toBlock"@)->0) == Some(
            (number + 1) as i64,
        ),
        log_filter(number as int, Some(cursor)).get("afterLog"@) == Some(cursor),
{
    reveal_strlit("fromBlock");
    reveal_strlit("toBlock");
    reveal_strlit("afterLog");
    assert("fromBlock"@.len() != "toBlock"@.len() && "fromBlock"@.len() != "afterLog"@.len()
        && "toBlock"@.len() != "afterLog"@.len());
    let bare = log_filter(number as int, None);
    let more = log_filter(number as int, Some(cursor));
    law_first_member(bare->Object_0, "fromBlock"@, 0);
    law_first_member(bare->Object_0, "toBlock"@, 1);
    law_no_member(bare, "afterLog"@);
    law_first_member(more->Object_0, "fromBlock"@, 0);
    law_first_member(more->Object_0, "toBlock"@, 1);
    law_first_member(more->Object_0, "afterLog"@, 2);
}

proof fn lemma_log_count(items: Seq<Json>, k: int)
    requires
        0 <= k <= items.len(),
        forall|j: int| 0 <= j < k ==> public_log_of(#[trigger] items[j]) is Ok,
        k < items.len() ==> public_log_of(items[k]) is Err,
    ensures
        log_count(items) == k,
    decreases k,
{
    if k > 0 {
        let rest = items.skip(1);
        assert(public_log_of(items[0]) is Ok);
        assert forall|j: int| 0 <= j < k - 1 implies public_log_of(#[trigger] rest[j]) is Ok by {
            assert(rest[j] == items[j + 1]);
        }
        lemma_log_count(rest, k - 1);
    }
}

/// A page holds the logs in its member `logs`, each as it is read, all of them,
/// in order. Another one follows exactly where its member `maxLogsHit` is
/// true, and is asked for with the member `id` of the last log or, without
/// one, its member `logId`. A page without an array of logs is refused, and so
/// is one at its first log that cannot be read, here that at `k`, or where
/// another one follows but there is nothing to ask for it with.
pub proof fn law_page_read(response: Json, items: Seq<Json>, k: int)
    requires
        0 <= k <= items.len() <= usize::MAX,
        forall|j: int| 0 <= j < k ==> public_log_of(#[trigger] items[j]) is Ok,
    ensures
        ({
            let logs = response.get("logs"@);
            let found = logs == Some(Json::Array(items));
            let more = response.get("maxLogsHit"@) == Some(Json::Bool(true));
            let id = items.last().get("id"@);
            let log_id = items.last().get("logId"@);
            let cursor = if id is Some {
                id
            } else {
                log_id
            };
            let page = page_of(response);
            &&& !(logs matches Some(Json::Array(_))) ==> page == Err::<PageView, PageError>(
                PageError::MissingLogs,
            )
            &&& found && k < items.len() && public_log_of(items[k]) is Err ==> page == Err::<
                PageView,
                PageError,
            >(PageError::Log { index: k as usize, cause: public_log_of(items[k])->Err_0 })
            &&& found && k == items.len() && more && (k == 0 || cursor is None) ==> page == Err::<
                PageView,
                PageError,
            >(PageError::MissingCursor)
            &&& found && k == items.len() && !(more && (k == 0 || cursor is None)) ==> page is Ok
                && page->Ok_0.logs.len() == items.len() && (forall|j: int|
                0 <= j < items.len() ==> public_log_of(items[j]) == Ok::<LogView, PublicLogError>(
                    #[trigger] page->Ok_0.logs[j],
                )) && page->Ok_0.next == (if more {
                cursor
            } else {
                None
            })
        }),
{
    if k == items.len() || public_log_of(items[k]) is Err {
        lemma_log_count(items, k);
    }
}

/// A fetch asks for the block by the number that it was begun with and for the
/// logs by the same number, whatever the header says; the first page is asked
/// for without a cursor, and no log is there before it. Each answer that cannot
/// be read ends the fetch with its fault.
pub proof fn law_fetch_asks(number: BlockNumber, result: Json, header: HeaderView, read: PagesView)
    ensures
        FetchView::Header(number).method() == "node_getBlock"@,
        FetchView::Header(number).params() == Json::Array(seq![int_json(number as int)]),
        FetchView::Logs(header, read).method() == "node_getPublicLogs"@,
        FetchView::Logs(header, read).params() == Json::Array(
            seq![log_filter(read.number as int, read.after_log)],
        ),
        match FetchView::Header(number).after(result) {
            Ok(StepView::More(FetchView::Logs(h, pages))) => {
                &&& block_header_of(result) == Ok::<HeaderView, HeaderError>(h)
                &&& pages.number == number
                &&& pages.after_log is None
                &&& pages.logs.len() == 0
            },
            Ok(_) => false,
            Err(FetchError::Header(e)) => block_header_of(result) == Err::<HeaderView, HeaderError>(e),
            Err(_) => false,
        },
        match FetchView::Logs(header, read).after(result) {
            Ok(StepView::More(FetchView::Logs(h, pages))) => {
                &&& h == header
                &&& pages.number == read.number
                &&& page_of(result) is Ok
                &&& page_of(result)->Ok_0.next is Some
                &&& pages.after_log == page_of(result)->Ok_0.next
                &&& pages.logs == read.logs + page_of(result)->Ok_0.logs
            },
            Ok(StepView::More(_)) => false,
            Ok(StepView::Done(block)) => {
                &&& page_of(result) is Ok
                &&& page_of(result)->Ok_0.next is None
                &&& block.header == Some(header)
                &&& block.public_logs == read.logs + page_of(result)->Ok_0.logs
            },
            Err(FetchError::Page(e)) => page_of(result) == Err::<PageView, PageError>(e),
            Err(_) => false,
        },
{
}

} // verus!

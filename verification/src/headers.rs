//! The HTTP headers that go with every call to a node.
use vstd::prelude::*;
use vstd::string::*;
use vstd::utf8::encode_utf8;
use reqwest::header::{HeaderMap, HeaderName, HeaderValue, InvalidHeaderName, InvalidHeaderValue};

verus! {

/// The headers of a request.
#[verifier::external_type_specification]
#[verifier::external_body]
#[verifier::reject_recursive_types(T)]
pub struct ExHeaderMap<T>(reqwest::header::HeaderMap<T>);

/// The name of a header.
#[verifier::external_type_specification]
#[verifier::external_body]
pub struct ExHeaderName(reqwest::header::HeaderName);

/// The value of a header.
#[verifier::external_type_specification]
#[verifier::external_body]
pub struct ExHeaderValue(reqwest::header::HeaderValue);

/// What a text is refused with as the name of a header.
#[verifier::external_type_specification]
#[verifier::external_body]
pub struct ExInvalidHeaderName(reqwest::header::InvalidHeaderName);

/// What a text is refused with as the value of a header.
#[verifier::external_type_specification]
#[verifier::external_body]
pub struct ExInvalidHeaderValue(reqwest::header::InvalidHeaderValue);

/// The bytes of a header's name.
pub uninterp spec fn header_name_bytes(name: HeaderName) -> Seq<u8>;

/// The bytes of a header's value.
pub uninterp spec fn header_value_bytes(value: HeaderValue) -> Seq<u8>;

/// What a header map holds: for each name the bytes of its value.
pub uninterp spec fn header_entries(map: HeaderMap<HeaderValue>) -> Map<Seq<u8>, Seq<u8>>;

/// Whether `b` may stand in the name of a header.
pub open spec fn is_name_byte(b: u8) -> bool {
    ||| 48 <= b <= 57
    ||| 65 <= b <= 90
    ||| 94 <= b <= 122
    ||| b == 33
    ||| 35 <= b <= 39
    ||| b == 42
    ||| b == 43
    ||| b == 45
    ||| b == 46
    ||| b == 124
    ||| b == 126
}

/// The lower-case letter for an upper-case one, else `b`.
pub open spec fn lower_byte(b: u8) -> u8 {
    if 65 <= b <= 90 {
        (b + 32) as u8
    } else {
        b
    }
}

/// The name of a header that `text` writes out: at most 65535 bytes, and at
/// least one, all of which may stand in a name. Case does not count.
pub open spec fn header_name_of(text: Seq<u8>) -> Option<Seq<u8>> {
    if 1 <= text.len() <= 65535 && (forall|i: int|
        0 <= i < text.len() ==> is_name_byte(#[trigger] text[i])) {
        Some(text.map_values(|b: u8| lower_byte(b)))
    } else {
        None
    }
}

/// Whether `text` may be the value of a header: it holds no control
/// characters but tabs.
pub open spec fn is_header_value(text: Seq<u8>) -> bool {
    forall|i: int|
        0 <= i < text.len() ==> (32 <= #[trigger] text[i] && text[i] != 127) || text[i] == 9
}

/// `HeaderMap::new`: the map holds nothing.
#[verifier::external_body]
fn empty_map() -> (r: HeaderMap<HeaderValue>)
    ensures
        header_entries(r).dom() == Set::<Seq<u8>>::empty(),
{
    HeaderMap::new()
}

/// `HeaderName::try_from` on a text: it succeeds on the texts that write out
/// a name, and gives the name in lower case.
#[verifier::external_body]
fn header_name(text: &str) -> (r: Result<HeaderName, InvalidHeaderName>)
    ensures
        match r {
            Ok(name) => header_name_of(text.spec_bytes()) == Some(header_name_bytes(name)),
            Err(_) => header_name_of(text.spec_bytes()) is None,
        },
{
    HeaderName::try_from(text)
}

/// `HeaderValue::try_from` on a text: it succeeds on the texts without
/// control characters other than tabs, and gives their bytes.
#[verifier::external_body]
fn header_value(text: &str) -> (r: Result<HeaderValue, InvalidHeaderValue>)
    ensures
        match r {
            Ok(value) => is_header_value(text.spec_bytes()) && header_value_bytes(value)
                == text.spec_bytes(),
            Err(_) => !is_header_value(text.spec_bytes()),
        },
{
    HeaderValue::try_from(text)
}

/// `HeaderMap::try_insert`: the value takes the place of any that the name
/// had. The map may be full, in which case the answer is `false`; it never is
/// with fewer than 6554 names. Nothing is said of the map that was full.
#[verifier::external_body]
fn insert_header(
    map: &mut HeaderMap<HeaderValue>,
    name: HeaderName,
    value: HeaderValue,
) -> (r: bool)
    ensures
        r ==> header_entries(*final(map)) == header_entries(*old(map)).insert(
            header_name_bytes(name),
            header_value_bytes(value),
        ),
        r || header_entries(*old(map)).len() >= 6554,
{
    map.try_insert(name, value).is_ok()
}

/// Why headers cannot be sent along.
#[derive(Debug, PartialEq, Eq)]
pub enum HeadersError {
    /// This is not the name of a header.
    InvalidName(String),
    /// What is given for this name is not the value of a header.
    InvalidValue(String),
    /// There are more headers than a request can have.
    TooMany,
}

/// The model of `headers`: names and values.
pub open spec fn header_texts(headers: Seq<(String, String)>) -> Seq<(Seq<char>, Seq<char>)> {
    headers.map_values(|h: (String, String)| (h.0@, h.1@))
}

/// Whether `header` has a name and a value that can be sent.
pub open spec fn header_valid(header: (Seq<char>, Seq<char>)) -> bool {
    header_name_of(encode_utf8(header.0)) is Some && is_header_value(encode_utf8(header.1))
}

/// How many of `headers`, from the first, can be sent.
pub open spec fn valid_headers(headers: Seq<(Seq<char>, Seq<char>)>) -> nat
    decreases headers.len(),
{
    if headers.len() == 0 || !header_valid(headers[0]) {
        0
    } else {
        1 + valid_headers(headers.skip(1))
    }
}

/// The name that goes out for `header`.
pub open spec fn sent_name(header: (Seq<char>, Seq<char>)) -> Seq<u8> {
    header_name_of(encode_utf8(header.0))->0
}

/// What a map holds once `headers` were put into it in order: of two with one
/// name the later one counts.
pub open spec fn entries_of(headers: Seq<(Seq<char>, Seq<char>)>) -> Map<Seq<u8>, Seq<u8>>
    decreases headers.len(),
{
    if headers.len() == 0 {
        Map::empty()
    } else {
        entries_of(headers.drop_last()).insert(
            sent_name(headers.last()),
            encode_utf8(headers.last().1),
        )
    }
}

/// The first fault in `headers`, of which not all can be sent.
pub open spec fn first_fault(headers: Seq<(Seq<char>, Seq<char>)>, e: HeadersError) -> bool {
    let header = headers[valid_headers(headers) as int];
    if header_name_of(encode_utf8(header.0)) is None {
        e matches HeadersError::InvalidName(name) && name@ == header.0
    } else {
        e matches HeadersError::InvalidValue(name) && name@ == header.0
    }
}

/// Whether `headers` are refused with `e`: with the first fault in them, or
/// because the map was full at a header before any fault, when it held at least
/// 6554 names.
pub open spec fn headers_refused(headers: Seq<(Seq<char>, Seq<char>)>, e: HeadersError) -> bool {
    match e {
        HeadersError::TooMany => exists|k: int|
            0 <= k < valid_headers(headers) && (#[trigger] entries_of(headers.take(k))).len() >= 6554,
        _ => valid_headers(headers) < headers.len() && first_fault(headers, e),
    }
}

/// The headers to send along with every request. The first name or value that
/// cannot be sent is refused. A header may also be refused because there are
/// too many, but only where those before it have at least 6554 names.
pub fn default_headers(headers: &Vec<(String, String)>) -> (r: Result<
    HeaderMap<HeaderValue>,
    HeadersError,
>)
    ensures
        match r {
            Ok(map) => {
                &&& valid_headers(header_texts(headers@)) == headers@.len()
                &&& header_entries(map) == entries_of(header_texts(headers@))
            },
            Err(e) => headers_refused(header_texts(headers@), e),
        },
{
    let ghost texts = header_texts(headers@);
    let mut map = empty_map();
    let mut i: usize = 0;
    assert(texts.skip(0) == texts);
    assert(header_entries(map) =~= entries_of(texts.take(0)));
    while i < headers.len()
        invariant
            i <= headers@.len(),
            texts == header_texts(headers@),
            valid_headers(texts) == i + valid_headers(texts.skip(i as int)),
            header_entries(map) == entries_of(texts.take(i as int)),
        decreases headers@.len() - i,
    {
        proof {
            assert(texts.skip(i as int)[0] == texts[i as int]);
            assert(texts.skip(i as int).skip(1) == texts.skip(i + 1));
            assert(texts.take(i + 1).drop_last() == texts.take(i as int));
            assert(texts.take(i + 1).last() == texts[i as int]);
        }
        let name = match header_name(headers[i].0.as_str()) {
            Ok(name) => name,
            Err(_) => return Err(HeadersError::InvalidName(headers[i].0.clone())),
        };
        let value = match header_value(headers[i].1.as_str()) {
            Ok(value) => value,
            Err(_) => return Err(HeadersError::InvalidValue(headers[i].0.clone())),
        };
        if !insert_header(&mut map, name, value) {
            proof {
                assert(header_valid(texts[i as int]));
                assert(entries_of(texts.take(i as int)).len() >= 6554);
            }
            return Err(HeadersError::TooMany);
        }
        i += 1;
    }
    assert(texts.take(i as int) == texts);
    Ok(map)
}

/// A header goes out with its value unless a later one has its name, in
/// whatever case; and no header goes out that was not given.
pub proof fn law_later_header_counts(headers: Seq<(Seq<char>, Seq<char>)>, k: int, name: Seq<u8>)
    requires
        0 <= k < headers.len(),
        forall|j: int| k < j < headers.len() ==> sent_name(#[trigger] headers[j]) != sent_name(headers[k]),
    ensures
        entries_of(headers).contains_key(sent_name(headers[k])),
        entries_of(headers)[sent_name(headers[k])] == encode_utf8(headers[k].1),
        entries_of(headers).contains_key(name) ==> exists|j: int|
            0 <= j < headers.len() && sent_name(#[trigger] headers[j]) == name,
    decreases headers.len(),
{
    let front = headers.drop_last();
    let last = headers.len() - 1;
    assert(headers[last] == headers.last());
    if k < last {
        assert(front[k] == headers[k]);
        assert forall|j: int| k < j < front.len() implies sent_name(#[trigger] front[j]) != sent_name(
            front[k],
        ) by {
            assert(front[j] == headers[j]);
        }
        law_later_header_counts(front, k, name);
        assert(sent_name(headers[last]) != sent_name(headers[k]));
    }
    lemma_entries_given(headers, name);
}

proof fn lemma_entries_given(headers: Seq<(Seq<char>, Seq<char>)>, name: Seq<u8>)
    ensures
        entries_of(headers).contains_key(name) ==> exists|j: int|
            0 <= j < headers.len() && sent_name(#[trigger] headers[j]) == name,
    decreases headers.len(),
{
    if headers.len() > 0 && entries_of(headers).contains_key(name) {
        let front = headers.drop_last();
        lemma_entries_given(front, name);
        assert(headers[headers.len() - 1] == headers.last());
        if sent_name(headers.last()) != name {
            let j = choose|j: int| 0 <= j < front.len() && sent_name(#[trigger] front[j]) == name;
            assert(headers[j] == front[j]);
        }
    }
}

/// Headers are put in one by one up to the first, here that at `k`, whose name
/// or value cannot be sent; a name counts before its value.
pub proof fn law_first_fault(headers: Seq<(Seq<char>, Seq<char>)>, k: int, e: HeadersError)
    requires
        0 <= k <= headers.len(),
        forall|j: int|
            0 <= j < k ==> header_name_of(encode_utf8((#[trigger] headers[j]).0)) is Some
                && is_header_value(encode_utf8(headers[j].1)),
    ensures
        k == headers.len() ==> valid_headers(headers) == headers.len(),
        k < headers.len() && header_name_of(encode_utf8(headers[k].0)) is None && !(e is TooMany)
            && headers_refused(headers, e) ==> e is InvalidName && e->InvalidName_0@ == headers[k].0,
        k < headers.len() && header_name_of(encode_utf8(headers[k].0)) is Some && !is_header_value(
            encode_utf8(headers[k].1),
        ) && !(e is TooMany) && headers_refused(headers, e) ==> e is InvalidValue && e->InvalidValue_0@
            == headers[k].0,
        k < headers.len() && !(header_name_of(encode_utf8(headers[k].0)) is Some && is_header_value(
            encode_utf8(headers[k].1),
        )) ==> valid_headers(headers) == k,
{
    lemma_valid_headers(headers, k);
}

proof fn lemma_valid_headers(headers: Seq<(Seq<char>, Seq<char>)>, k: int)
    requires
        0 <= k <= headers.len(),
        forall|j: int| 0 <= j < k ==> header_valid(#[trigger] headers[j]),
    ensures
        k == headers.len() || !header_valid(headers[k]) ==> valid_headers(headers) == k,
    decreases k,
{
    if k > 0 {
        let rest = headers.skip(1);
        assert(header_valid(headers[0]));
        assert forall|j: int| 0 <= j < k - 1 implies header_valid(#[trigger] rest[j]) by {
            assert(rest[j] == headers[j + 1]);
        }
        lemma_valid_headers(rest, k - 1);
    }
}

} // verus!

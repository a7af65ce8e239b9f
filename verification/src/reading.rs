//! Reading integers, bytes and arrays out of JSON values.
use vstd::prelude::*;
use vstd::utf8::{char_is_scalar, encode_scalar, encode_utf8, has_width_1_encoding, is_ascii_chars, is_ascii_chars_encode_utf8};
use crate::codec::{ascii_lower, has_hex_prefix, law_spellings, lemma_hex_text_normalized, normalize_hex, normalized_hex, same_but_case};
use crate::hexadecimal::{hex_decode, hex_decoded, hex_digit, hex_prefix_len, hex_text, hex_value, HexError};
use crate::json::{json_items, lemma_json_items, viewed, Json, Value};
use crate::text::{all_digits, chars_of, digit_value, i64_text, parse_i64};

verus! {

/// Why a JSON value does not stand for bytes.
#[derive(Clone, Copy, Debug, PartialEq, Eq)]
pub enum BytesError {
    /// It is neither a text nor an array.
    NotBytes,
    /// It is an array whose item at this index is no byte.
    Element(usize),
    /// It is a text that is not hexadecimal.
    Hex(HexError),
}

/// The names along a path into a JSON value.
pub open spec fn path_text(path: Seq<&str>) -> Seq<Seq<char>> {
    path.map_values(|s: &str| s@)
}

/// The names along each of `paths`.
pub open spec fn paths_text(paths: Seq<&[&str]>) -> Seq<Seq<Seq<char>>> {
    paths.map_values(|p: &[&str]| path_text(p@))
}

/// What is found in `value` along `path`, from member to member.
pub open spec fn at_path(value: Json, path: Seq<Seq<char>>) -> Option<Json>
    decreases path.len(),
{
    if path.len() == 0 {
        Some(value)
    } else {
        match value.get(path[0]) {
            Some(inner) => at_path(inner, path.skip(1)),
            None => None,
        }
    }
}

/// Whether `s` begins with `0x`.
pub open spec fn has_0x(s: Seq<char>) -> bool {
    s.len() >= 2 && s[0] == '0' && s[1] == 'x'
}

/// The integer that `value` stands for: a number, or a text in decimal digits
/// or, behind `0x`, in hexadecimal ones.
pub open spec fn i64_of(value: Json) -> Option<i64> {
    match (value.as_i64(), value.as_str()) {
        (Some(n), _) => Some(n),
        (None, Some(s)) => if has_0x(s) && i64_text(s.skip(2), 16) is Some {
            i64_text(s.skip(2), 16)
        } else {
            i64_text(s, 10)
        },
        (None, None) => None,
    }
}

/// `text` with a zero digit in front where its length is odd.
pub open spec fn padded(text: Seq<u8>) -> Seq<u8> {
    if text.len() % 2 == 0 {
        text
    } else {
        seq![48u8] + text
    }
}

/// The bytes that the hexadecimal text `s` writes out, with or without `0x`.
pub open spec fn hex_bytes(s: Seq<char>) -> Result<Seq<u8>, HexError> {
    hex_decoded(padded(encode_utf8(normalized_hex(s))))
}

/// Whether `value` is an integer in the range of a byte.
pub open spec fn is_byte(value: Json) -> bool {
    value.as_u64() matches Some(n) && n <= 255
}

/// How many bytes `items` begins with.
pub open spec fn byte_count(items: Seq<Json>) -> nat
    decreases items.len(),
{
    if items.len() == 0 || !is_byte(items[0]) {
        0
    } else {
        1 + byte_count(items.skip(1))
    }
}

/// The bytes that `value` stands for: a hexadecimal text, or an array of
/// bytes.
pub open spec fn bytes_of(value: Json) -> Result<Seq<u8>, BytesError> {
    match value {
        Json::Text(s) => match hex_bytes(s) {
            Ok(bytes) => Ok(bytes),
            Err(e) => Err(BytesError::Hex(e)),
        },
        Json::Array(items) => if byte_count(items) < items.len() {
            Err(BytesError::Element(byte_count(items) as usize))
        } else {
            Ok(items.map_values(|item: Json| item.as_u64()->0 as u8))
        },
        _ => Err(BytesError::NotBytes),
    }
}

/// The integer at the first of `paths` where there is one.
pub open spec fn first_i64_at(value: Json, paths: Seq<Seq<Seq<char>>>) -> Option<i64>
    decreases paths.len(),
{
    if paths.len() == 0 {
        None
    } else {
        match at_path(value, paths[0]) {
            Some(found) if i64_of(found) is Some => i64_of(found),
            _ => first_i64_at(value, paths.skip(1)),
        }
    }
}

/// The bytes at the first of `paths` where there are some.
pub open spec fn first_bytes_at(value: Json, paths: Seq<Seq<Seq<char>>>) -> Option<Seq<u8>>
    decreases paths.len(),
{
    if paths.len() == 0 {
        None
    } else {
        match at_path(value, paths[0]) {
            Some(found) if bytes_of(found) is Ok => Some(bytes_of(found)->Ok_0),
            _ => first_bytes_at(value, paths.skip(1)),
        }
    }
}

/// The array at the first of `paths` where there is one.
pub open spec fn first_array_at(value: Json, paths: Seq<Seq<Seq<char>>>) -> Option<Seq<Json>>
    decreases paths.len(),
{
    if paths.len() == 0 {
        None
    } else {
        match at_path(value, paths[0]) {
            Some(found) if found.as_array() is Some => found.as_array(),
            _ => first_array_at(value, paths.skip(1)),
        }
    }
}

/// What `r` says of the bytes in it.
pub open spec fn bytes_view(r: Result<Vec<u8>, BytesError>) -> Result<Seq<u8>, BytesError> {
    match r {
        Ok(bytes) => Ok(bytes@),
        Err(e) => Err(e),
    }
}

/// The bytes that may be missing.
pub open spec fn maybe_bytes(r: Option<Vec<u8>>) -> Option<Seq<u8>> {
    match r {
        Some(bytes) => Some(bytes@),
        None => None,
    }
}

/// What is found in `value` along `path`, from member to member.
pub fn value_at<'a>(value: &'a Value, path: &[&str]) -> (r: Option<&'a Value>)
    ensures
        viewed(r) == at_path(value@, path_text(path@)),
{
    let ghost names = path_text(path@);
    let mut found: &'a Value = value;
    let mut i: usize = 0;
    assert(names.skip(0) == names);
    while i < path.len()
        invariant
            i <= path@.len(),
            names == path_text(path@),
            at_path(value@, names) == at_path(found@, names.skip(i as int)),
        decreases path@.len() - i,
    {
        proof {
            assert(names.skip(i as int).skip(1) == names.skip(i + 1));
            assert(names.skip(i as int)[0] == path@[i as int]@);
        }
        match found.get(path[i]) {
            Some(inner) => found = inner,
            None => return None,
        }
        i += 1;
    }
    Some(found)
}

/// The integer that `value` stands for: a number, or a text in decimal digits
/// or, behind `0x`, in hexadecimal ones.
pub fn value_to_i64(value: &Value) -> (r: Option<i64>)
    ensures
        r == i64_of(value@),
{
    match value.as_i64() {
        Some(n) => Some(n),
        None => match value.as_str() {
            Some(s) => {
                let chars = chars_of(s);
                if chars.len() >= 2 && chars[0] == '0' && chars[1] == 'x' {
                    let (_prefix, digits) = chars.as_slice().split_at(2);
                    assert(digits@ == s@.skip(2));
                    match parse_i64(digits, 16) {
                        Some(n) => return Some(n),
                        None => {},
                    }
                }
                parse_i64(chars.as_slice(), 10)
            },
            None => None,
        },
    }
}

/// The bytes that the hexadecimal text `value` writes out, with or without
/// `0x`; an odd digit at the front is a byte of its own.
pub fn hex_to_bytes(value: &str) -> (r: Result<Vec<u8>, HexError>)
    ensures
        match r {
            Ok(bytes) => hex_bytes(value@) == Ok::<Seq<u8>, HexError>(bytes@),
            Err(e) => hex_bytes(value@) == Err::<Seq<u8>, HexError>(e),
        },
{
    let hex = normalize_hex(value);
    let digits: &[u8] = hex.as_str().as_bytes();
    if digits.len() % 2 == 0 {
        hex_decode(digits)
    } else {
        let mut even: Vec<u8> = Vec::new();
        even.push(48u8);
        even.extend_from_slice(digits);
        assert(even@ == padded(digits@));
        hex_decode(even.as_slice())
    }
}

fn array_to_bytes(items: &Vec<Value>) -> (r: Result<Vec<u8>, BytesError>)
    ensures
        bytes_view(r) == bytes_of(Json::Array(json_items(items@))),
{
    broadcast use lemma_json_items;

    let ghost models = json_items(items@);
    let mut bytes: Vec<u8> = Vec::new();
    let mut i: usize = 0;
    assert(models.skip(0) == models);
    while i < items.len()
        invariant
            i <= items@.len(),
            models == json_items(items@),
            bytes@ == models.take(i as int).map_values(|item: Json| item.as_u64()->0 as u8),
            byte_count(models) == i + byte_count(models.skip(i as int)),
        decreases items@.len() - i,
    {
        broadcast use lemma_json_items;

        proof {
            assert(models.skip(i as int)[0] == items@[i as int]@);
            assert(models.skip(i as int).skip(1) == models.skip(i + 1));
        }
        match items[i].as_u64() {
            Some(n) if n <= 255 => {
                bytes.push(n as u8);
                assert(bytes@ == models.take(i + 1).map_values(|item: Json| item.as_u64()->0 as u8));
            },
            _ => return Err(BytesError::Element(i)),
        }
        i += 1;
    }
    assert(models.take(i as int) == models);
    Ok(bytes)
}

/// The bytes that `value` stands for: a hexadecimal text, or an array of
/// bytes.
pub fn value_to_bytes(value: &Value) -> (r: Result<Vec<u8>, BytesError>)
    ensures
        bytes_view(r) == bytes_of(value@),
{
    match value {
        Value::Text(s) => match hex_to_bytes(s.as_str()) {
            Ok(bytes) => Ok(bytes),
            Err(e) => Err(BytesError::Hex(e)),
        },
        Value::Array(items) => array_to_bytes(items),
        _ => Err(BytesError::NotBytes),
    }
}

/// The integer at the first of `paths` where there is one.
pub fn first_i64(value: &Value, paths: &[&[&str]]) -> (r: Option<i64>)
    ensures
        r == first_i64_at(value@, paths_text(paths@)),
{
    let ghost all = paths_text(paths@);
    let mut i: usize = 0;
    assert(all.skip(0) == all);
    while i < paths.len()
        invariant
            i <= paths@.len(),
            all == paths_text(paths@),
            first_i64_at(value@, all) == first_i64_at(value@, all.skip(i as int)),
        decreases paths@.len() - i,
    {
        proof {
            assert(all.skip(i as int)[0] == path_text(paths@[i as int]@));
            assert(all.skip(i as int).skip(1) == all.skip(i + 1));
        }
        match value_at(value, paths[i]) {
            Some(found) => match value_to_i64(found) {
                Some(n) => return Some(n),
                None => {},
            },
            None => {},
        }
        i += 1;
    }
    None
}

/// The bytes at the first of `paths` where there are some.
pub fn first_bytes(value: &Value, paths: &[&[&str]]) -> (r: Option<Vec<u8>>)
    ensures
        maybe_bytes(r) == first_bytes_at(value@, paths_text(paths@)),
{
    let ghost all = paths_text(paths@);
    let mut i: usize = 0;
    assert(all.skip(0) == all);
    while i < paths.len()
        invariant
            i <= paths@.len(),
            all == paths_text(paths@),
            first_bytes_at(value@, all) == first_bytes_at(value@, all.skip(i as int)),
        decreases paths@.len() - i,
    {
        proof {
            assert(all.skip(i as int)[0] == path_text(paths@[i as int]@));
            assert(all.skip(i as int).skip(1) == all.skip(i + 1));
        }
        match value_at(value, paths[i]) {
            Some(found) => match value_to_bytes(found) {
                Ok(bytes) => return Some(bytes),
                Err(_) => {},
            },
            None => {},
        }
        i += 1;
    }
    None
}

/// The array at the first of `paths` where there is one.
pub fn first_array<'a>(value: &'a Value, paths: &[&[&str]]) -> (r: Option<&'a Vec<Value>>)
    ensures
        match r {
            Some(items) => first_array_at(value@, paths_text(paths@)) == Some(json_items(items@)),
            None => first_array_at(value@, paths_text(paths@)) is None,
        },
{
    let ghost all = paths_text(paths@);
    let mut i: usize = 0;
    assert(all.skip(0) == all);
    while i < paths.len()
        invariant
            i <= paths@.len(),
            all == paths_text(paths@),
            first_array_at(value@, all) == first_array_at(value@, all.skip(i as int)),
        decreases paths@.len() - i,
    {
        proof {
            assert(all.skip(i as int)[0] == path_text(paths@[i as int]@));
            assert(all.skip(i as int).skip(1) == all.skip(i + 1));
        }
        match value_at(value, paths[i]) {
            Some(found) => match found.as_array() {
                Some(items) => return Some(items),
                None => {},
            },
            None => {},
        }
        i += 1;
    }
    None
}

proof fn lemma_hex_digits(text: Seq<u8>)
    requires
        forall|i: int| 0 <= i < text.len() ==> hex_value(#[trigger] text[i]) is Some,
    ensures
        hex_prefix_len(text) == text.len(),
    decreases text.len(),
{
    if text.len() > 0 {
        lemma_hex_digits(text.skip(1));
    }
}

/// A text that writes bytes out in hexadecimal digits, with `0x` in front or
/// without, in whatever case the digits are, has their encoding as its normal
/// form.
pub proof fn law_spelling_of_bytes(bytes: Seq<u8>, s: Seq<char>)
    requires
        same_but_case(s, hex_text(bytes)) || same_but_case(s, "0x"@ + hex_text(bytes)),
    ensures
        normalized_hex(s) == hex_text(bytes),
{
    reveal_strlit("0x");
    let t = hex_text(bytes);
    lemma_hex_text_normalized(bytes);
    if same_but_case(s, t) {
        law_spellings(s, t);
    } else {
        law_spellings(s, "0x"@ + t);
        assert(!has_hex_prefix(t)) by {
            if t.len() >= 2 {
                assert(t[1] == hex_digit(bytes[0] as int % 16));
            }
        }
        law_spellings(t, t);
    }
}

/// Bytes that were written out in hexadecimal digits are read back, with `0x`
/// in front or without, in whatever case the digits are.
pub proof fn law_hex_read_back(bytes: Seq<u8>, s: Seq<char>)
    requires
        same_but_case(s, hex_text(bytes)) || same_but_case(s, "0x"@ + hex_text(bytes)),
    ensures
        hex_bytes(s) == Ok::<Seq<u8>, HexError>(bytes),
        bytes_of(Json::Text(s)) == Ok::<Seq<u8>, BytesError>(bytes),
{
    let t = hex_text(bytes);
    law_spelling_of_bytes(bytes, s);
    assert forall|i: int| 0 <= i < t.len() implies '\0' <= #[trigger] t[i] <= '\u{7f}' by {
        let b = bytes[i / 2];
        let n = if i % 2 == 0 { b as int / 16 } else { b as int % 16 };
        assert(t[i] == hex_digit(n));
    }
    is_ascii_chars_encode_utf8(t);
    let text = encode_utf8(t);
    assert forall|i: int| 0 <= i < text.len() implies hex_value(#[trigger] text[i]) == Some(
        if i % 2 == 0 { bytes[i / 2] as int / 16 } else { bytes[i / 2] as int % 16 },
    ) by {
        let b = bytes[i / 2];
        let n = if i % 2 == 0 { b as int / 16 } else { b as int % 16 };
        assert(0 <= n < 16);
        assert(t[i] == hex_digit(n));
        assert(text[i] == t[i] as u8);
    }
    lemma_hex_digits(text);
    let decoded = hex_decoded(text)->Ok_0;
    assert(text.len() == 2 * bytes.len());
    assert(decoded =~= bytes) by {
        assert forall|i: int| 0 <= i < bytes.len() implies decoded[i] == bytes[i] by {
            assert(hex_value(text[2 * i]) == Some(bytes[i] as int / 16));
            assert(hex_value(text[2 * i + 1]) == Some(bytes[i] as int % 16));
        }
    }
}

/// Nothing is left to look for along no path, and along one name it is the
/// member of that name.
pub proof fn law_path_of_one(value: Json, name: Seq<char>)
    ensures
        at_path(value, Seq::empty()) == Some(value),
        at_path(value, seq![name]) == value.get(name),
{
    assert(seq![name].skip(1) =~= Seq::empty());
    if let Some(inner) = value.get(name) {
        assert(at_path(inner, seq![name].skip(1)) == Some(inner));
    }
}

/// To look along one path and then, in what is found, along another is to look
/// along both, one behind the other.
pub proof fn law_paths_join(value: Json, first: Seq<Seq<char>>, second: Seq<Seq<char>>)
    ensures
        at_path(value, first + second) == (match at_path(value, first) {
            Some(found) => at_path(found, second),
            None => None,
        }),
    decreases first.len(),
{
    let both = first + second;
    if first.len() == 0 {
        assert(both =~= second);
    } else {
        assert(both[0] == first[0]);
        assert(both.skip(1) =~= first.skip(1) + second);
        if let Some(inner) = value.get(first[0]) {
            law_paths_join(inner, first.skip(1), second);
        }
    }
}

/// Whether an integer stands in `value` at the path `path`.
pub open spec fn integer_stands(value: Json, path: Seq<Seq<char>>, n: i64) -> bool {
    at_path(value, path) matches Some(found) && i64_of(found) == Some(n)
}

/// Whether bytes stand in `value` at the path `path`.
pub open spec fn bytes_stand(value: Json, path: Seq<Seq<char>>, b: Seq<u8>) -> bool {
    at_path(value, path) matches Some(found) && bytes_of(found) == Ok::<Seq<u8>, BytesError>(b)
}

/// Whether an array stands in `value` at the path `path`.
pub open spec fn array_stands(value: Json, path: Seq<Seq<char>>, items: Seq<Json>) -> bool {
    at_path(value, path) == Some(Json::Array(items))
}

/// An integer is taken from the path where one stands and before which none
/// stands; without such a path there is none.
pub proof fn law_first_integer(value: Json, paths: Seq<Seq<Seq<char>>>, k: int, n: i64)
    requires
        0 <= k <= paths.len(),
        forall|j: int, m: i64| 0 <= j < k ==> !#[trigger] integer_stands(value, paths[j], m),
    ensures
        k < paths.len() && integer_stands(value, paths[k], n) ==> first_i64_at(value, paths) == Some(n),
        k == paths.len() ==> first_i64_at(value, paths) is None,
    decreases k,
{
    if k > 0 {
        let rest = paths.skip(1);
        if let Some(found) = at_path(value, paths[0]) {
            if let Some(m) = i64_of(found) {
                assert(integer_stands(value, paths[0], m));
            }
        }
        assert forall|j: int, m: i64| 0 <= j < k - 1 implies !#[trigger] integer_stands(
            value,
            rest[j],
            m,
        ) by {
            assert(rest[j] == paths[j + 1]);
            assert(!integer_stands(value, paths[j + 1], m));
        }
        law_first_integer(value, rest, k - 1, n);
    }
}

/// Bytes are taken from the path where some stand and before which none stand;
/// without such a path there are none.
pub proof fn law_first_bytes(value: Json, paths: Seq<Seq<Seq<char>>>, k: int, b: Seq<u8>)
    requires
        0 <= k <= paths.len(),
        forall|j: int, c: Seq<u8>| 0 <= j < k ==> !#[trigger] bytes_stand(value, paths[j], c),
    ensures
        k < paths.len() && bytes_stand(value, paths[k], b) ==> first_bytes_at(value, paths) == Some(b),
        k == paths.len() ==> first_bytes_at(value, paths) is None,
    decreases k,
{
    if k > 0 {
        let rest = paths.skip(1);
        if let Some(found) = at_path(value, paths[0]) {
            if let Ok(c) = bytes_of(found) {
                assert(bytes_stand(value, paths[0], c));
            }
        }
        assert forall|j: int, c: Seq<u8>| 0 <= j < k - 1 implies !#[trigger] bytes_stand(
            value,
            rest[j],
            c,
        ) by {
            assert(rest[j] == paths[j + 1]);
            assert(!bytes_stand(value, paths[j + 1], c));
        }
        law_first_bytes(value, rest, k - 1, b);
    }
}

/// An array is taken from the path where one stands and before which none
/// stands; without such a path there is none.
pub proof fn law_first_array(value: Json, paths: Seq<Seq<Seq<char>>>, k: int, items: Seq<Json>)
    requires
        0 <= k <= paths.len(),
        forall|j: int, other: Seq<Json>|
            0 <= j < k ==> !#[trigger] array_stands(value, paths[j], other),
    ensures
        k < paths.len() && array_stands(value, paths[k], items) ==> first_array_at(value, paths) == Some(
            items,
        ),
        k == paths.len() ==> first_array_at(value, paths) is None,
    decreases k,
{
    if k > 0 {
        let rest = paths.skip(1);
        if let Some(Json::Array(other)) = at_path(value, paths[0]) {
            assert(array_stands(value, paths[0], other));
        }
        assert forall|j: int, other: Seq<Json>| 0 <= j < k - 1 implies !#[trigger] array_stands(
            value,
            rest[j],
            other,
        ) by {
            assert(rest[j] == paths[j + 1]);
            assert(!array_stands(value, paths[j + 1], other));
        }
        law_first_array(value, rest, k - 1, items);
    }
}

/// A JSON integer is read as itself, and a text as the integer that it writes
/// out: behind `0x` in base sixteen, else in base ten. Nothing else is read as
/// an integer.
pub proof fn law_integer_read(n: u64, m: i64, s: Seq<char>, items: Seq<Json>, members: Seq<(Seq<char>, Json)>, b: bool)
    ensures
        i64_of(Json::PosInt(n)) == (if n <= i64::MAX {
            Some(n as i64)
        } else {
            None
        }),
        i64_of(Json::NegInt(m)) == Some(m),
        i64_of(Json::Text("0x"@ + s)) == i64_text(s, 16),
        !(s.len() >= 2 && s[0] == '0' && s[1] == 'x') ==> i64_of(Json::Text(s)) == i64_text(s, 10),
        i64_of(Json::Null) is None,
        i64_of(Json::Bool(b)) is None,
        i64_of(Json::Float(s)) is None,
        i64_of(Json::Array(items)) is None,
        i64_of(Json::Object(members)) is None,
{
    reveal_strlit("0x");
    let t = "0x"@ + s;
    assert(t.skip(2) =~= s);
    assert(t[1] == 'x');
    assert(digit_value(t[1], 10) is None);
    assert(!all_digits(t, 10));
}

proof fn lemma_byte_count(items: Seq<Json>, k: int)
    requires
        0 <= k <= items.len(),
        forall|j: int| 0 <= j < k ==> is_byte(#[trigger] items[j]),
        k < items.len() ==> !is_byte(items[k]),
    ensures
        byte_count(items) == k,
    decreases k,
{
    if k > 0 {
        let rest = items.skip(1);
        assert(is_byte(items[0]));
        assert forall|j: int| 0 <= j < k - 1 implies is_byte(#[trigger] rest[j]) by {
            assert(rest[j] == items[j + 1]);
        }
        lemma_byte_count(rest, k - 1);
    }
}

/// An array of integers from 0 to 255 is read as those bytes; another one is
/// refused at its first item that is none, here that at `k`.
pub proof fn law_byte_array_read(items: Seq<Json>, b: Seq<u8>, k: int)
    requires
        0 <= k <= items.len(),
        k <= b.len(),
        forall|j: int| 0 <= j < k ==> #[trigger] items[j] == Json::PosInt(b[j] as u64),
    ensures
        k == items.len() && k == b.len() ==> bytes_of(Json::Array(items)) == Ok::<Seq<u8>, BytesError>(b),
        k < items.len() <= usize::MAX && !(exists|n: u64| n <= 255 && items[k] == Json::PosInt(n)) ==> bytes_of(
            Json::Array(items),
        ) == Err::<Seq<u8>, BytesError>(BytesError::Element(k as usize)),
{
    assert forall|j: int| 0 <= j < k implies is_byte(#[trigger] items[j]) by {}
    if k == items.len() {
        lemma_byte_count(items, k);
        if k == b.len() {
            assert(items.map_values(|item: Json| item.as_u64()->0 as u8) =~= b);
        }
    } else if !is_byte(items[k]) {
        lemma_byte_count(items, k);
    } else {
        assert(items[k] == Json::PosInt(items[k].as_u64()->0));
    }
}

/// What is neither a text nor an array is not read as bytes.
pub proof fn law_no_bytes(value: Json)
    requires
        !(value is Text),
        !(value is Array),
    ensures
        bytes_of(value) == Err::<Seq<u8>, BytesError>(BytesError::NotBytes),
{
}

/// Whether `c` is a hexadecimal digit, letters in lower case.
pub open spec fn is_lower_hex(c: char) -> bool {
    '0' <= c <= '9' || 'a' <= c <= 'f'
}

proof fn lemma_char_number(c: char)
    ensures
        c as u32 as int == c as int,
{
}

proof fn lemma_encoded_ascii(chars: Seq<char>)
    requires
        forall|i: int| 0 <= i < encode_utf8(chars).len() ==> #[trigger] encode_utf8(chars)[i] < 128,
    ensures
        is_ascii_chars(chars),
    decreases chars.len(),
{
    if chars.len() > 0 {
        let bytes = encode_utf8(chars);
        let rest = chars.drop_first();
        let c = chars[0] as u32;
        let front = encode_scalar(c);
        assert(bytes == front + encode_utf8(rest));
        assert(bytes[0] == front[0]);
        assert(bytes[0] < 128);
        assert(0xC0u8 | ((c >> 6) & 0x1F) as u8 >= 128) by (bit_vector);
        assert(0xE0u8 | ((c >> 12) & 0x0F) as u8 >= 128) by (bit_vector);
        assert(0xF0u8 | ((c >> 18) & 0x7) as u8 >= 128) by (bit_vector);
        char_is_scalar(chars[0]);
        assert(has_width_1_encoding(c));
        assert(c <= 0x7f);
        assert forall|i: int| 0 <= i < encode_utf8(rest).len() implies #[trigger] encode_utf8(rest)[i]
            < 128 by {
            assert(bytes[front.len() + i] == encode_utf8(rest)[i]);
        }
        lemma_encoded_ascii(rest);
        assert forall|i: int| 0 <= i < chars.len() implies '\0' <= #[trigger] chars[i] <= '\u{7f}' by {
            if i > 0 {
                assert(chars[i] == rest[i - 1]);
                assert('\0' <= rest[i - 1] <= '\u{7f}');
            } else {
                lemma_char_number(chars[0]);
            }
        }
    }
}

proof fn lemma_hex_prefix_all(text: Seq<u8>)
    requires
        hex_prefix_len(text) >= text.len(),
    ensures
        forall|i: int| 0 <= i < text.len() ==> hex_value(#[trigger] text[i]) is Some,
    decreases text.len(),
{
    if text.len() > 0 {
        let rest = text.skip(1);
        lemma_hex_prefix_all(rest);
        assert forall|i: int| 0 <= i < text.len() implies hex_value(#[trigger] text[i]) is Some by {
            if i > 0 {
                assert(text[i] == rest[i - 1]);
            }
        }
    }
}

/// A text is read as bytes exactly where there is nothing but hexadecimal
/// digits in its normal form. A missing first digit is a zero: with it in front
/// a text of an odd number of digits is read as the same bytes.
pub proof fn law_hex_digits_only(s: Seq<char>)
    ensures
        hex_bytes(s) is Ok <==> forall|i: int|
            0 <= i < normalized_hex(s).len() ==> is_lower_hex(#[trigger] normalized_hex(s)[i]),
        hex_bytes(s) is Ok && normalized_hex(s).len() % 2 == 1 ==> hex_bytes(s) == hex_bytes(
            "0x0"@ + normalized_hex(s),
        ),
        hex_bytes(s) is Ok ==> hex_bytes(s)->Ok_0.len() == (normalized_hex(s).len() + 1) / 2,
{
    let t = normalized_hex(s);
    let text = encode_utf8(t);
    let whole = padded(text);
    if hex_bytes(s) is Ok {
        lemma_hex_prefix_all(whole);
        assert forall|i: int| 0 <= i < text.len() implies #[trigger] text[i] < 128 && hex_value(
            text[i],
        ) is Some by {
            if text.len() % 2 == 0 {
                assert(whole[i] == text[i]);
            } else {
                assert(whole[i + 1] == text[i]);
            }
        }
        lemma_encoded_ascii(t);
        is_ascii_chars_encode_utf8(t);
        assert forall|i: int| 0 <= i < t.len() implies is_lower_hex(#[trigger] t[i]) by {
            assert(text[i] == t[i] as u8);
            assert(hex_value(text[i]) is Some);
            lemma_normalized_lower(s, i);
        }
        if t.len() % 2 == 1 {
            reveal_strlit("0x0");
            let u = "0x0"@ + t;
            let v = seq!['0'] + t;
            assert(u.skip(2) =~= v);
            assert forall|i: int| 0 <= i < v.len() implies ascii_lower(#[trigger] v[i]) == v[i] by {
                if i > 0 {
                    lemma_normalized_lower(s, i - 1);
                }
            }
            assert(normalized_hex(u) =~= v);
            assert(is_ascii_chars(v));
            is_ascii_chars_encode_utf8(v);
            assert(encode_utf8(v) =~= whole);
        }
    }
    if forall|i: int| 0 <= i < t.len() ==> is_lower_hex(#[trigger] t[i]) {
        assert(is_ascii_chars(t));
        is_ascii_chars_encode_utf8(t);
        assert forall|i: int| 0 <= i < whole.len() implies hex_value(#[trigger] whole[i]) is Some by {
            let k = if text.len() % 2 == 0 { i } else { i - 1 };
            if k >= 0 {
                assert(whole[i] == text[k]);
                assert(text[k] == t[k] as u8);
                assert(is_lower_hex(t[k]));
            }
        }
        lemma_hex_digits(whole);
    }
}

proof fn lemma_normalized_lower(s: Seq<char>, i: int)
    requires
        0 <= i < normalized_hex(s).len(),
    ensures
        !('A' <= normalized_hex(s)[i] <= 'Z'),
        ascii_lower(normalized_hex(s)[i]) == normalized_hex(s)[i],
{
}

} // verus!

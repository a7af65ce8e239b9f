//! The headers that go with every call.
use graph_chain_aztec::headers::{default_headers, HeadersError};

fn pairs(headers: &[(&str, &str)]) -> Vec<(String, String)> {
    headers.iter().map(|(n, v)| (n.to_string(), v.to_string())).collect()
}

#[test]
fn later_headers_take_the_place_of_earlier_ones() {
    let map = default_headers(&pairs(&[("X-Key", "one"), ("accept", "a/b"), ("x-key", "two\tthree")])).unwrap();
    assert_eq!(map.len(), 2);
    assert_eq!(map.get("x-key").unwrap().as_bytes(), b"two\tthree");
    assert_eq!(map.get("accept").unwrap().as_bytes(), b"a/b");
    assert_eq!(map.keys().filter(|name| name.as_str() == "x-key").count(), 1);
    assert!(default_headers(&vec![]).unwrap().is_empty());
}

#[test]
fn values_are_kept_as_bytes() {
    let map = default_headers(&pairs(&[("a", "\u{e9}\u{20ac}"), ("b", "")])).unwrap();
    assert_eq!(map.get("a").unwrap().as_bytes(), "\u{e9}\u{20ac}".as_bytes());
    assert_eq!(map.get("b").unwrap().as_bytes(), b"");
}

#[test]
fn names_and_values_that_cannot_be_sent_are_refused() {
    assert_eq!(
        default_headers(&pairs(&[("ok", "v"), ("no good", "v"), ("", "v")])).err(),
        Some(HeadersError::InvalidName("no good".to_string())),
    );
    assert_eq!(
        default_headers(&pairs(&[("", "v")])).err(),
        Some(HeadersError::InvalidName(String::new())),
    );
    assert_eq!(
        default_headers(&pairs(&[("ok", "line\nbreak")])).err(),
        Some(HeadersError::InvalidValue("ok".to_string())),
    );
    assert_eq!(
        default_headers(&pairs(&[("n\u{e9}", "v")])).err(),
        Some(HeadersError::InvalidName("n\u{e9}".to_string())),
    );
}

#[test]
fn names_are_made_of_token_characters() {
    for b in 0..128u8 {
        let c = b as char;
        let allowed = c.is_ascii_alphanumeric() || "!#$%&'*+-.^_`|~".contains(c);
        let made = default_headers(&vec![(c.to_string(), String::new())]);
        assert_eq!(made.is_ok(), allowed, "{:?}", c);
        let longer = default_headers(&vec![(format!("x-{}-y", c), String::new())]);
        assert_eq!(longer.is_ok(), allowed, "{:?}", c);
    }
}

#[test]
fn values_have_no_control_characters_but_tabs() {
    for b in 0..128u8 {
        let c = b as char;
        let made = default_headers(&vec![("a".to_string(), c.to_string())]);
        assert_eq!(made.is_ok(), c == '\t' || !c.is_control(), "{:?}", c);
    }
}

#[test]
fn names_have_a_length() {
    let long = "a".repeat(65535);
    assert!(default_headers(&vec![(long.clone(), String::new())]).is_ok());
    let longer = "a".repeat(65536);
    assert_eq!(
        default_headers(&vec![(longer.clone(), String::new())]).err(),
        Some(HeadersError::InvalidName(longer)),
    );
}

#[test]
fn many_headers_with_one_name_fit() {
    let same: Vec<(String, String)> = (0..10_000).map(|i| ("h".to_string(), i.to_string())).collect();
    let map = default_headers(&same).unwrap();
    assert_eq!(map.len(), 1);
    assert_eq!(map.get("h").unwrap().as_bytes(), b"9999");
    let mut faulty = same;
    faulty[0].0 = "no good".to_string();
    assert_eq!(default_headers(&faulty).err(), Some(HeadersError::InvalidName("no good".to_string())));
}

#[test]
fn many_headers_fit() {
    let many: Vec<(String, String)> = (0..6553).map(|i| (format!("h{}", i), i.to_string())).collect();
    let map = default_headers(&many).unwrap();
    assert_eq!(map.len(), 6553);
    assert_eq!(map.get("h6552").unwrap().as_bytes(), b"6552");
    let more: Vec<(String, String)> = (0..40000).map(|i| (format!("h{}", i), String::new())).collect();
    assert_eq!(default_headers(&more).err(), Some(HeadersError::TooMany));
}

//! Blocks as Firehose sends them, held against the `prost` runtime.
use graph_chain_aztec::codec::{Block, BlockHeader, PublicLog};
use graph_chain_aztec::wire::{WireError, WireType};
use prost::bytes::{Buf, BufMut};
use prost::encoding::{self, DecodeContext};
use prost::{DecodeError, Message};

#[derive(Clone, Debug, Default, PartialEq)]
struct Header {
    number: i64,
    hash: Vec<u8>,
    parent_hash: Vec<u8>,
    timestamp: i64,
    final_block_number: i64,
}

#[derive(Clone, Debug, Default, PartialEq)]
struct Log {
    contract_address: Vec<u8>,
    tag: Vec<u8>,
    fields: Vec<Vec<u8>>,
    tx_hash: Vec<u8>,
    log_index: u32,
}

#[derive(Clone, Debug, Default, PartialEq)]
struct Reference {
    header: Option<Header>,
    public_logs: Vec<Log>,
}

fn put_int64(tag: u32, value: i64, buf: &mut impl BufMut) {
    if value != 0 {
        encoding::int64::encode(tag, &value, buf);
    }
}

fn put_bytes(tag: u32, value: &Vec<u8>, buf: &mut impl BufMut) {
    if !value.is_empty() {
        encoding::bytes::encode(tag, value, buf);
    }
}

fn int64_len(tag: u32, value: i64) -> usize {
    if value == 0 { 0 } else { encoding::int64::encoded_len(tag, &value) }
}

fn bytes_len(tag: u32, value: &Vec<u8>) -> usize {
    if value.is_empty() { 0 } else { encoding::bytes::encoded_len(tag, value) }
}

impl Message for Header {
    fn encode_raw(&self, buf: &mut impl BufMut) {
        put_int64(1, self.number, buf);
        put_bytes(2, &self.hash, buf);
        put_bytes(3, &self.parent_hash, buf);
        put_int64(4, self.timestamp, buf);
        put_int64(5, self.final_block_number, buf);
    }

    fn merge_field(
        &mut self,
        tag: u32,
        wire_type: encoding::WireType,
        buf: &mut impl Buf,
        ctx: DecodeContext,
    ) -> Result<(), DecodeError> {
        match tag {
            1 => encoding::int64::merge(wire_type, &mut self.number, buf, ctx),
            2 => encoding::bytes::merge(wire_type, &mut self.hash, buf, ctx),
            3 => encoding::bytes::merge(wire_type, &mut self.parent_hash, buf, ctx),
            4 => encoding::int64::merge(wire_type, &mut self.timestamp, buf, ctx),
            5 => encoding::int64::merge(wire_type, &mut self.final_block_number, buf, ctx),
            _ => encoding::skip_field(wire_type, tag, buf, ctx),
        }
    }

    fn encoded_len(&self) -> usize {
        int64_len(1, self.number)
            + bytes_len(2, &self.hash)
            + bytes_len(3, &self.parent_hash)
            + int64_len(4, self.timestamp)
            + int64_len(5, self.final_block_number)
    }

    fn clear(&mut self) {
        *self = Header::default();
    }
}

impl Message for Log {
    fn encode_raw(&self, buf: &mut impl BufMut) {
        put_bytes(1, &self.contract_address, buf);
        put_bytes(2, &self.tag, buf);
        encoding::bytes::encode_repeated(3, &self.fields, buf);
        put_bytes(4, &self.tx_hash, buf);
        if self.log_index != 0 {
            encoding::uint32::encode(5, &self.log_index, buf);
        }
    }

    fn merge_field(
        &mut self,
        tag: u32,
        wire_type: encoding::WireType,
        buf: &mut impl Buf,
        ctx: DecodeContext,
    ) -> Result<(), DecodeError> {
        match tag {
            1 => encoding::bytes::merge(wire_type, &mut self.contract_address, buf, ctx),
            2 => encoding::bytes::merge(wire_type, &mut self.tag, buf, ctx),
            3 => encoding::bytes::merge_repeated(wire_type, &mut self.fields, buf, ctx),
            4 => encoding::bytes::merge(wire_type, &mut self.tx_hash, buf, ctx),
            5 => encoding::uint32::merge(wire_type, &mut self.log_index, buf, ctx),
            _ => encoding::skip_field(wire_type, tag, buf, ctx),
        }
    }

    fn encoded_len(&self) -> usize {
        bytes_len(1, &self.contract_address)
            + bytes_len(2, &self.tag)
            + encoding::bytes::encoded_len_repeated(3, &self.fields)
            + bytes_len(4, &self.tx_hash)
            + if self.log_index == 0 { 0 } else { encoding::uint32::encoded_len(5, &self.log_index) }
    }

    fn clear(&mut self) {
        *self = Log::default();
    }
}

impl Message for Reference {
    fn encode_raw(&self, buf: &mut impl BufMut) {
        if let Some(header) = &self.header {
            encoding::message::encode(1, header, buf);
        }
        encoding::message::encode_repeated(2, &self.public_logs, buf);
    }

    fn merge_field(
        &mut self,
        tag: u32,
        wire_type: encoding::WireType,
        buf: &mut impl Buf,
        ctx: DecodeContext,
    ) -> Result<(), DecodeError> {
        match tag {
            1 => {
                let header = self.header.get_or_insert_with(Header::default);
                encoding::message::merge(wire_type, header, buf, ctx)
            }
            2 => encoding::message::merge_repeated(wire_type, &mut self.public_logs, buf, ctx),
            _ => encoding::skip_field(wire_type, tag, buf, ctx),
        }
    }

    fn encoded_len(&self) -> usize {
        self.header.as_ref().map_or(0, |h| encoding::message::encoded_len(1, h))
            + encoding::message::encoded_len_repeated(2, &self.public_logs)
    }

    fn clear(&mut self) {
        *self = Reference::default();
    }
}

fn block_of(reference: &Reference) -> Block {
    Block {
        header: reference.header.as_ref().map(|h| BlockHeader {
            number: h.number,
            hash: h.hash.clone(),
            parent_hash: h.parent_hash.clone(),
            timestamp: h.timestamp,
            final_block_number: h.final_block_number,
        }),
        public_logs: reference
            .public_logs
            .iter()
            .map(|l| PublicLog {
                contract_address: l.contract_address.clone(),
                tag: l.tag.clone(),
                fields: l.fields.clone(),
                tx_hash: l.tx_hash.clone(),
                log_index: l.log_index,
            })
            .collect(),
    }
}

fn wire_name(wire_type: WireType) -> encoding::WireType {
    match wire_type {
        WireType::Varint => encoding::WireType::Varint,
        WireType::SixtyFourBit => encoding::WireType::SixtyFourBit,
        WireType::LengthDelimited => encoding::WireType::LengthDelimited,
        WireType::StartGroup => encoding::WireType::StartGroup,
        WireType::EndGroup => encoding::WireType::EndGroup,
        WireType::ThirtyTwoBit => encoding::WireType::ThirtyTwoBit,
    }
}

fn message(error: WireError) -> String {
    let cause = match error {
        WireError::InvalidVarint => "invalid varint".to_string(),
        WireError::InvalidKey(key) => format!("invalid key value: {}", key),
        WireError::InvalidWireType(n) => format!("invalid wire type value: {}", n),
        WireError::InvalidTag => "invalid tag value: 0".to_string(),
        WireError::UnexpectedWireType { actual, expected } => {
            format!("invalid wire type: {:?} (expected {:?})", wire_name(actual), wire_name(expected))
        }
        WireError::BufferUnderflow => "buffer underflow".to_string(),
        WireError::DelimitedLengthExceeded => "delimited length exceeded".to_string(),
        WireError::UnexpectedEndGroupTag => "unexpected end group tag".to_string(),
        WireError::RecursionLimitReached => "recursion limit reached".to_string(),
    };
    format!("failed to decode Protobuf message: {}", cause)
}

/// Reads `bytes` both ways and says whether they are a block.
fn agree(bytes: &[u8]) -> bool {
    match (Block::decode(bytes), Reference::decode(bytes)) {
        (Ok(block), Ok(reference)) => {
            assert_eq!(block, block_of(&reference), "{:?}", bytes);
            true
        }
        (Err(error), Err(expected)) => {
            assert_eq!(message(error), expected.to_string(), "{:?}", bytes);
            false
        }
        (ours, theirs) => panic!("{:?} reads as {:?} and as {:?}", bytes, ours, theirs),
    }
}

fn sample() -> Reference {
    Reference {
        header: Some(Header {
            number: 4_000_000_000,
            hash: vec![7; 32],
            parent_hash: vec![6; 32],
            timestamp: -1,
            final_block_number: 3,
        }),
        public_logs: vec![
            Log {
                contract_address: vec![1, 2, 3],
                tag: vec![4],
                fields: vec![vec![4], vec![], vec![5; 200]],
                tx_hash: vec![9; 32],
                log_index: 70_000,
            },
            Log::default(),
        ],
    }
}

#[test]
fn written_blocks_are_read_back() {
    for reference in [
        sample(),
        Reference::default(),
        Reference { header: Some(Header::default()), public_logs: vec![] },
        Reference { header: None, public_logs: vec![Log { log_index: u32::MAX, ..Log::default() }] },
        Reference {
            header: Some(Header { number: i64::MIN, timestamp: i64::MAX, ..Header::default() }),
            public_logs: vec![],
        },
    ] {
        let bytes = reference.encode_to_vec();
        assert_eq!(Block::decode(&bytes), Ok(block_of(&reference)));
        assert!(agree(&bytes));
    }
}

#[test]
fn a_block_by_hand() {
    // Field 1: a header of number 5 and hash [0xaa]; field 2: a log with index 1.
    let bytes = [0x0a, 0x05, 0x08, 0x05, 0x12, 0x01, 0xaa, 0x12, 0x02, 0x28, 0x01];
    let block = Block::decode(&bytes).unwrap();
    assert_eq!(block.header().number, 5);
    assert_eq!(block.header().hash, vec![0xaa]);
    assert_eq!(block.header().parent_hash, Vec::<u8>::new());
    assert_eq!(block.public_logs.len(), 1);
    assert_eq!(block.public_logs[0].log_index, 1);
}

#[test]
fn headers_in_pieces_are_put_together() {
    // Number 5, then a second header with timestamp 6 and number 7.
    let bytes = [0x0a, 0x02, 0x08, 0x05, 0x0a, 0x04, 0x20, 0x06, 0x08, 0x07];
    assert!(agree(&bytes));
    let block = Block::decode(&bytes).unwrap();
    assert_eq!(block.header().number, 7);
    assert_eq!(block.header().timestamp, 6);
}

#[test]
fn numbers_of_ten_bytes_are_the_longest() {
    let mut bytes = vec![0x0a, 0x0b, 0x08];
    bytes.extend([0xff; 9]);
    bytes.push(0x01);
    assert!(agree(&bytes));
    assert_eq!(Block::decode(&bytes).unwrap().header().number, -1);
    *bytes.last_mut().unwrap() = 0x02;
    assert_eq!(Block::decode(&bytes), Err(WireError::InvalidVarint));
    assert!(!agree(&bytes));
    *bytes.last_mut().unwrap() = 0x81;
    bytes.push(0x00);
    assert_eq!(Block::decode(&bytes), Err(WireError::InvalidVarint));
    assert!(!agree(&bytes));
    // Of a number that is too large for an index the low bits count.
    assert!(agree(&[0x12, 0x06, 0x28, 0x81, 0x80, 0x80, 0x80, 0x10]));
}

#[test]
fn each_fault_has_its_error() {
    let cases: Vec<(Vec<u8>, WireError)> = vec![
        (vec![0x80], WireError::InvalidVarint),
        (vec![0x88, 0x80, 0x80, 0x80, 0x10], WireError::InvalidKey(0x1_0000_0008)),
        (vec![0x0e], WireError::InvalidWireType(6)),
        (vec![0x0f], WireError::InvalidWireType(7)),
        (vec![0x00], WireError::InvalidTag),
        (
            vec![0x08, 0x01],
            WireError::UnexpectedWireType {
                actual: WireType::Varint,
                expected: WireType::LengthDelimited,
            },
        ),
        (
            vec![0x0a, 0x01, 0x0a],
            WireError::UnexpectedWireType {
                actual: WireType::LengthDelimited,
                expected: WireType::Varint,
            },
        ),
        (vec![0x0a, 0x03, 0x08], WireError::BufferUnderflow),
        (vec![0x0a, 0x02, 0x12, 0x01, 0x00], WireError::DelimitedLengthExceeded),
        (vec![0x1c], WireError::UnexpectedEndGroupTag),
        (vec![0x1b, 0x24], WireError::UnexpectedEndGroupTag),
        (vec![0x1b; 101], WireError::RecursionLimitReached),
    ];
    for (bytes, error) in cases {
        assert_eq!(Block::decode(&bytes), Err(error), "{:?}", bytes);
        assert!(!agree(&bytes));
    }
}

#[test]
fn unknown_fields_are_skipped() {
    let known = sample().encode_to_vec();
    let unknown: Vec<Vec<u8>> = vec![
        vec![0x18, 0x96, 0x01],
        vec![0x1d, 1, 2, 3, 4],
        vec![0x19, 1, 2, 3, 4, 5, 6, 7, 8],
        vec![0x1a, 0x02, 0xff, 0xff],
        vec![0x1b, 0x20, 0x05, 0x2b, 0x2c, 0x1c],
    ];
    for field in unknown {
        let mut bytes = field.clone();
        bytes.extend(&known);
        bytes.extend(&field);
        assert!(agree(&bytes));
        assert_eq!(Block::decode(&bytes), Ok(block_of(&sample())));
    }
}

#[test]
fn groups_nest_as_deep_as_the_limit() {
    for depth in [1usize, 50, 98, 99, 100, 101, 102, 150] {
        let mut groups = vec![0x33; depth];
        groups.extend(vec![0x34; depth]);
        agree(&groups);
        // The same inside a header and inside a log.
        for field in [0x0a, 0x12] {
            let mut bytes = vec![field];
            encoding::encode_varint(groups.len() as u64, &mut bytes);
            bytes.extend(&groups);
            agree(&bytes);
        }
    }
}

#[test]
fn damaged_blocks_are_read_alike() {
    let original = sample().encode_to_vec();
    let mut seed: u64 = 0x9e37_79b9_7f4a_7c15;
    let mut next = move |bound: usize| {
        seed = seed.wrapping_mul(6364136223846793005).wrapping_add(1442695040888963407);
        ((seed >> 33) as usize) % bound
    };
    let mut blocks: usize = 0;
    for _ in 0..20_000 {
        let mut bytes = original.clone();
        for _ in 0..1 + next(3) {
            let at = next(bytes.len());
            match next(4) {
                0 => bytes[at] = next(256) as u8,
                1 => bytes.insert(at, next(256) as u8),
                2 => {
                    if bytes.len() > 1 {
                        bytes.remove(at);
                    }
                }
                _ => bytes.truncate(at + 1),
            }
        }
        if agree(&bytes) {
            blocks += 1;
        }
    }
    assert!(blocks > 100);
}

#[test]
fn short_inputs_are_read_alike() {
    for a in 0..=255u8 {
        agree(&[a]);
        for b in 0..=255u8 {
            agree(&[a, b]);
            agree(&[0x0a, 0x02, a, b]);
            agree(&[0x12, 0x02, a, b, 0x00]);
            agree(&[a, 0x02, b, 0x00, 0x01]);
        }
    }
}

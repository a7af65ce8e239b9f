//! Blocks, their headers and the public logs in them.
use vstd::prelude::*;
use crate::hexadecimal::{hex_digit, hex_encode, hex_text};
use crate::text::chars_of;

verus! {

/// A block number.
pub type BlockNumber = i32;

/// A block: its header and the public logs of its transactions.
#[derive(Debug, PartialEq, Eq, Default)]
pub struct Block {
    pub header: Option<BlockHeader>,
    pub public_logs: Vec<PublicLog>,
}

/// A block without its logs.
#[derive(Debug, PartialEq, Eq, Default)]
pub struct HeaderOnlyBlock {
    pub header: Option<BlockHeader>,
}

/// What identifies a block and links it to its parent.
#[derive(Debug, PartialEq, Eq, Default)]
pub struct BlockHeader {
    pub number: i64,
    pub hash: Vec<u8>,
    pub parent_hash: Vec<u8>,
    pub timestamp: i64,
    pub final_block_number: i64,
}

/// A log that a contract emitted in public.
#[derive(Debug, PartialEq, Eq, Default)]
pub struct PublicLog {
    pub contract_address: Vec<u8>,
    pub tag: Vec<u8>,
    pub fields: Vec<Vec<u8>>,
    pub tx_hash: Vec<u8>,
    pub log_index: u32,
}

/// The hash of a block.
#[derive(Debug)]
pub struct BlockHash(pub Vec<u8>);

/// A block by its hash and number.
#[derive(Debug)]
pub struct BlockPtr {
    pub hash: BlockHash,
    pub number: BlockNumber,
}

/// A point in time, since the epoch.
#[derive(Clone, Copy, Debug, PartialEq, Eq, Structural)]
pub struct BlockTime {
    pub seconds: i64,
    pub nanos: u32,
}

/// The mathematical model of a `BlockHeader`.
pub struct HeaderView {
    pub number: i64,
    pub hash: Seq<u8>,
    pub parent_hash: Seq<u8>,
    pub timestamp: i64,
    pub final_block_number: i64,
}

/// The mathematical model of a `PublicLog`.
pub struct LogView {
    pub contract_address: Seq<u8>,
    pub tag: Seq<u8>,
    pub fields: Seq<Seq<u8>>,
    pub tx_hash: Seq<u8>,
    pub log_index: u32,
}

/// The mathematical model of a `Block`.
pub struct BlockView {
    pub header: Option<HeaderView>,
    pub public_logs: Seq<LogView>,
}

/// The mathematical model of a `BlockPtr`.
pub struct PtrView {
    pub hash: Seq<u8>,
    pub number: i32,
}

impl View for BlockHeader {
    type V = HeaderView;

    open spec fn view(&self) -> HeaderView {
        HeaderView {
            number: self.number,
            hash: self.hash@,
            parent_hash: self.parent_hash@,
            timestamp: self.timestamp,
            final_block_number: self.final_block_number,
        }
    }
}

/// The bytes of each of `parts`, in order.
pub open spec fn byte_strings(parts: Seq<Vec<u8>>) -> Seq<Seq<u8>> {
    parts.map_values(|p: Vec<u8>| p@)
}

impl View for PublicLog {
    type V = LogView;

    open spec fn view(&self) -> LogView {
        LogView {
            contract_address: self.contract_address@,
            tag: self.tag@,
            fields: byte_strings(self.fields@),
            tx_hash: self.tx_hash@,
            log_index: self.log_index,
        }
    }
}

/// The models of `logs`, in order.
pub open spec fn log_views(logs: Seq<PublicLog>) -> Seq<LogView> {
    logs.map_values(|l: PublicLog| l@)
}

/// The model of a header that may be missing.
pub open spec fn header_view(header: Option<BlockHeader>) -> Option<HeaderView> {
    match header {
        Some(h) => Some(h@),
        None => None,
    }
}

impl View for Block {
    type V = BlockView;

    open spec fn view(&self) -> BlockView {
        BlockView { header: header_view(self.header), public_logs: log_views(self.public_logs@) }
    }
}

impl View for HeaderOnlyBlock {
    type V = Option<HeaderView>;

    open spec fn view(&self) -> Option<HeaderView> {
        header_view(self.header)
    }
}

impl View for BlockHash {
    type V = Seq<u8>;

    open spec fn view(&self) -> Seq<u8> {
        self.0@
    }
}

impl View for BlockPtr {
    type V = PtrView;

    open spec fn view(&self) -> PtrView {
        PtrView { hash: self.hash@, number: self.number }
    }
}

/// The model of a pointer that may be missing.
pub open spec fn ptr_view(ptr: Option<BlockPtr>) -> Option<PtrView> {
    match ptr {
        Some(p) => Some(p@),
        None => None,
    }
}

/// A copy of `bytes`.
pub(crate) fn copy_bytes(bytes: &Vec<u8>) -> (r: Vec<u8>)
    ensures
        r@ == bytes@,
{
    let r = bytes.clone();
    assert(r@ =~= bytes@);
    r
}

/// Whether `a` and `b` hold the same bytes.
pub(crate) fn same_bytes(a: &Vec<u8>, b: &Vec<u8>) -> (r: bool)
    ensures
        r == (a@ == b@),
{
    let r = *a == *b;
    proof {
        if r {
            assert(a@ =~= b@);
        }
    }
    r
}

impl Clone for BlockHeader {
    fn clone(&self) -> (r: Self)
        ensures
            r@ == self@,
    {
        BlockHeader {
            number: self.number,
            hash: copy_bytes(&self.hash),
            parent_hash: copy_bytes(&self.parent_hash),
            timestamp: self.timestamp,
            final_block_number: self.final_block_number,
        }
    }
}

impl Clone for PublicLog {
    fn clone(&self) -> (r: Self)
        ensures
            r@ == self@,
    {
        let mut fields: Vec<Vec<u8>> = Vec::new();
        let mut i: usize = 0;
        while i < self.fields.len()
            invariant
                i <= self.fields@.len(),
                fields@.len() == i,
                forall|k: int| 0 <= k < i ==> (#[trigger] fields@[k])@ == self.fields@[k]@,
            decreases self.fields@.len() - i,
        {
            fields.push(copy_bytes(&self.fields[i]));
            i += 1;
        }
        assert(byte_strings(fields@) == byte_strings(self.fields@));
        PublicLog {
            contract_address: copy_bytes(&self.contract_address),
            tag: copy_bytes(&self.tag),
            fields,
            tx_hash: copy_bytes(&self.tx_hash),
            log_index: self.log_index,
        }
    }
}

impl Clone for Block {
    fn clone(&self) -> (r: Self)
        ensures
            r@ == self@,
    {
        let mut public_logs: Vec<PublicLog> = Vec::new();
        let mut i: usize = 0;
        while i < self.public_logs.len()
            invariant
                i <= self.public_logs@.len(),
                public_logs@.len() == i,
                forall|k: int| 0 <= k < i ==> (#[trigger] public_logs@[k])@ == self.public_logs@[k]@,
            decreases self.public_logs@.len() - i,
        {
            public_logs.push(self.public_logs[i].clone());
            i += 1;
        }
        assert(log_views(public_logs@) == log_views(self.public_logs@));
        let header = match &self.header {
            Some(h) => Some(h.clone()),
            None => None,
        };
        Block { header, public_logs }
    }
}

impl Clone for HeaderOnlyBlock {
    fn clone(&self) -> (r: Self)
        ensures
            r@ == self@,
    {
        let header = match &self.header {
            Some(h) => Some(h.clone()),
            None => None,
        };
        HeaderOnlyBlock { header }
    }
}

impl Clone for BlockHash {
    fn clone(&self) -> (r: Self)
        ensures
            r@ == self@,
    {
        BlockHash(copy_bytes(&self.0))
    }
}

impl Clone for BlockPtr {
    fn clone(&self) -> (r: Self)
        ensures
            r@ == self@,
    {
        BlockPtr { hash: self.hash.clone(), number: self.number }
    }
}

impl PartialEq for BlockHash {
    fn eq(&self, other: &Self) -> (r: bool) {
        same_bytes(&self.0, &other.0)
    }
}

impl vstd::std_specs::cmp::PartialEqSpecImpl for BlockHash {
    open spec fn obeys_eq_spec() -> bool {
        true
    }

    open spec fn eq_spec(&self, other: &Self) -> bool {
        self@ == other@
    }
}

impl Eq for BlockHash {

}

impl PartialEq for BlockPtr {
    fn eq(&self, other: &Self) -> (r: bool) {
        self.number == other.number && self.hash == other.hash
    }
}

impl vstd::std_specs::cmp::PartialEqSpecImpl for BlockPtr {
    open spec fn obeys_eq_spec() -> bool {
        true
    }

    open spec fn eq_spec(&self, other: &Self) -> bool {
        self@ == other@
    }
}

impl Eq for BlockPtr {

}

/// `n` bytes that are zero.
pub open spec fn zeros(n: nat) -> Seq<u8> {
    Seq::new(n, |i: int| 0u8)
}

/// The last 32 of `bytes`, filled up with zeros at the front.
pub open spec fn word(bytes: Seq<u8>) -> Seq<u8> {
    if bytes.len() >= 32 {
        bytes.skip(bytes.len() - 32)
    } else {
        zeros((32 - bytes.len()) as nat) + bytes
    }
}

impl BlockHash {
    /// The hash whose 32 bytes are all zero.
    pub fn zero() -> (r: Self)
        ensures
            r@ == zeros(32),
    {
        BlockHash(vec![0u8; 32])
    }

    /// The hash in lower-case hexadecimal digits.
    pub fn hash_hex(&self) -> (r: String)
        ensures
            r@ == hex_text(self@),
    {
        hex_encode(self.0.as_slice())
    }
}

/// The 32 bytes that `bytes` stands for as a hash: of more bytes the last 32,
/// of fewer all of them behind zeros.
pub fn hash_to_b256(bytes: &[u8]) -> (r: BlockHash)
    ensures
        r@ == word(bytes@),
{
    let mut hash: Vec<u8> = Vec::new();
    let skip: usize = if bytes.len() >= 32 { bytes.len() - 32 } else { 0 };
    while hash.len() + (bytes.len() - skip) < 32
        invariant
            skip == (if bytes@.len() >= 32 { bytes@.len() - 32 } else { 0 }),
            hash@.len() + (bytes@.len() - skip) <= 32,
            hash@ == zeros(hash@.len()),
        decreases 32 - hash@.len(),
    {
        hash.push(0u8);
    }
    let ghost front = hash@;
    let mut i: usize = skip;
    while i < bytes.len()
        invariant
            skip <= i <= bytes@.len(),
            hash@ == front + bytes@.subrange(skip as int, i as int),
        decreases bytes@.len() - i,
    {
        hash.push(bytes[i]);
        i += 1;
        assert(bytes@.subrange(skip as int, i as int) == bytes@.subrange(skip as int, i - 1).push(
            bytes@[i - 1],
        ));
    }
    assert(hash@ == word(bytes@));
    BlockHash(hash)
}

/// The lower-case letter for an upper-case ASCII letter, else `c`.
pub open spec fn ascii_lower(c: char) -> char {
    if 'A' <= c <= 'Z' {
        (c as int + 32) as char
    } else {
        c
    }
}

/// Whether `s` begins with `0x` or `0X`.
pub open spec fn has_hex_prefix(s: Seq<char>) -> bool {
    s.len() >= 2 && s[0] == '0' && (s[1] == 'x' || s[1] == 'X')
}

/// `s` without one leading `0x` or `0X`, its ASCII letters in lower case.
pub open spec fn normalized_hex(s: Seq<char>) -> Seq<char> {
    (if has_hex_prefix(s) {
        s.skip(2)
    } else {
        s
    }).map_values(|c: char| ascii_lower(c))
}

fn lower(c: char) -> (r: char)
    ensures
        r == ascii_lower(c),
{
    if 'A' <= c && c <= 'Z' {
        ((c as u8) + 32) as char
    } else {
        c
    }
}

/// `input` without one leading `0x` or `0X`, its ASCII letters in lower case.
pub fn normalize_hex(input: &str) -> (r: String)
    ensures
        r@ == normalized_hex(input@),
{
    let chars = chars_of(input);
    let skip: usize = if chars.len() >= 2 && chars[0] == '0' && (chars[1] == 'x' || chars[1] == 'X') {
        2
    } else {
        0
    };
    let mut r = String::new();
    let mut i: usize = skip;
    while i < chars.len()
        invariant
            chars@ == input@,
            skip == (if has_hex_prefix(input@) { 2int } else { 0 }),
            skip <= i <= chars@.len(),
            r@ == normalized_hex(input@).take(i - skip),
        decreases chars@.len() - i,
    {
        r.push(lower(chars[i]));
        i += 1;
        assert(r@ == normalized_hex(input@).take(i - skip));
    }
    assert(r@ == normalized_hex(input@));
    r
}

/// Encoded bytes are in the normal form already.
pub proof fn lemma_hex_text_normalized(bytes: Seq<u8>)
    ensures
        normalized_hex(hex_text(bytes)) == hex_text(bytes),
{
    let t = hex_text(bytes);
    assert forall|i: int| 0 <= i < t.len() implies ascii_lower(t[i]) == t[i] && t[i] != 'x' && t[i]
        != 'X' by {
        let b = bytes[i / 2];
        let n = if i % 2 == 0 { b as int / 16 } else { b as int % 16 };
        assert(0 <= n < 16);
        assert(t[i] == hex_digit(n));
    }
    assert(!has_hex_prefix(t));
    assert(normalized_hex(t) == t);
}

/// `bytes` in lower-case hexadecimal digits.
pub fn normalize_hex_bytes(bytes: &[u8]) -> (r: String)
    ensures
        r@ == hex_text(bytes@),
{
    proof {
        lemma_hex_text_normalized(bytes@);
    }
    normalize_hex(hex_encode(bytes).as_str())
}

impl HeaderView {
    /// Whether the number can be that of a block pointer.
    pub open spec fn number_fits(self) -> bool {
        0 <= self.number <= i32::MAX
    }

    /// The pointer to the block with this header.
    pub open spec fn ptr(self) -> PtrView {
        PtrView { hash: word(self.hash), number: self.number as i32 }
    }

    /// Whether the header names a parent: the first block has none.
    pub open spec fn has_parent(self) -> bool {
        self.number > 0 && self.parent_hash.len() > 0
    }

    /// Whether the parent, if the header names one, has a number that can be
    /// that of a block pointer.
    pub open spec fn parent_fits(self) -> bool {
        self.has_parent() ==> self.number - 1 <= i32::MAX
    }

    /// The pointer to the parent, if the header names one.
    pub open spec fn parent_ptr(self) -> Option<PtrView> {
        if self.has_parent() {
            Some(PtrView { hash: word(self.parent_hash), number: (self.number - 1) as i32 })
        } else {
            None
        }
    }

    /// The time of the block with this header.
    pub open spec fn time(self) -> BlockTime {
        BlockTime { seconds: self.timestamp, nanos: 0 }
    }

    /// The block up to which the chain is final, as far as it is known.
    pub open spec fn final_number(self) -> Option<i32> {
        if 0 < self.final_block_number <= i32::MAX {
            Some(self.final_block_number as i32)
        } else {
            None
        }
    }
}

impl BlockHeader {
    /// The pointer to the block with this header.
    pub fn ptr(&self) -> (r: BlockPtr)
        requires
            self@.number_fits(),
        ensures
            r@ == self@.ptr(),
    {
        BlockPtr { hash: hash_to_b256(self.hash.as_slice()), number: self.number as i32 }
    }

    /// The pointer to the parent: the block one below with the parent's hash.
    /// The first block has none, nor has one whose parent hash is empty.
    pub fn parent_ptr(&self) -> (r: Option<BlockPtr>)
        requires
            self@.parent_fits(),
        ensures
            ptr_view(r) == self@.parent_ptr(),
    {
        if self.number <= 0 || self.parent_hash.is_empty() {
            None
        } else {
            Some(
                BlockPtr {
                    hash: hash_to_b256(self.parent_hash.as_slice()),
                    number: (self.number - 1) as i32,
                },
            )
        }
    }
}

impl Block {
    /// The header.
    pub fn header(&self) -> (r: &BlockHeader)
        requires
            self.header is Some,
        ensures
            *r == self.header->0,
            self@.header == Some(r@),
    {
        self.header.as_ref().expect("Aztec Firehose block is missing its header")
    }

    /// The number of the block up to which the chain is final: none where it
    /// is not positive or is too large for a block number.
    pub fn final_block_number(&self) -> (r: Option<BlockNumber>)
        requires
            self.header is Some,
        ensures
            r == self.header->0@.final_number(),
    {
        let number = self.header().final_block_number;
        if number <= 0 || number > 0x7fff_ffff {
            None
        } else {
            Some(number as i32)
        }
    }

    /// The number of the block.
    pub fn number(&self) -> (r: BlockNumber)
        requires
            self.header is Some,
            i32::MIN <= self.header->0.number <= i32::MAX,
        ensures
            r == self.header->0.number,
    {
        self.header().number as i32
    }

    /// The pointer to the block.
    pub fn ptr(&self) -> (r: BlockPtr)
        requires
            self.header is Some,
            self.header->0@.number_fits(),
        ensures
            r@ == self.header->0@.ptr(),
    {
        self.header().ptr()
    }

    /// The pointer to the parent of the block.
    pub fn parent_ptr(&self) -> (r: Option<BlockPtr>)
        requires
            self.header is Some,
            self.header->0@.parent_fits(),
        ensures
            ptr_view(r) == self.header->0@.parent_ptr(),
    {
        self.header().parent_ptr()
    }

    /// The hash of the block.
    pub fn hash(&self) -> (r: BlockHash)
        requires
            self.header is Some,
            self.header->0@.number_fits(),
        ensures
            r@ == self.header->0@.ptr().hash,
    {
        self.ptr().hash
    }

    /// The time of the block, to the second.
    pub fn timestamp(&self) -> (r: BlockTime)
        requires
            self.header is Some,
        ensures
            r == (BlockTime { seconds: self.header->0.timestamp, nanos: 0 }),
            r == self.header->0@.time(),
    {
        BlockTime { seconds: self.header().timestamp, nanos: 0 }
    }
}

impl HeaderOnlyBlock {
    /// The header.
    pub fn header(&self) -> (r: &BlockHeader)
        requires
            self.header is Some,
        ensures
            *r == self.header->0,
            self@ == Some(r@),
    {
        self.header.as_ref().expect("Aztec Firehose header-only block is missing its header")
    }

    /// The number of the block.
    pub fn number(&self) -> (r: BlockNumber)
        requires
            self.header is Some,
            i32::MIN <= self.header->0.number <= i32::MAX,
        ensures
            r == self.header->0.number,
    {
        self.header().number as i32
    }

    /// The pointer to the block.
    pub fn ptr(&self) -> (r: BlockPtr)
        requires
            self.header is Some,
            self.header->0@.number_fits(),
        ensures
            r@ == self.header->0@.ptr(),
    {
        self.header().ptr()
    }

    /// The pointer to the parent of the block.
    pub fn parent_ptr(&self) -> (r: Option<BlockPtr>)
        requires
            self.header is Some,
            self.header->0@.parent_fits(),
        ensures
            ptr_view(r) == self.header->0@.parent_ptr(),
    {
        self.header().parent_ptr()
    }

    /// The time of the block, to the second.
    pub fn timestamp(&self) -> (r: BlockTime)
        requires
            self.header is Some,
        ensures
            r == (BlockTime { seconds: self.header->0.timestamp, nanos: 0 }),
            r == self.header->0@.time(),
    {
        BlockTime { seconds: self.header().timestamp, nanos: 0 }
    }
}

impl PublicLog {
    /// The contract's address in lower-case hexadecimal digits.
    pub fn contract_address_hex(&self) -> (r: String)
        ensures
            r@ == hex_text(self@.contract_address),
    {
        normalize_hex_bytes(self.contract_address.as_slice())
    }

    /// The tag in lower-case hexadecimal digits.
    pub fn tag_hex(&self) -> (r: String)
        ensures
            r@ == hex_text(self@.tag),
    {
        normalize_hex_bytes(self.tag.as_slice())
    }
}

/// Whether two texts differ in nothing but the case of ASCII letters.
pub open spec fn same_but_case(s: Seq<char>, t: Seq<char>) -> bool {
    s.map_values(|c: char| ascii_lower(c)) == t.map_values(|c: char| ascii_lower(c))
}

/// The case of letters makes no difference to the normal form, nor does a
/// leading `0x` or `0X`; and the normal form is its own, unless what follows
/// the prefix begins with another one.
pub proof fn law_spellings(s: Seq<char>, t: Seq<char>)
    requires
        same_but_case(s, t),
    ensures
        normalized_hex(s) == normalized_hex(t),
        !has_hex_prefix(s) ==> normalized_hex("0x"@ + t) == normalized_hex(s),
        !has_hex_prefix(s) ==> normalized_hex("0X"@ + t) == normalized_hex(s),
        !has_hex_prefix(normalized_hex(s)) ==> normalized_hex(normalized_hex(s)) == normalized_hex(
            t,
        ),
{
    reveal_strlit("0x");
    reveal_strlit("0X");
    let lower_s = s.map_values(|c: char| ascii_lower(c));
    let lower_t = t.map_values(|c: char| ascii_lower(c));
    assert(lower_s.len() == lower_t.len());
    assert forall|i: int| 0 <= i < s.len() implies ascii_lower(s[i]) == ascii_lower(#[trigger] t[i]) by {
        assert(lower_s[i] == lower_t[i]);
    }
    assert(has_hex_prefix(s) == has_hex_prefix(t)) by {
        if s.len() >= 2 {
            assert(ascii_lower(s[0]) == ascii_lower(t[0]));
            assert(ascii_lower(s[1]) == ascii_lower(t[1]));
        }
    }
    assert(normalized_hex(s) =~= normalized_hex(t));
    assert(("0x"@ + t).skip(2) =~= t);
    assert(("0X"@ + t).skip(2) =~= t);
    if !has_hex_prefix(normalized_hex(s)) {
        assert(normalized_hex(normalized_hex(s)) =~= normalized_hex(s));
    }
}

/// A hash has 32 bytes; one that is given with 32 bytes is kept as it is.
pub proof fn law_word(bytes: Seq<u8>)
    ensures
        word(bytes).len() == 32,
        bytes.len() == 32 ==> word(bytes) == bytes,
        word(word(bytes)) == word(bytes),
{
    if bytes.len() == 32 {
        assert(word(bytes) =~= bytes);
    }
    assert(word(word(bytes)) =~= word(bytes));
}

/// The parent of a block is one below it, and the first block has none.
pub proof fn law_parent_is_one_below(header: HeaderView)
    requires
        header.number_fits(),
    ensures
        header.parent_fits(),
        header.parent_ptr() matches Some(parent) ==> parent.number + 1 == header.ptr().number,
        header.parent_ptr() matches Some(parent) ==> parent.hash == word(header.parent_hash),
        header.number == 0 ==> header.parent_ptr() is None,
{
}

/// The normal form has the characters of the text, but for one `0x` or `0X` in
/// front, each as it is or, for an ASCII letter in upper case, in lower case.
pub proof fn law_normal_form(s: Seq<char>, i: int)
    requires
        0 <= i < s.len(),
        !(s.len() >= 2 && s[0] == '0' && (s[1] == 'x' || s[1] == 'X')),
    ensures
        normalized_hex(s).len() == s.len(),
        normalized_hex("0x"@ + s).len() == s.len(),
        normalized_hex("0X"@ + s).len() == s.len(),
        !('A' <= s[i] <= 'Z') ==> normalized_hex(s)[i] == s[i],
        'A' <= s[i] <= 'Z' ==> normalized_hex(s)[i] as int == s[i] as int + 32,
        normalized_hex("0x"@ + s)[i] == normalized_hex(s)[i],
        normalized_hex("0X"@ + s)[i] == normalized_hex(s)[i],
{
    reveal_strlit("0x");
    reveal_strlit("0X");
    assert(("0x"@ + s).skip(2) =~= s);
    assert(("0X"@ + s).skip(2) =~= s);
}

/// A hash ends with the bytes that are given for it, the last of them last, as
/// far as they go, and begins with zeros where there are fewer than 32.
pub proof fn law_word_ends_with(bytes: Seq<u8>, i: int)
    requires
        0 <= i < 32,
    ensures
        i < bytes.len() ==> word(bytes)[31 - i] == bytes[bytes.len() - 1 - i],
        i >= bytes.len() ==> word(bytes)[31 - i] == 0,
{
}

/// The pointer to a block has its number and its hash. There is a pointer to
/// the parent exactly where the number is positive and a parent hash is given,
/// and it has that hash.
pub proof fn law_pointers(header: HeaderView)
    requires
        header.number_fits(),
    ensures
        header.ptr().number == header.number,
        header.ptr().hash == word(header.hash),
        header.parent_ptr() is Some <==> header.number > 0 && header.parent_hash.len() > 0,
        header.parent_ptr() matches Some(parent) ==> parent.number == header.number - 1 && parent.hash
            == word(header.parent_hash),
{
}

/// The last final block has the number that the header gives, where that is
/// positive and a block number, and is not known otherwise.
pub proof fn law_final_number(header: HeaderView, n: i32)
    ensures
        header.final_number() == Some(n) <==> n > 0 && header.final_block_number == n,
{
}

/// The models of headers, logs and blocks hold what these hold.
pub proof fn law_models_of_blocks(header: BlockHeader, log: PublicLog, block: Block, ptr: BlockPtr, k: int)
    ensures
        header@.number == header.number,
        header@.hash == header.hash@,
        header@.parent_hash == header.parent_hash@,
        header@.timestamp == header.timestamp,
        header@.final_block_number == header.final_block_number,
        log@.contract_address == log.contract_address@,
        log@.tag == log.tag@,
        log@.tx_hash == log.tx_hash@,
        log@.log_index == log.log_index,
        log@.fields.len() == log.fields@.len(),
        0 <= k < log.fields@.len() ==> log@.fields[k] == log.fields@[k]@,
        block@.header is Some <==> block.header is Some,
        block.header matches Some(h) ==> block@.header == Some(h@),
        block@.public_logs.len() == block.public_logs@.len(),
        0 <= k < block.public_logs@.len() ==> block@.public_logs[k] == block.public_logs@[k]@,
        ptr@.number == ptr.number,
        ptr@.hash == ptr.hash.0@,
{
}

/// The time of a block is the time in its header, to the second.
pub proof fn law_time(header: HeaderView)
    ensures
        header.time().seconds == header.timestamp,
        header.time().nanos == 0,
{
}

} // verus!

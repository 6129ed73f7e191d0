//! Identifiers, log sequence numbers, slot entries and keys.
use crate::bytes::{
    be_bytes, be_decoding, lemma_be_bytes_len, lemma_be_decoding_bound, lemma_be_roundtrip,
    lemma_pow_256_widths, push_be, ByteReader, IoError,
};
use crate::schema::{law_read_value_can_be_written, RowValue, RowValueError, ValueView};
use crate::text::{
    compare_text, lemma_lex_lt_irreflexive, lemma_lex_lt_total, lemma_lex_lt_transitive,
    lemma_utf8_injective, lex_lt, text_len, Relation,
};
use crate::traits::Serializable;
use crate::varint::encode_varint;
use vstd::arithmetic::power::pow;
use vstd::prelude::*;
use vstd::utf8::encode_utf8;

verus! {

/// The encoded size of a slot entry: two `u16`s.
pub const SLOT_ENTRY_SIZE: usize = 4;

/// The encoded size of a page id: two `u32`s.
pub const PAGE_ID_SIZE: usize = 8;

/// A type whose values are the numbers of a fixed number of bytes.
pub trait FixedWidth: DeepView<V = Self> + Sized {
    spec fn width() -> nat;

    spec fn number(self) -> nat;

    spec fn of_number(n: nat) -> Self;

    fn fixed_width() -> (r: usize)
        ensures
            r == Self::width(),
    ;

    fn to_number(&self) -> (n: u64)
        ensures
            n == self.number(),
    ;

    fn from_number(n: u64) -> (r: Self)
        requires
            n < pow(256, Self::width()),
        ensures
            r == Self::of_number(n as nat),
    ;

    proof fn law_number(self)
        ensures
            self.deep_view() == self,
            0 < Self::width() <= 8,
            self.number() < pow(256, Self::width()),
            Self::of_number(self.number()) == self,
    ;
}

/// Fixed-width numbers are written big-endian.
impl<T: FixedWidth> Serializable for T {
    type Error = IoError;

    open spec fn valid(v: T) -> bool {
        true
    }

    open spec fn encoding(v: T) -> Seq<u8> {
        be_bytes(v.number(), T::width())
    }

    open spec fn refusal(v: T) -> Option<IoError> {
        None
    }

    open spec fn size(v: T) -> nat {
        T::width()
    }

    open spec fn decoding(s: Seq<u8>) -> Result<(T, int), IoError> {
        match be_decoding(s, T::width() as int) {
            Ok((n, used)) => Ok((T::of_number(n), used)),
            Err(e) => Err(e),
        }
    }

    open spec fn failure_reach(s: Seq<u8>) -> Option<int> {
        None
    }

    open spec fn read_failure(e: IoError) -> IoError {
        e
    }

    fn read_error(e: IoError) -> (r: IoError) {
        e
    }

    fn serialize(&self, w: &mut Vec<u8>) -> (r: Result<(), IoError>) {
        proof {
            self.law_number();
        }
        push_be(w, self.to_number(), T::fixed_width());
        Ok(())
    }

    fn deserialize(r: &mut ByteReader<'_>) -> (out: Result<Self, IoError>) {
        proof {
            T::of_number(0).law_number();
        }
        match r.read_be(T::fixed_width()) {
            Ok(n) => {
                let v = T::from_number(n);
                proof {
                    v.law_number();
                }
                Ok(v)
            },
            Err(e) => Err(e),
        }
    }

    fn encoded_size(&self) -> (n: usize) {
        T::fixed_width()
    }

    proof fn law_decoding_within_input(s: Seq<u8>) {
        lemma_be_decoding_bound(s, T::width());
    }

    proof fn law_failure_within_input(s: Seq<u8>) {
    }

    proof fn law_size_is_exact(v: T) {
        lemma_be_bytes_len(v.number(), T::width());
    }

    proof fn law_roundtrip(v: T, tail: Seq<u8>) {
        v.law_number();
        lemma_be_roundtrip(v.number(), T::width(), tail);
    }

    proof fn law_truncated_is_refused(v: T, k: int) {
        lemma_be_bytes_len(v.number(), T::width());
    }
}

/// Names a table.
#[derive(Debug, Clone, Copy, PartialEq, Eq, Hash, PartialOrd, Ord, Structural)]
pub struct TableId(pub u32);

impl TableId {
    pub fn new(id: u32) -> (r: Self)
        ensures
            r == TableId(id),
    {
        TableId(id)
    }

    pub fn get(self) -> (id: u32)
        ensures
            id == self.0,
    {
        self.0
    }
}

impl From<u32> for TableId {
    fn from(id: u32) -> (r: Self) {
        TableId(id)
    }
}

impl vstd::std_specs::convert::FromSpecImpl<u32> for TableId {
    open spec fn obeys_from_spec() -> bool {
        true
    }

    open spec fn from_spec(id: u32) -> Self {
        TableId(id)
    }
}

impl From<TableId> for u32 {
    fn from(id: TableId) -> (r: Self) {
        id.0
    }
}

impl vstd::std_specs::convert::FromSpecImpl<TableId> for u32 {
    open spec fn obeys_from_spec() -> bool {
        true
    }

    open spec fn from_spec(id: TableId) -> Self {
        id.0
    }
}

impl DeepView for TableId {
    type V = TableId;

    open spec fn deep_view(&self) -> TableId {
        *self
    }
}

impl FixedWidth for TableId {
    open spec fn width() -> nat {
        4
    }

    open spec fn number(self) -> nat {
        self.0 as nat
    }

    open spec fn of_number(n: nat) -> Self {
        TableId(n as u32)
    }

    fn fixed_width() -> (r: usize) {
        4
    }

    fn to_number(&self) -> (n: u64) {
        self.0 as u64
    }

    fn from_number(n: u64) -> (r: Self) {
        TableId(n as u32)
    }

    proof fn law_number(self) {
        lemma_pow_256_widths();
    }
}

/// Names a frame of the buffer pool. It is never stored.
#[derive(Debug, Clone, Copy, PartialEq, Eq, Hash, PartialOrd, Ord, Structural)]
pub struct FrameId(pub usize);

impl FrameId {
    pub fn new(id: usize) -> (r: Self)
        ensures
            r == FrameId(id),
    {
        FrameId(id)
    }

    pub fn get(self) -> (id: usize)
        ensures
            id == self.0,
    {
        self.0
    }
}

impl From<usize> for FrameId {
    fn from(id: usize) -> (r: Self) {
        FrameId(id)
    }
}

impl vstd::std_specs::convert::FromSpecImpl<usize> for FrameId {
    open spec fn obeys_from_spec() -> bool {
        true
    }

    open spec fn from_spec(id: usize) -> Self {
        FrameId(id)
    }
}

impl From<FrameId> for usize {
    fn from(id: FrameId) -> (r: Self) {
        id.0
    }
}

impl vstd::std_specs::convert::FromSpecImpl<FrameId> for usize {
    open spec fn obeys_from_spec() -> bool {
        true
    }

    open spec fn from_spec(id: FrameId) -> Self {
        id.0
    }
}

/// A position in the slot array of a page.
#[derive(Debug, Clone, Copy, PartialEq, Eq, Hash, PartialOrd, Ord, Structural)]
pub struct SlotIndex(pub u16);

impl SlotIndex {
    pub fn new(id: u16) -> (r: Self)
        ensures
            r == SlotIndex(id),
    {
        SlotIndex(id)
    }

    pub fn get(self) -> (id: u16)
        ensures
            id == self.0,
    {
        self.0
    }
}

impl From<u16> for SlotIndex {
    fn from(id: u16) -> (r: Self) {
        SlotIndex(id)
    }
}

impl vstd::std_specs::convert::FromSpecImpl<u16> for SlotIndex {
    open spec fn obeys_from_spec() -> bool {
        true
    }

    open spec fn from_spec(id: u16) -> Self {
        SlotIndex(id)
    }
}

impl From<SlotIndex> for u16 {
    fn from(id: SlotIndex) -> (r: Self) {
        id.0
    }
}

impl vstd::std_specs::convert::FromSpecImpl<SlotIndex> for u16 {
    open spec fn obeys_from_spec() -> bool {
        true
    }

    open spec fn from_spec(id: SlotIndex) -> Self {
        id.0
    }
}

impl DeepView for SlotIndex {
    type V = SlotIndex;

    open spec fn deep_view(&self) -> SlotIndex {
        *self
    }
}

impl FixedWidth for SlotIndex {
    open spec fn width() -> nat {
        2
    }

    open spec fn number(self) -> nat {
        self.0 as nat
    }

    open spec fn of_number(n: nat) -> Self {
        SlotIndex(n as u16)
    }

    fn fixed_width() -> (r: usize) {
        2
    }

    fn to_number(&self) -> (n: u64) {
        self.0 as u64
    }

    fn from_number(n: u64) -> (r: Self) {
        SlotIndex(n as u16)
    }

    proof fn law_number(self) {
        lemma_pow_256_widths();
    }
}

/// Names a transaction.
#[derive(Debug, Clone, Copy, PartialEq, Eq, Hash, PartialOrd, Ord, Structural)]
pub struct TransactionId(pub u64);

impl TransactionId {
    pub fn new(id: u64) -> (r: Self)
        ensures
            r == TransactionId(id),
    {
        TransactionId(id)
    }

    pub fn get(self) -> (id: u64)
        ensures
            id == self.0,
    {
        self.0
    }
}

impl From<u64> for TransactionId {
    fn from(id: u64) -> (r: Self) {
        TransactionId(id)
    }
}

impl vstd::std_specs::convert::FromSpecImpl<u64> for TransactionId {
    open spec fn obeys_from_spec() -> bool {
        true
    }

    open spec fn from_spec(id: u64) -> Self {
        TransactionId(id)
    }
}

impl From<TransactionId> for u64 {
    fn from(id: TransactionId) -> (r: Self) {
        id.0
    }
}

impl vstd::std_specs::convert::FromSpecImpl<TransactionId> for u64 {
    open spec fn obeys_from_spec() -> bool {
        true
    }

    open spec fn from_spec(id: TransactionId) -> Self {
        id.0
    }
}

impl DeepView for TransactionId {
    type V = TransactionId;

    open spec fn deep_view(&self) -> TransactionId {
        *self
    }
}

impl FixedWidth for TransactionId {
    open spec fn width() -> nat {
        8
    }

    open spec fn number(self) -> nat {
        self.0 as nat
    }

    open spec fn of_number(n: nat) -> Self {
        TransactionId(n as u64)
    }

    fn fixed_width() -> (r: usize) {
        8
    }

    fn to_number(&self) -> (n: u64) {
        self.0
    }

    fn from_number(n: u64) -> (r: Self) {
        TransactionId(n)
    }

    proof fn law_number(self) {
        lemma_pow_256_widths();
    }
}

/// Names a page: its table and its number there.
#[derive(Debug, Clone, Copy, PartialEq, Eq, Hash, PartialOrd, Ord, Structural)]
pub struct PageId(pub TableId, pub u32);

impl PageId {
    pub fn new(table_id: TableId, page_num: u32) -> (r: Self)
        ensures
            r == PageId(table_id, page_num),
    {
        PageId(table_id, page_num)
    }

    pub fn get_table_id(self) -> (r: TableId)
        ensures
            r == self.0,
    {
        self.0
    }

    pub fn get_page_num(self) -> (r: u32)
        ensures
            r == self.1,
    {
        self.1
    }
}

impl DeepView for PageId {
    type V = PageId;

    open spec fn deep_view(&self) -> PageId {
        *self
    }
}

/// The table id, then the page number, both big-endian.
impl Serializable for PageId {
    type Error = IoError;

    open spec fn valid(v: PageId) -> bool {
        true
    }

    open spec fn encoding(v: PageId) -> Seq<u8> {
        TableId::encoding(v.0) + be_bytes(v.1 as nat, 4)
    }

    open spec fn refusal(v: PageId) -> Option<IoError> {
        None
    }

    open spec fn size(v: PageId) -> nat {
        PAGE_ID_SIZE as nat
    }

    open spec fn decoding(s: Seq<u8>) -> Result<(PageId, int), IoError> {
        match TableId::decoding(s) {
            Err(e) => Err(e),
            Ok((table_id, n)) => match be_decoding(s.skip(n), 4) {
                Err(e) => Err(e),
                Ok((page_num, m)) => Ok((PageId(table_id, page_num as u32), n + m)),
            },
        }
    }

    open spec fn failure_reach(s: Seq<u8>) -> Option<int> {
        None
    }

    open spec fn read_failure(e: IoError) -> IoError {
        e
    }

    fn read_error(e: IoError) -> (r: IoError) {
        e
    }

    fn serialize(&self, w: &mut Vec<u8>) -> (r: Result<(), IoError>) {
        let ghost before = w@;
        let r = self.get_table_id().serialize(w);
        push_be(w, self.get_page_num() as u64, 4);
        assert(w@ =~= before + PageId::encoding(*self));
        r
    }

    fn deserialize(r: &mut ByteReader<'_>) -> (out: Result<Self, IoError>) {
        let ghost s = r@;
        proof {
            TableId::law_decoding_within_input(s);
        }
        let table_id = match TableId::deserialize(r) {
            Ok(id) => id,
            Err(e) => return Err(e),
        };
        assert(s.len() >= 8 ==> s.skip(4).skip(4) =~= s.skip(8));
        match r.read_be(4) {
            Ok(n) => Ok(PageId::new(table_id, n as u32)),
            Err(e) => Err(e),
        }
    }

    fn encoded_size(&self) -> (n: usize) {
        PAGE_ID_SIZE
    }

    proof fn law_decoding_within_input(s: Seq<u8>) {
        TableId::law_decoding_within_input(s);
    }

    proof fn law_failure_within_input(s: Seq<u8>) {
    }

    proof fn law_size_is_exact(v: PageId) {
        TableId::law_size_is_exact(v.0);
        lemma_be_bytes_len(v.1 as nat, 4);
    }

    proof fn law_roundtrip(v: PageId, tail: Seq<u8>) {
        let low = be_bytes(v.1 as nat, 4);
        lemma_pow_256_widths();
        PageId::law_size_is_exact(v);
        TableId::law_roundtrip(v.0, low + tail);
        lemma_be_roundtrip(v.1 as nat, 4, tail);
        assert(PageId::encoding(v) + tail =~= TableId::encoding(v.0) + (low + tail));
        assert((PageId::encoding(v) + tail).skip(4) =~= low + tail);
    }

    proof fn law_truncated_is_refused(v: PageId, k: int) {
        PageId::law_size_is_exact(v);
    }
}

/// Names a record: its page and its slot there.
#[derive(Debug, Clone, Copy, PartialEq, Eq, Hash, PartialOrd, Ord, Structural)]
pub struct RecordId(pub PageId, pub SlotIndex);

impl RecordId {
    pub fn new(page_id: PageId, slot_index: SlotIndex) -> (r: Self)
        ensures
            r == RecordId(page_id, slot_index),
    {
        RecordId(page_id, slot_index)
    }

    pub fn get_page_id(self) -> (r: PageId)
        ensures
            r == self.0,
    {
        self.0
    }

    pub fn get_slot_index(self) -> (r: SlotIndex)
        ensures
            r == self.1,
    {
        self.1
    }
}

/// Where the data of an item lies in its page.
#[derive(Debug, Clone, Copy, PartialEq, Eq, Structural)]
pub struct SlotEntry {
    pub offset: u16,
    pub length: u16,
}

impl SlotEntry {
    pub fn new(offset: u16, length: u16) -> (r: Self)
        ensures
            r == (SlotEntry { offset, length }),
    {
        SlotEntry { offset, length }
    }

    /// The positions that the item takes, as a half-open range.
    pub fn range(&self) -> (r: std::ops::Range<usize>)
        ensures
            r.start == self.offset,
            r.end == self.offset + self.length,
    {
        self.offset as usize..(self.offset as usize + self.length as usize)
    }
}

impl DeepView for SlotEntry {
    type V = SlotEntry;

    open spec fn deep_view(&self) -> SlotEntry {
        *self
    }
}

/// The offset, then the length, both big-endian.
impl Serializable for SlotEntry {
    type Error = IoError;

    open spec fn valid(v: SlotEntry) -> bool {
        true
    }

    open spec fn encoding(v: SlotEntry) -> Seq<u8> {
        be_bytes(v.offset as nat, 2) + be_bytes(v.length as nat, 2)
    }

    open spec fn refusal(v: SlotEntry) -> Option<IoError> {
        None
    }

    open spec fn size(v: SlotEntry) -> nat {
        SLOT_ENTRY_SIZE as nat
    }

    open spec fn decoding(s: Seq<u8>) -> Result<(SlotEntry, int), IoError> {
        match be_decoding(s, 2) {
            Err(e) => Err(e),
            Ok((offset, n)) => match be_decoding(s.skip(n), 2) {
                Err(e) => Err(e),
                Ok((length, m)) => Ok(
                    (SlotEntry { offset: offset as u16, length: length as u16 }, n + m),
                ),
            },
        }
    }

    open spec fn failure_reach(s: Seq<u8>) -> Option<int> {
        None
    }

    open spec fn read_failure(e: IoError) -> IoError {
        e
    }

    fn read_error(e: IoError) -> (r: IoError) {
        e
    }

    fn serialize(&self, w: &mut Vec<u8>) -> (r: Result<(), IoError>) {
        let ghost before = w@;
        push_be(w, self.offset as u64, 2);
        push_be(w, self.length as u64, 2);
        assert(w@ =~= before + SlotEntry::encoding(*self));
        Ok(())
    }

    fn deserialize(r: &mut ByteReader<'_>) -> (out: Result<Self, IoError>) {
        let ghost s = r@;
        assert(s.len() >= 4 ==> s.skip(2).skip(2) =~= s.skip(4));
        let offset: u64 = match r.read_be(2) {
            Ok(n) => n,
            Err(e) => return Err(e),
        };
        let length: u64 = match r.read_be(2) {
            Ok(n) => n,
            Err(e) => return Err(e),
        };
        Ok(SlotEntry::new(offset as u16, length as u16))
    }

    fn encoded_size(&self) -> (n: usize) {
        SLOT_ENTRY_SIZE
    }

    proof fn law_decoding_within_input(s: Seq<u8>) {
    }

    proof fn law_failure_within_input(s: Seq<u8>) {
    }

    proof fn law_size_is_exact(v: SlotEntry) {
        lemma_be_bytes_len(v.offset as nat, 2);
        lemma_be_bytes_len(v.length as nat, 2);
    }

    proof fn law_roundtrip(v: SlotEntry, tail: Seq<u8>) {
        let high = be_bytes(v.offset as nat, 2);
        let low = be_bytes(v.length as nat, 2);
        lemma_pow_256_widths();
        lemma_be_roundtrip(v.offset as nat, 2, low + tail);
        lemma_be_roundtrip(v.length as nat, 2, tail);
        assert(SlotEntry::encoding(v) + tail =~= high + (low + tail));
        assert((SlotEntry::encoding(v) + tail).skip(2) =~= low + tail);
    }

    proof fn law_truncated_is_refused(v: SlotEntry, k: int) {
        SlotEntry::law_size_is_exact(v);
    }
}

/// Why a log sequence number is refused.
#[derive(Debug, Clone, Copy, PartialEq, Eq, Structural)]
pub enum LsnError {
    IoError(IoError),
    /// LSNs can't be 0.
    ZeroLsn,
}

/// A log sequence number: any `u64` but zero.
#[derive(Debug, Clone, Copy, PartialEq, Eq, Hash, PartialOrd, Ord)]
pub struct Lsn(u64);

impl DeepView for Lsn {
    type V = u64;

    closed spec fn deep_view(&self) -> u64 {
        self.0
    }
}

impl Lsn {
    #[verifier::type_invariant]
    spec fn inv(self) -> bool {
        self.0 != 0
    }

    pub fn new(id: u64) -> (r: Result<Self, LsnError>)
        ensures
            match r {
                Ok(lsn) => id != 0 && lsn.deep_view() == id,
                Err(e) => id == 0 && e == LsnError::ZeroLsn,
            },
    {
        if id == 0 {
            return Err(LsnError::ZeroLsn);
        }
        Ok(Lsn(id))
    }

    pub fn get(self) -> (id: u64)
        ensures
            id == self.deep_view(),
            id != 0,
    {
        proof {
            use_type_invariant(&self);
        }
        self.0
    }
}

impl From<Lsn> for u64 {
    fn from(value: Lsn) -> (r: Self)
        ensures
            r == value.deep_view(),
            r != 0,
    {
        value.get()
    }
}

impl vstd::std_specs::convert::FromSpecImpl<Lsn> for u64 {
    open spec fn obeys_from_spec() -> bool {
        true
    }

    open spec fn from_spec(value: Lsn) -> Self {
        value.deep_view()
    }
}

impl TryFrom<u64> for Lsn {
    type Error = LsnError;

    fn try_from(id: u64) -> (r: Result<Self, LsnError>)
        ensures
            match r {
                Ok(lsn) => id != 0 && lsn.deep_view() == id,
                Err(e) => id == 0 && e == LsnError::ZeroLsn,
            },
    {
        Lsn::new(id)
    }
}

impl vstd::std_specs::convert::TryFromSpecImpl<u64> for Lsn {
    open spec fn obeys_try_from_spec() -> bool {
        true
    }

    closed spec fn try_from_spec(id: u64) -> Result<Self, LsnError> {
        if id == 0 {
            Err(LsnError::ZeroLsn)
        } else {
            Ok(Lsn(id))
        }
    }
}

/// Eight bytes, big-endian; zero is refused on reading.
impl Serializable for Lsn {
    type Error = LsnError;

    open spec fn valid(v: u64) -> bool {
        v != 0
    }

    open spec fn encoding(v: u64) -> Seq<u8> {
        be_bytes(v as nat, 8)
    }

    open spec fn refusal(v: u64) -> Option<LsnError> {
        None
    }

    open spec fn size(v: u64) -> nat {
        8
    }

    open spec fn decoding(s: Seq<u8>) -> Result<(u64, int), LsnError> {
        match be_decoding(s, 8) {
            Err(e) => Err(LsnError::IoError(e)),
            Ok((n, used)) => if n == 0 {
                Err(LsnError::ZeroLsn)
            } else {
                Ok((n as u64, used))
            },
        }
    }

    open spec fn failure_reach(s: Seq<u8>) -> Option<int> {
        if s.len() < 8 {
            None
        } else {
            Some(8)
        }
    }

    open spec fn read_failure(e: IoError) -> LsnError {
        LsnError::IoError(e)
    }

    fn read_error(e: IoError) -> (r: LsnError) {
        LsnError::IoError(e)
    }

    fn serialize(&self, w: &mut Vec<u8>) -> (r: Result<(), LsnError>) {
        push_be(w, self.get(), 8);
        Ok(())
    }

    fn deserialize(r: &mut ByteReader<'_>) -> (out: Result<Self, LsnError>) {
        match r.read_be(8) {
            Ok(n) => Lsn::new(n),
            Err(e) => Err(LsnError::IoError(e)),
        }
    }

    fn encoded_size(&self) -> (n: usize) {
        8
    }

    proof fn law_decoding_within_input(s: Seq<u8>) {
    }

    proof fn law_failure_within_input(s: Seq<u8>) {
    }

    proof fn law_size_is_exact(v: u64) {
        lemma_be_bytes_len(v as nat, 8);
    }

    proof fn law_roundtrip(v: u64, tail: Seq<u8>) {
        lemma_pow_256_widths();
        lemma_be_roundtrip(v as nat, 8, tail);
    }

    proof fn law_truncated_is_refused(v: u64, k: int) {
        lemma_be_bytes_len(v as nat, 8);
    }
}

/// The LSN of the last change to a page, if it has one yet.
#[derive(Debug, Clone, Copy, PartialEq, Eq)]
pub struct PageLsn(pub Option<Lsn>);

impl DeepView for PageLsn {
    type V = Option<u64>;

    open spec fn deep_view(&self) -> Option<u64> {
        self.0.deep_view()
    }
}

/// Eight bytes, big-endian; zero stands for no LSN.
impl Serializable for PageLsn {
    type Error = LsnError;

    open spec fn valid(v: Option<u64>) -> bool {
        v != Some(0u64)
    }

    open spec fn encoding(v: Option<u64>) -> Seq<u8> {
        match v {
            Some(lsn) => Lsn::encoding(lsn),
            None => be_bytes(0, 8),
        }
    }

    open spec fn refusal(v: Option<u64>) -> Option<LsnError> {
        None
    }

    open spec fn size(v: Option<u64>) -> nat {
        8
    }

    open spec fn decoding(s: Seq<u8>) -> Result<(Option<u64>, int), LsnError> {
        match be_decoding(s, 8) {
            Err(e) => Err(LsnError::IoError(e)),
            Ok((n, used)) => if n == 0 {
                Ok((None, used))
            } else {
                Ok((Some(n as u64), used))
            },
        }
    }

    open spec fn failure_reach(s: Seq<u8>) -> Option<int> {
        None
    }

    open spec fn read_failure(e: IoError) -> LsnError {
        LsnError::IoError(e)
    }

    fn read_error(e: IoError) -> (r: LsnError) {
        LsnError::IoError(e)
    }

    fn serialize(&self, w: &mut Vec<u8>) -> (r: Result<(), LsnError>) {
        match self.0 {
            Some(lsn) => lsn.serialize(w),
            None => {
                push_be(w, 0, 8);
                Ok(())
            },
        }
    }

    fn deserialize(r: &mut ByteReader<'_>) -> (out: Result<Self, LsnError>) {
        match r.read_be(8) {
            Ok(n) => match Lsn::new(n) {
                Ok(lsn) => Ok(PageLsn(Some(lsn))),
                Err(_) => Ok(PageLsn(None)),
            },
            Err(e) => Err(LsnError::IoError(e)),
        }
    }

    fn encoded_size(&self) -> (n: usize) {
        8
    }

    proof fn law_decoding_within_input(s: Seq<u8>) {
    }

    proof fn law_failure_within_input(s: Seq<u8>) {
    }

    proof fn law_size_is_exact(v: Option<u64>) {
        lemma_be_bytes_len(v.unwrap_or(0) as nat, 8);
    }

    proof fn law_roundtrip(v: Option<u64>, tail: Seq<u8>) {
        lemma_pow_256_widths();
        lemma_be_roundtrip(v.unwrap_or(0) as nat, 8, tail);
    }

    proof fn law_truncated_is_refused(v: Option<u64>, k: int) {
        lemma_be_bytes_len(v.unwrap_or(0) as nat, 8);
    }
}

/// A primary key. Integers come before strings; integers are ordered by value,
/// strings by their bytes.
#[derive(Debug, PartialEq, Eq, PartialOrd, Ord)]
pub enum Key {
    Integer(i64),
    String(String),
}

/// What a `Key` stands for.
pub enum KeyView {
    Integer(i64),
    Text(Seq<char>),
}

/// Why a value is not a key, or a key is not written or not read.
#[derive(Debug, Clone, Copy, PartialEq, Eq, Structural)]
pub enum KeyError {
    /// Float fields cannot be used as keys.
    NotOrderable,
    /// Key cannot be null.
    NullKey,
    RowValue(RowValueError),
    /// Booleans cannot be used as keys.
    BoolKey,
}

impl DeepView for Key {
    type V = KeyView;

    open spec fn deep_view(&self) -> KeyView {
        match self {
            Key::Integer(n) => KeyView::Integer(*n),
            Key::String(s) => KeyView::Text(s@),
        }
    }
}

impl Clone for Key {
    fn clone(&self) -> (r: Self)
        ensures
            r == *self,
    {
        match self {
            Key::Integer(n) => Key::Integer(*n),
            Key::String(s) => Key::String(s.clone()),
        }
    }
}

/// The key that a value makes.
pub open spec fn key_of_value(v: ValueView) -> Result<KeyView, KeyError> {
    match v {
        ValueView::Integer(n) => Ok(KeyView::Integer(n)),
        ValueView::Text(s) => Ok(KeyView::Text(s)),
        ValueView::Null => Err(KeyError::NullKey),
        ValueView::Float(_) => Err(KeyError::NotOrderable),
        ValueView::Boolean(_) => Err(KeyError::BoolKey),
    }
}

/// The value that a key is stored as.
pub open spec fn value_of_key(k: KeyView) -> ValueView {
    match k {
        KeyView::Integer(n) => ValueView::Integer(n),
        KeyView::Text(s) => ValueView::Text(s),
    }
}

/// A key that is stored as a value is that key again, and a value that makes a key is
/// the one that the key is stored as.
pub proof fn law_key_survives_as_value(k: KeyView, v: ValueView)
    ensures
        key_of_value(value_of_key(k)) == Ok::<KeyView, KeyError>(k),
        key_of_value(v) matches Ok(made) ==> value_of_key(made) == v,
{
}

/// Whether `a` comes before `b`.
pub open spec fn key_lt(a: KeyView, b: KeyView) -> bool {
    match (a, b) {
        (KeyView::Integer(x), KeyView::Integer(y)) => x < y,
        (KeyView::Integer(_), KeyView::Text(_)) => true,
        (KeyView::Text(_), KeyView::Integer(_)) => false,
        (KeyView::Text(x), KeyView::Text(y)) => lex_lt(encode_utf8(x), encode_utf8(y)),
    }
}

/// Keys are strictly ordered: no key comes before itself.
pub proof fn law_key_order_irreflexive(a: KeyView)
    ensures
        !key_lt(a, a),
{
    if let KeyView::Text(x) = a {
        lemma_lex_lt_irreflexive(encode_utf8(x));
    }
}

/// The order of keys is transitive.
pub proof fn law_key_order_transitive(a: KeyView, b: KeyView, c: KeyView)
    requires
        key_lt(a, b),
        key_lt(b, c),
    ensures
        key_lt(a, c),
{
    if let (KeyView::Text(x), KeyView::Text(y)) = (a, b) {
        if let KeyView::Text(z) = c {
            lemma_lex_lt_transitive(encode_utf8(x), encode_utf8(y), encode_utf8(z));
        }
    }
}

/// Of two different keys exactly one comes before the other.
pub proof fn law_key_order_total(a: KeyView, b: KeyView)
    ensures
        a == b || key_lt(a, b) || key_lt(b, a),
        !(key_lt(a, b) && key_lt(b, a)),
{
    if let (KeyView::Text(x), KeyView::Text(y)) = (a, b) {
        lemma_lex_lt_total(encode_utf8(x), encode_utf8(y));
        if encode_utf8(x) == encode_utf8(y) {
            lemma_utf8_injective(x, y);
        }
    }
    if key_lt(a, b) && key_lt(b, a) {
        law_key_order_transitive(a, b, a);
        law_key_order_irreflexive(a);
    }
}

/// How the key `a` stands to the key `b`.
pub open spec fn key_relation(a: KeyView, b: KeyView) -> Relation {
    if key_lt(a, b) {
        Relation::Less
    } else if key_lt(b, a) {
        Relation::Greater
    } else {
        Relation::Equal
    }
}

/// Keys that stand equal are the same, and a key stands equal to itself.
pub proof fn law_equal_keys_are_the_same(a: KeyView, b: KeyView)
    ensures
        key_relation(a, b) == Relation::Equal <==> a == b,
{
    law_key_order_total(a, b);
    law_key_order_irreflexive(a);
}

impl Key {
    /// How this key stands to `other`.
    pub fn relation(&self, other: &Key) -> (r: Relation)
        ensures
            r == key_relation(self.deep_view(), other.deep_view()),
    {
        proof {
            law_key_order_total(self.deep_view(), other.deep_view());
            law_key_order_irreflexive(self.deep_view());
        }
        match (self, other) {
            (Key::Integer(a), Key::Integer(b)) => if *a < *b {
                Relation::Less
            } else if *b < *a {
                Relation::Greater
            } else {
                Relation::Equal
            },
            (Key::Integer(_), Key::String(_)) => Relation::Less,
            (Key::String(_), Key::Integer(_)) => Relation::Greater,
            (Key::String(a), Key::String(b)) => compare_text(a, b),
        }
    }
}

impl<'a> TryFrom<&'a RowValue> for Key {
    type Error = KeyError;

    fn try_from(value: &'a RowValue) -> (r: Result<Self, KeyError>)
        ensures
            match key_of_value(value.deep_view()) {
                Ok(k) => r is Ok && r->Ok_0.deep_view() == k,
                Err(e) => r is Err && r->Err_0 == e,
            },
    {
        match value {
            RowValue::Integer(n) => Ok(Key::Integer(*n)),
            RowValue::String(s) => Ok(Key::String(s.clone())),
            RowValue::Null => Err(KeyError::NullKey),
            RowValue::Float(_) => Err(KeyError::NotOrderable),
            RowValue::Boolean(_) => Err(KeyError::BoolKey),
        }
    }
}

impl<'a> vstd::std_specs::convert::TryFromSpecImpl<&'a RowValue> for Key {
    open spec fn obeys_try_from_spec() -> bool {
        true
    }

    open spec fn try_from_spec(value: &'a RowValue) -> Result<Self, KeyError> {
        match *value {
            RowValue::Integer(n) => Ok(Key::Integer(n)),
            RowValue::String(s) => Ok(Key::String(s)),
            RowValue::Null => Err(KeyError::NullKey),
            RowValue::Float(_) => Err(KeyError::NotOrderable),
            RowValue::Boolean(_) => Err(KeyError::BoolKey),
        }
    }
}

impl From<Key> for RowValue {
    fn from(key: Key) -> (v: Self)
        ensures
            v.deep_view() == value_of_key(key.deep_view()),
    {
        match key {
            Key::Integer(n) => RowValue::Integer(n),
            Key::String(s) => RowValue::String(s),
        }
    }
}

impl vstd::std_specs::convert::FromSpecImpl<Key> for RowValue {
    open spec fn obeys_from_spec() -> bool {
        true
    }

    open spec fn from_spec(key: Key) -> Self {
        match key {
            Key::Integer(n) => RowValue::Integer(n),
            Key::String(s) => RowValue::String(s),
        }
    }
}

/// A key is written as the value that it is stored as.
impl Serializable for Key {
    type Error = KeyError;

    open spec fn valid(v: KeyView) -> bool {
        true
    }

    open spec fn encoding(v: KeyView) -> Seq<u8> {
        RowValue::encoding(value_of_key(v))
    }

    open spec fn refusal(v: KeyView) -> Option<KeyError> {
        match RowValue::refusal(value_of_key(v)) {
            Some(e) => Some(KeyError::RowValue(e)),
            None => None,
        }
    }

    open spec fn size(v: KeyView) -> nat {
        RowValue::size(value_of_key(v))
    }

    open spec fn decoding(s: Seq<u8>) -> Result<(KeyView, int), KeyError> {
        match RowValue::decoding(s) {
            Err(e) => Err(KeyError::RowValue(e)),
            Ok((v, n)) => match key_of_value(v) {
                Err(e) => Err(e),
                Ok(k) => Ok((k, n)),
            },
        }
    }

    open spec fn failure_reach(s: Seq<u8>) -> Option<int> {
        match RowValue::decoding(s) {
            Err(_) => RowValue::failure_reach(s),
            Ok((_, n)) => Some(n),
        }
    }

    open spec fn read_failure(e: IoError) -> KeyError {
        KeyError::RowValue(RowValueError::IoError(e))
    }

    fn read_error(e: IoError) -> (r: KeyError) {
        KeyError::RowValue(RowValueError::IoError(e))
    }

    fn serialize(&self, w: &mut Vec<u8>) -> (r: Result<(), KeyError>) {
        let field: RowValue = RowValue::from(self.clone());
        match field.serialize(w) {
            Ok(_) => Ok(()),
            Err(e) => Err(KeyError::RowValue(e)),
        }
    }

    fn deserialize(r: &mut ByteReader<'_>) -> (out: Result<Self, KeyError>) {
        match RowValue::deserialize(r) {
            Ok(v) => Key::try_from(&v),
            Err(e) => Err(KeyError::RowValue(e)),
        }
    }

    fn encoded_size(&self) -> (n: usize) {
        match self {
            Key::Integer(_) => 9,
            Key::String(s) => {
                let length: usize = text_len(s);
                let varlen: usize = encode_varint(length).len();
                length.saturating_add(varlen).saturating_add(1)
            },
        }
    }

    proof fn law_decoding_within_input(s: Seq<u8>) {
        RowValue::law_decoding_within_input(s);
    }

    proof fn law_failure_within_input(s: Seq<u8>) {
        RowValue::law_failure_within_input(s);
        RowValue::law_decoding_within_input(s);
    }

    proof fn law_size_is_exact(v: KeyView) {
        RowValue::law_size_is_exact(value_of_key(v));
    }

    proof fn law_roundtrip(v: KeyView, tail: Seq<u8>) {
        RowValue::law_roundtrip(value_of_key(v), tail);
    }

    proof fn law_truncated_is_refused(v: KeyView, k: int) {
        RowValue::law_truncated_is_refused(value_of_key(v), k);
    }
}

/// Whatever key is read can be written.
pub proof fn law_read_key_can_be_written(s: Seq<u8>)
    ensures
        Key::decoding(s) matches Ok((k, _)) ==> Key::refusal(k) is None,
{
    law_read_value_can_be_written(s);
    if let Ok((v, _)) = RowValue::decoding(s) {
        law_key_survives_as_value(KeyView::Integer(0), v);
    }
}

} // verus!

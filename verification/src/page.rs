//! Pages: the unit of storage. A page is a leaf, which holds rows, or internal,
//! which holds keys and the children between them.
use crate::bytes::{push_be, ByteReader, IoError};
use crate::commontypes::{
    Key, KeyError, KeyView, LsnError, PageId, PageLsn, PAGE_ID_SIZE, SLOT_ENTRY_SIZE,
};
use crate::header::{
    header_decoding, header_of, lemma_header_len, lemma_header_roundtrip, Header, HeaderView,
};
use crate::layout::{
    data_area, filled, fitting, items_decoding, lemma_data_area_len, lemma_filled_behind,
    lemma_items_decoding_len, lemma_items_roundtrip, lemma_slot_array_len, moved, read_items,
    slot_array, write_items, written, PageItem, PageWriter,
};
use crate::list::{
    deserialize_list, lemma_list_accepted_front, lemma_list_accepted_size,
    lemma_list_decoding_within_input, lemma_list_roundtrip, list_accepted, list_decoding,
    list_encoded_size, list_encoding, list_refusal, list_size, serialize_list,
};
use crate::order::{all_keyed, check_order, keys_of, lemma_keys_of_keys, sorted, strictly_sorted};
use crate::schema::{Row, RowValueError, ValueView};
use crate::traits::{saturated, Serializable};
use vstd::prelude::*;

verus! {

pub const PAGE_SIZE: usize = 4096;

pub const LEAF_TAG: u8 = 1;

pub const INTERNAL_TAG: u8 = 2;

/// The size of a leaf header whose optional ids are all present.
pub const MAX_LEAF_HEADER_SIZE: usize = 46;

/// The size of an internal header whose optional ids are all present.
pub const MAX_INTERNAL_HEADER_SIZE: usize = 28;

/// The most room that a row may take in a leaf: a third of what a leaf offers, so
/// that there is room for a row in either half of a leaf that was split.
pub const MAX_LEAF_ENTRY_SIZE: usize = (PAGE_SIZE - MAX_LEAF_HEADER_SIZE) / 3;

/// The most room that a key may take in an internal page: a third of what is left
/// beside the first child, so that a full page has enough keys to be split.
pub const MAX_INTERNAL_ENTRY_SIZE: usize = (PAGE_SIZE - MAX_INTERNAL_HEADER_SIZE - PAGE_ID_SIZE)
    / 3;

/// What can go wrong with a page.
#[derive(Debug, Clone, Copy, PartialEq, Eq, Structural)]
pub enum PageError {
    IoError(IoError),
    LsnError(LsnError),
    Value(RowValueError),
    Key(KeyError),
    /// Invalid page tag.
    InvalidTag(u8),
    /// The bytes of a page point outside of it, or hold items that are out of
    /// order or have no key.
    Corrupt,
    /// Page got overfull before serialization.
    PageOverFlow,
    /// Page too small to split.
    TooSmallToSplit(PageId),
    /// Page too full to fit row -- need to split.
    PageFull,
    /// Attempt to insert a duplicate key.
    DuplicateKey,
    /// Attempt to insert into a non-leaf page.
    NotLeaf,
    /// Attempt to insert a key and a child into a leaf.
    NotInternal,
    /// Attempt to merge pages that do not follow each other.
    InvalidMerge,
}

/// The bytes of a page.
pub type RawPage = [u8; PAGE_SIZE];

/// The room that a row takes in a leaf: its encoding and its slot.
pub open spec fn leaf_entry(row: Seq<ValueView>) -> nat {
    Row::size(row) + SLOT_ENTRY_SIZE as nat
}

/// The room that a key takes in an internal page: its encoding, its slot and the
/// child behind it.
pub open spec fn internal_entry(key: KeyView) -> nat {
    Key::size(key) + SLOT_ENTRY_SIZE as nat + PAGE_ID_SIZE as nat
}

/// A page in memory.
#[derive(Debug, PartialEq)]
pub struct Page {
    pub page_id: PageId,
    pub last_update: PageLsn,
    pub parent: Option<PageId>,
    pub body: PageBody,
}

/// What a page holds.
#[derive(Debug, PartialEq)]
pub enum PageBody {
    Leaf { records: Vec<Row>, next: Option<PageId>, prev: Option<PageId> },
    Internal { keys: Vec<Key>, children: Vec<PageId> },
}

/// What a `Page` stands for.
#[verifier::ext_equal]
pub struct PageView {
    pub page_id: PageId,
    pub last_update: Option<u64>,
    pub parent: Option<PageId>,
    pub body: BodyView,
}

/// What a `PageBody` stands for.
#[verifier::ext_equal]
pub enum BodyView {
    Leaf { records: Seq<Seq<ValueView>>, next: Option<PageId>, prev: Option<PageId> },
    Internal { keys: Seq<KeyView>, children: Seq<PageId> },
}

impl DeepView for PageBody {
    type V = BodyView;

    open spec fn deep_view(&self) -> BodyView {
        match self {
            PageBody::Leaf { records, next, prev } => BodyView::Leaf {
                records: records.deep_view(),
                next: next.deep_view(),
                prev: prev.deep_view(),
            },
            PageBody::Internal { keys, children } => BodyView::Internal {
                keys: keys.deep_view(),
                children: children.deep_view(),
            },
        }
    }
}

impl DeepView for Page {
    type V = PageView;

    open spec fn deep_view(&self) -> PageView {
        PageView {
            page_id: self.page_id,
            last_update: self.last_update.deep_view(),
            parent: self.parent.deep_view(),
            body: self.body.deep_view(),
        }
    }
}

impl Clone for PageBody {
    fn clone(&self) -> (r: Self)
        ensures
            r.deep_view() == self.deep_view(),
    {
        match self {
            PageBody::Leaf { records, next, prev } => {
                let copies = records.clone();
                assert(copies.deep_view() =~= records.deep_view());
                PageBody::Leaf { records: copies, next: *next, prev: *prev }
            },
            PageBody::Internal { keys, children } => {
                let key_copies = keys.clone();
                let child_copies = children.clone();
                assert(key_copies.deep_view() =~= keys.deep_view());
                assert(child_copies.deep_view() =~= children.deep_view());
                PageBody::Internal { keys: key_copies, children: child_copies }
            },
        }
    }
}

impl Clone for Page {
    fn clone(&self) -> (r: Self)
        ensures
            r.deep_view() == self.deep_view(),
    {
        Page {
            page_id: self.page_id,
            last_update: self.last_update,
            parent: self.parent,
            body: self.body.clone(),
        }
    }
}

/// Whether the rows of a leaf have keys and are sorted by them.
pub open spec fn leaf_ordered(records: Seq<Seq<ValueView>>) -> bool {
    all_keyed::<Row>(records) && sorted(keys_of::<Row>(records))
}

/// Whether the keys of an internal page are strictly sorted.
pub open spec fn internal_ordered(keys: Seq<KeyView>) -> bool {
    strictly_sorted(keys)
}

impl BodyView {
    /// What operations on a page rely on: the items of the page are in order, and
    /// there is one child more than there are keys.
    pub open spec fn ordered(self) -> bool {
        match self {
            BodyView::Leaf { records, .. } => leaf_ordered(records),
            BodyView::Internal { keys, children } => internal_ordered(keys) && children.len()
                == keys.len() + 1,
        }
    }
}

impl PageView {
    pub open spec fn tag(self) -> u8 {
        match self.body {
            BodyView::Leaf { .. } => LEAF_TAG,
            BodyView::Internal { .. } => INTERNAL_TAG,
        }
    }

    pub open spec fn num_items(self) -> nat {
        match self.body {
            BodyView::Leaf { records, .. } => records.len(),
            BodyView::Internal { keys, .. } => keys.len(),
        }
    }

    /// The room that is taken behind the header: by the slots, the children and the
    /// items' data.
    pub open spec fn items_room(self) -> nat {
        match self.body {
            BodyView::Leaf { records, .. } => SLOT_ENTRY_SIZE as nat * records.len() + list_size::<
                Row,
            >(records),
            BodyView::Internal { keys, children } => SLOT_ENTRY_SIZE as nat * keys.len()
                + PAGE_ID_SIZE as nat * children.len() + list_size::<Key>(keys),
        }
    }

    /// The room that the page takes, with the largest header that it can have.
    pub open spec fn used(self) -> nat {
        match self.body {
            BodyView::Leaf { .. } => MAX_LEAF_HEADER_SIZE as nat + self.items_room(),
            BodyView::Internal { .. } => MAX_INTERNAL_HEADER_SIZE as nat + self.items_room(),
        }
    }

    /// The room that is left, unless there is too much in the page.
    pub open spec fn free_space(self) -> Option<usize> {
        if self.used() <= PAGE_SIZE {
            Some((PAGE_SIZE - self.used()) as usize)
        } else {
            None
        }
    }

    /// The bytes behind the header: the children, where there are any, and the
    /// slots.
    pub open spec fn front(self) -> Seq<u8> {
        match self.body {
            BodyView::Leaf { records, .. } => slot_array::<Row>(records),
            BodyView::Internal { keys, children } => list_encoding::<PageId>(children)
                + slot_array::<Key>(keys),
        }
    }

    /// The bytes that end the page: the data of the items, the first one last.
    pub open spec fn back(self) -> Seq<u8> {
        match self.body {
            BodyView::Leaf { records, .. } => data_area::<Row>(records),
            BodyView::Internal { keys, .. } => data_area::<Key>(keys),
        }
    }

    /// The bytes of the page. What lies between the slots and the data is zero.
    pub open spec fn bytes(self) -> Seq<u8> {
        let head = self.header() + self.front();
        head + Seq::new((PAGE_SIZE - head.len() - self.back().len()) as nat, |i: int| 0u8)
            + self.back()
    }

    /// The page up to the first item that is not written.
    pub open spec fn accepted(self) -> PageView {
        PageView {
            body: match self.body {
                BodyView::Leaf { records, next, prev } => BodyView::Leaf {
                    records: list_accepted::<Row>(records),
                    next,
                    prev,
                },
                BodyView::Internal { keys, children } => BodyView::Internal {
                    keys: list_accepted::<Key>(keys),
                    children,
                },
            },
            ..self
        }
    }

    /// The error of the first item that is not written.
    pub open spec fn item_refusal(self) -> Option<PageError> {
        match self.body {
            BodyView::Leaf { records, .. } => match list_refusal::<Row>(records) {
                Some(e) => Some(Row::page_failure(e)),
                None => None,
            },
            BodyView::Internal { keys, .. } => match list_refusal::<Key>(keys) {
                Some(e) => Some(Key::page_failure(e)),
                None => None,
            },
        }
    }
}

impl PageBody {
    /// Whether the items are in order, and there is one child more than there are
    /// keys.
    pub fn is_ordered(&self) -> (r: bool)
        ensures
            r == self.deep_view().ordered(),
    {
        match self {
            PageBody::Leaf { records, .. } => check_order(records, false),
            PageBody::Internal { keys, children } => {
                proof {
                    lemma_keys_of_keys(keys.deep_view());
                }
                children.len() > 0 && children.len() - 1 == keys.len() && check_order(keys, true)
            },
        }
    }
}

/// `n * k`, or the largest `usize` where that does not fit.
fn saturating_times(n: usize, k: usize) -> (r: usize)
    ensures
        r == saturated((n * k) as nat),
{
    match n.checked_mul(k) {
        Some(x) => x,
        None => usize::MAX,
    }
}

impl Page {
    /// The room that `row` takes in a leaf.
    pub fn leaf_entry_size(row: &Row) -> (n: usize)
        ensures
            n == saturated(leaf_entry(row.deep_view())),
    {
        row.encoded_size().saturating_add(SLOT_ENTRY_SIZE)
    }

    /// The room that `key` takes in an internal page.
    pub fn internal_entry_size(key: &Key) -> (n: usize)
        ensures
            n == saturated(internal_entry(key.deep_view())),
    {
        key.encoded_size().saturating_add(SLOT_ENTRY_SIZE).saturating_add(PAGE_ID_SIZE)
    }

    pub fn page_type_tag(&self) -> (tag: u8)
        ensures
            tag == self.deep_view().tag(),
    {
        match &self.body {
            PageBody::Internal { .. } => INTERNAL_TAG,
            PageBody::Leaf { .. } => LEAF_TAG,
        }
    }

    pub fn num_items(&self) -> (n: usize)
        ensures
            n == self.deep_view().num_items(),
    {
        match &self.body {
            PageBody::Leaf { records, .. } => records.len(),
            PageBody::Internal { keys, .. } => keys.len(),
        }
    }

    /// The room that is left, or `None` when there is too much in the page.
    pub fn free_space(&self) -> (r: Option<usize>)
        ensures
            r == self.deep_view().free_space(),
    {
        let used_size: usize = match &self.body {
            PageBody::Internal { keys, children } => {
                let slots_len: usize = saturating_times(keys.len(), SLOT_ENTRY_SIZE);
                let children_len: usize = saturating_times(children.len(), PAGE_ID_SIZE);
                let keys_len: usize = list_encoded_size(keys);
                keys_len.saturating_add(children_len).saturating_add(slots_len).saturating_add(
                    MAX_INTERNAL_HEADER_SIZE,
                )
            },
            PageBody::Leaf { records, .. } => {
                let slots_len: usize = saturating_times(records.len(), SLOT_ENTRY_SIZE);
                let records_len: usize = list_encoded_size(records);
                records_len.saturating_add(slots_len).saturating_add(MAX_LEAF_HEADER_SIZE)
            },
        };
        assert(used_size == saturated(self.deep_view().used()));
        PAGE_SIZE.checked_sub(used_size)
    }

    /// Whether there is room for `row` and its slot.
    pub fn can_insert(&self, row: &Row) -> (r: bool)
        ensures
            r == (self.deep_view().used() + leaf_entry(row.deep_view()) <= PAGE_SIZE),
    {
        let free_space: usize = match self.free_space() {
            None => return false,
            Some(s) => s,
        };
        Page::leaf_entry_size(row) <= free_space
    }
}

/// The encoded children of an internal page take eight bytes each.
pub proof fn lemma_children_len(children: Seq<PageId>)
    ensures
        list_refusal::<PageId>(children) is None,
        list_size::<PageId>(children) == PAGE_ID_SIZE * children.len(),
        list_encoding::<PageId>(children).len() == PAGE_ID_SIZE * children.len(),
    decreases children.len(),
{
    if children.len() > 0 {
        lemma_children_len(children.drop_last());
        PageId::law_size_is_exact(children.last());
    }
}

/// How much room the parts of a page take in its bytes.
pub proof fn lemma_part_lens(v: PageView)
    ensures
        v.body matches BodyView::Leaf { records, .. } ==> v.front().len() == SLOT_ENTRY_SIZE
            * records.len() && v.header().len() <= MAX_LEAF_HEADER_SIZE,
        v.body matches BodyView::Internal { keys, children } ==> v.front().len() == PAGE_ID_SIZE
            * children.len() + SLOT_ENTRY_SIZE * keys.len() && v.header().len()
            <= MAX_INTERNAL_HEADER_SIZE,
        v.item_refusal() is None ==> v.back().len() == match v.body {
            BodyView::Leaf { records, .. } => list_size::<Row>(records),
            BodyView::Internal { keys, .. } => list_size::<Key>(keys),
        },
        v.item_refusal() is None && v.used() <= PAGE_SIZE ==> v.header().len() + v.front().len()
            + v.back().len() <= PAGE_SIZE,
{
    lemma_header_len(v);
    match v.body {
        BodyView::Leaf { records, .. } => {
            lemma_slot_array_len::<Row>(records);
            if v.item_refusal() is None {
                lemma_data_area_len::<Row>(records);
            }
        },
        BodyView::Internal { keys, children } => {
            lemma_slot_array_len::<Key>(keys);
            lemma_children_len(children);
            if v.item_refusal() is None {
                lemma_data_area_len::<Key>(keys);
            }
        },
    }
}

/// What is written of a page can be written, and is all of it where nothing is refused.
proof fn lemma_accepted(v: PageView)
    ensures
        v.accepted().item_refusal() is None,
        v.item_refusal() is None ==> v.accepted() == v,
{
    match v.body {
        BodyView::Leaf { records, .. } => {
            assert(records.take(0) =~= Seq::empty());
            lemma_list_accepted_front::<Row>(records, 0);
        },
        BodyView::Internal { keys, .. } => {
            assert(keys.take(0) =~= Seq::empty());
            lemma_list_accepted_front::<Key>(keys, 0);
        },
    }
}

/// What is written of a page takes no more room than the page.
proof fn lemma_accepted_room(v: PageView)
    ensures
        v.accepted().items_room() <= v.items_room(),
{
    match v.body {
        BodyView::Leaf { records, .. } => lemma_list_accepted_size::<Row>(records),
        BodyView::Internal { keys, .. } => lemma_list_accepted_size::<Key>(keys),
    }
}

/// Where the LSN starts in a header: behind the tag and the id.
pub const LSN_START: usize = 1 + PAGE_ID_SIZE;

/// Where the LSN ends in a header.
pub const LSN_END: usize = LSN_START + 8;

/// The error of a header at `pos` that the page has no room for: that of the LSN where
/// it is the first part that does not fit.
pub open spec fn header_overflow(pos: int) -> PageError {
    if pos + LSN_START <= PAGE_SIZE < pos + LSN_END {
        PageError::LsnError(LsnError::IoError(IoError::WriteZero))
    } else {
        PageError::IoError(IoError::WriteZero)
    }
}

impl Page {
    /// Writes the header: the type tag, the id, the LSN and the parent, then the
    /// next and the previous page of a leaf, then the number of items.
    pub fn write_header(&self, writer: &mut PageWriter) -> (r: Result<(), PageError>)
        ensures
            final(writer)@ == written(old(writer)@, old(writer).pos(), self.deep_view().header()),
            final(writer).pos() == old(writer).pos() + fitting(
                old(writer).pos(),
                self.deep_view().header().len(),
            ),
            if fitting(old(writer).pos(), self.deep_view().header().len())
                == self.deep_view().header().len() {
                r is Ok
            } else {
                r is Err && r->Err_0 == header_overflow(old(writer).pos())
            },
    {
        let mut buffer: Vec<u8> = Vec::new();
        buffer.push(self.page_type_tag());
        let _ = self.page_id.serialize(&mut buffer);
        let _ = self.last_update.serialize(&mut buffer);
        let _ = self.parent.serialize(&mut buffer);
        match &self.body {
            PageBody::Leaf { next, prev, .. } => {
                let _ = next.serialize(&mut buffer);
                let _ = prev.serialize(&mut buffer);
            },
            PageBody::Internal { .. } => {},
        }
        // note the number of items stored on the page
        let num_items: u16 = self.num_items() as u16;
        push_be(&mut buffer, num_items as u64, 2);
        assert(buffer@ =~= self.deep_view().header());
        let start: usize = writer.position();
        match writer.write_all(&buffer) {
            Ok(_) => Ok(()),
            Err(e) => if start <= PAGE_SIZE - LSN_START && PAGE_SIZE - LSN_END < start {
                Err(PageError::LsnError(LsnError::IoError(e)))
            } else {
                Err(PageError::IoError(e))
            },
        }
    }

    /// Writes what follows the header, which ends at `header_end`. Gives where the
    /// slots end and where the data begins. An item that is refused stops it; what is
    /// in front of that item stays written.
    pub fn write_body(&self, writer: &mut PageWriter, header_end: usize) -> (r: Result<
        (usize, usize),
        PageError,
    >)
        requires
            ({
                let room = self.deep_view().accepted().items_room();
                room > 0 ==> header_end + room <= PAGE_SIZE
            }),
        ensures
            match self.deep_view().item_refusal() {
                None => {
                    &&& self.deep_view().accepted() == self.deep_view()
                    &&& r is Ok
                    &&& r->Ok_0.0 == header_end + self.deep_view().front().len()
                    &&& r->Ok_0.1 == PAGE_SIZE - self.deep_view().back().len()
                },
                Some(e) => r is Err && r->Err_0 == e,
            },
            final(writer)@ == filled(
                old(writer)@,
                header_end as int,
                self.deep_view().accepted().front(),
                self.deep_view().accepted().back(),
            ),
            final(writer).pos() == moved(
                old(writer).pos(),
                header_end as int,
                self.deep_view().accepted().front(),
            ),
    {
        let ghost v = self.deep_view();
        let ghost fine = v.accepted();
        proof {
            lemma_part_lens(v);
            lemma_accepted(v);
            lemma_part_lens(fine);
            writer.lemma_len();
        }
        match &self.body {
            PageBody::Leaf { records, .. } => write_items(writer, records, header_end),
            PageBody::Internal { keys, children } => {
                // children are fixed-width and stored in order right after the header
                let ghost before = writer@;
                proof {
                    lemma_children_len(children.deep_view());
                }
                let mut buffer: Vec<u8> = Vec::new();
                let _ = serialize_list(children, &mut buffer);
                assert(buffer@ =~= list_encoding::<PageId>(children.deep_view()));
                let mut slot_start: usize = header_end;
                if buffer.len() > 0 {
                    writer.set_position(header_end);
                    let _ = writer.write_all(&buffer);
                    slot_start = header_end + buffer.len();
                    proof {
                        lemma_filled_behind(
                            before,
                            header_end as int,
                            buffer@,
                            slot_array::<Key>(fine.body->keys),
                            fine.back(),
                        );
                    }
                }
                assert(fine.front() =~= buffer@ + slot_array::<Key>(fine.body->keys));
                write_items(writer, keys, slot_start)
            },
        }
    }

    /// The bytes of the page.
    pub fn as_raw_page(&self) -> (r: Result<RawPage, PageError>)
        ensures
            match Page::refusal(self.deep_view()) {
                None => r is Ok && r->Ok_0@ == self.deep_view().bytes(),
                Some(e) => r is Err && r->Err_0 == e,
            },
    {
        let ghost v = self.deep_view();
        if self.free_space().is_none() {
            return Err(PageError::PageOverFlow);
        }
        proof {
            lemma_part_lens(v);
        }
        let mut writer = PageWriter::new();
        let ghost zeros = writer@;
        match self.write_header(&mut writer) {
            Ok(_) => {},
            Err(e) => return Err(e),
        }
        let header_end: usize = writer.position();
        let ghost with_header = writer@;
        proof {
            lemma_accepted(v);
            lemma_accepted_room(v);
        }
        match self.write_body(&mut writer, header_end) {
            Ok(_) => {},
            Err(e) => return Err(e),
        }
        assert(with_header =~= v.header() + zeros.skip(v.header().len() as int));
        assert(filled(with_header, header_end as int, v.front(), v.back()) =~= v.bytes());
        Ok(writer.into_inner())
    }
}

/// What the bytes of a page are read as.
pub open spec fn page_decoding(raw: Seq<u8>) -> Result<PageView, PageError> {
    let leaf = raw[0] == LEAF_TAG;
    if raw[0] != LEAF_TAG && raw[0] != INTERNAL_TAG {
        Err(PageError::InvalidTag(raw[0]))
    } else {
        match header_decoding(leaf, raw.skip(1)) {
            Err(e) => Err(e),
            Ok((h, used)) => match page_body_decoding(leaf, h, raw, raw.skip(1 + used)) {
                Err(e) => Err(e),
                Ok(body) => if body.ordered() {
                    Ok(
                        PageView {
                            page_id: h.identity.page_id,
                            last_update: h.identity.last_update,
                            parent: h.identity.parent,
                            body,
                        },
                    )
                } else {
                    Err(PageError::Corrupt)
                },
            },
        }
    }
}

/// What the body of a page is read as, where `rest` is what follows the header.
#[verifier::opaque]
pub open spec fn page_body_decoding(leaf: bool, h: HeaderView, raw: Seq<u8>, rest: Seq<u8>) -> Result<
    BodyView,
    PageError,
> {
    if leaf {
        match items_decoding::<Row>(raw, rest, h.num_items) {
            Err(e) => Err(e),
            Ok(records) => Ok(BodyView::Leaf { records, next: h.links.next, prev: h.links.prev }),
        }
    } else {
        match list_decoding::<PageId>(rest, h.num_items + 1) {
            Err(e) => Err(PageError::IoError(e)),
            Ok((children, n)) => match items_decoding::<Key>(raw, rest.skip(n), h.num_items) {
                Err(e) => Err(e),
                Ok(keys) => Ok(BodyView::Internal { keys, children }),
            },
        }
    }
}

/// Where the parts of a page lie in its bytes.
proof fn lemma_page_parts(header: Seq<u8>, front: Seq<u8>, back: Seq<u8>) -> (tail: Seq<u8>)
    requires
        0 < header.len(),
        header.len() + front.len() + back.len() <= PAGE_SIZE,
    ensures
        ({
            let head = header + front;
            let raw = head + Seq::new(
                (PAGE_SIZE - head.len() - back.len()) as nat,
                |i: int| 0u8,
            ) + back;
            &&& raw.len() == PAGE_SIZE
            &&& raw == header + (front + tail)
            &&& raw.skip(header.len() as int) == front + tail
            &&& raw.skip(PAGE_SIZE - back.len()) == back
        }),
{
    let head = header + front;
    let gap = Seq::new((PAGE_SIZE - head.len() - back.len()) as nat, |i: int| 0u8);
    let raw = head + gap + back;
    let tail = gap + back;
    assert(raw =~= header + (front + tail));
    assert(raw.skip(header.len() as int) =~= front + tail);
    assert(raw.skip(PAGE_SIZE - back.len()) =~= back);
    tail
}

/// What is left behind the first of two parts.
proof fn lemma_two_parts(a: Seq<u8>, b: Seq<u8>, tail: Seq<u8>)
    ensures
        a + b + tail == a + (b + tail),
        (a + b + tail).skip(a.len() as int) == b + tail,
{
    assert(a + b + tail =~= a + (b + tail));
    assert((a + b + tail).skip(a.len() as int) =~= b + tail);
}

/// A body is read back as it was written.
proof fn lemma_body_roundtrip(v: PageView, raw: Seq<u8>, tail: Seq<u8>)
    requires
        v.body.ordered(),
        v.item_refusal() is None,
        raw.len() == PAGE_SIZE,
        v.back().len() <= PAGE_SIZE,
        raw.skip(PAGE_SIZE - v.back().len()) == v.back(),
    ensures
        page_body_decoding(v.body is Leaf, header_of(v), raw, v.front() + tail) == Ok::<
            BodyView,
            PageError,
        >(v.body),
{
    reveal(page_body_decoding);
    match v.body {
        BodyView::Leaf { records, .. } => {
            lemma_items_roundtrip::<Row>(raw, records, tail);
        },
        BodyView::Internal { keys, children } => {
            let kids = list_encoding::<PageId>(children);
            let slots = slot_array::<Key>(keys);
            lemma_children_len(children);
            lemma_list_roundtrip::<PageId>(children, slots + tail);
            lemma_two_parts(kids, slots, tail);
            lemma_items_roundtrip::<Key>(raw, keys, tail);
        },
    }
}

/// A page that is in order is read back from its bytes.
proof fn lemma_page_roundtrip(v: PageView)
    requires
        PageLsn::valid(v.last_update),
        v.body.ordered(),
        v.used() <= PAGE_SIZE,
        v.item_refusal() is None,
    ensures
        v.bytes().len() == PAGE_SIZE,
        page_decoding(v.bytes()) == Ok::<PageView, PageError>(v),
{
    lemma_part_lens(v);
    lemma_header_len(v);
    let tail = lemma_page_parts(v.header(), v.front(), v.back());
    lemma_header_roundtrip(v, v.front() + tail);
    lemma_body_roundtrip(v, v.bytes(), tail);
}

/// A page is written as its bytes, always as many. Reading takes as many, and
/// refuses items that are out of order.
impl Serializable for Page {
    type Error = PageError;

    open spec fn valid(v: PageView) -> bool {
        PageLsn::valid(v.last_update) && v.body.ordered()
    }

    open spec fn encoding(v: PageView) -> Seq<u8> {
        if Page::refusal(v) is None {
            v.bytes()
        } else {
            Seq::empty()
        }
    }

    open spec fn refusal(v: PageView) -> Option<PageError> {
        if v.used() > PAGE_SIZE {
            Some(PageError::PageOverFlow)
        } else {
            v.item_refusal()
        }
    }

    open spec fn size(v: PageView) -> nat {
        PAGE_SIZE as nat
    }

    open spec fn decoding(s: Seq<u8>) -> Result<(PageView, int), PageError> {
        if s.len() < PAGE_SIZE {
            Err(PageError::IoError(IoError::UnexpectedEof))
        } else {
            match page_decoding(s.take(PAGE_SIZE as int)) {
                Err(e) => Err(e),
                Ok(v) => Ok((v, PAGE_SIZE as int)),
            }
        }
    }

    open spec fn failure_reach(s: Seq<u8>) -> Option<int> {
        if s.len() < PAGE_SIZE {
            None
        } else {
            Some(PAGE_SIZE as int)
        }
    }

    open spec fn read_failure(e: IoError) -> PageError {
        PageError::IoError(e)
    }

    fn read_error(e: IoError) -> (r: PageError) {
        PageError::IoError(e)
    }

    fn serialize(&self, w: &mut Vec<u8>) -> (r: Result<(), PageError>) {
        let ghost before = w@;
        match self.as_raw_page() {
            Ok(raw) => {
                let mut bytes = vstd::slice::slice_to_vec(raw.as_slice());
                w.append(&mut bytes);
                Ok(())
            },
            Err(e) => {
                assert(w@ =~= before + Page::encoding(self.deep_view()));
                Err(e)
            },
        }
    }

    fn deserialize(r: &mut ByteReader<'_>) -> (out: Result<Self, PageError>)
        ensures
            old(r)@.len() >= PAGE_SIZE ==> final(r)@ == old(r)@.skip(PAGE_SIZE as int),
    {
        let raw = match r.take(PAGE_SIZE) {
            Ok(raw) => raw,
            Err(e) => return Err(PageError::IoError(e)),
        };
        reveal(page_body_decoding);
        let mut cursor = ByteReader::new(raw);
        let tag: u8 = match cursor.take(1) {
            Ok(bytes) => bytes[0],
            Err(e) => return Err(PageError::IoError(e)),
        };
        let leaf = match tag {
            INTERNAL_TAG => false,
            LEAF_TAG => true,
            _ => return Err(PageError::InvalidTag(tag)),
        };
        let header = match Header::read(leaf, &mut cursor) {
            Ok(header) => header,
            Err(e) => return Err(e),
        };
        proof {
            let used = header_decoding(leaf, raw@.skip(1))->Ok_0.1;
            assert(raw@.skip(1).skip(used) =~= raw@.skip(1 + used));
        }
        let body = if leaf {
            let records: Vec<Row> = match read_items(raw, &mut cursor, header.num_items) {
                Ok(records) => records,
                Err(e) => return Err(e),
            };
            PageBody::Leaf { records, next: header.next, prev: header.prev }
        } else {
            proof {
                lemma_list_decoding_within_input::<PageId>(cursor@, (header.num_items + 1) as nat);
            }
            let children: Vec<PageId> = match deserialize_list(&mut cursor, header.num_items + 1) {
                Ok(children) => children,
                Err(e) => return Err(PageError::IoError(e)),
            };
            let ghost slots = cursor@;
            let keys: Vec<Key> = match read_items(raw, &mut cursor, header.num_items) {
                Ok(keys) => keys,
                Err(e) => return Err(e),
            };
            proof {
                lemma_items_decoding_len::<Key>(raw@, slots, header.num_items as nat);
            }
            PageBody::Internal { keys, children }
        };
        if !body.is_ordered() {
            return Err(PageError::Corrupt);
        }
        Ok(
            Page {
                page_id: header.page_id,
                last_update: header.last_update,
                parent: header.parent,
                body,
            },
        )
    }

    fn encoded_size(&self) -> (n: usize) {
        PAGE_SIZE
    }

    proof fn law_decoding_within_input(s: Seq<u8>) {
    }

    proof fn law_failure_within_input(s: Seq<u8>) {
    }

    proof fn law_size_is_exact(v: PageView) {
        lemma_part_lens(v);
    }

    proof fn law_roundtrip(v: PageView, tail: Seq<u8>) {
        lemma_page_roundtrip(v);
        assert((v.bytes() + tail).take(PAGE_SIZE as int) =~= v.bytes());
    }

    proof fn law_truncated_is_refused(v: PageView, k: int) {
        lemma_part_lens(v);
    }
}

} // verus!

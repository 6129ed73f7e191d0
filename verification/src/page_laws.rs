//! Where everything lies in the bytes of a page, and what any such bytes are read as.
use crate::bytes::{be_bytes, lemma_pow_256_widths, IoError};
use crate::commontypes::{Key, KeyError, LsnError, PageId, PageLsn, SlotEntry};
use crate::format_laws::{law_identifiers_are_read_as_written, law_numbers_are_read_as_written};
use crate::header::{header_decoding, identity_decoding, links_decoding, HeaderView};
use crate::layout::{
    data_area, filled, fitting, items_decoding, last_slot, lemma_data_area_len,
    lemma_slot_array_len, moved, overwrite, slot_array, written, PageItem,
};
use crate::list::{
    lemma_list_size_monotonic, lemma_list_step, list_accepted, list_decoding, list_encoding,
    list_refusal, list_size,
};
use crate::order::strictly_sorted;
use crate::page::{
    header_overflow, lemma_children_len, lemma_part_lens, page_body_decoding, page_decoding,
    BodyView, Page, PageError, PageView,
};
use crate::schema::{Row, RowValueError};
use crate::traits::Serializable;
use vstd::prelude::*;

verus! {

/// Writing replaces just the bytes that are written to, as far as the page goes, and
/// leaves all others as they were.
pub proof fn law_writing_replaces_in_place(s: Seq<u8>, pos: int, d: Seq<u8>)
    requires
        s.len() == 4096,
        0 <= pos,
    ensures
        written(s, pos, d).len() == 4096,
        forall|i: int|
            0 <= i < 4096 ==> #[trigger] written(s, pos, d)[i] == if pos <= i < pos + d.len() {
                d[i - pos]
            } else {
                s[i]
            },
        fitting(pos, d.len()) <= d.len(),
        pos + d.len() <= 4096 ==> fitting(pos, d.len()) == d.len() && written(s, pos, d)
            == overwrite(s, pos, d),
        pos + d.len() > 4096 && pos <= 4096 ==> fitting(pos, d.len()) == 4096 - pos,
        pos > 4096 && d.len() > 0 ==> fitting(pos, d.len()) == 0,
{
    if pos + d.len() <= 4096 {
        assert(d.take(d.len() as int) =~= d);
    }
}

/// Filling a page puts one part at a place and the other at its end, and leaves what is
/// in between as it was. The writer then stands behind the first part.
pub proof fn law_filling_replaces_both_ends(
    s: Seq<u8>,
    pos: int,
    start: int,
    front: Seq<u8>,
    back: Seq<u8>,
)
    requires
        s.len() == 4096,
        0 <= start,
        start + front.len() + back.len() <= 4096,
    ensures
        filled(s, start, front, back).len() == 4096,
        forall|i: int|
            0 <= i < 4096 ==> #[trigger] filled(s, start, front, back)[i] == if start <= i < start
                + front.len() {
                front[i - start]
            } else if i >= 4096 - back.len() {
                back[i - (4096 - back.len())]
            } else {
                s[i]
            },
        front.len() > 0 ==> moved(pos, start, front) == start + front.len(),
        front.len() == 0 ==> moved(pos, start, front) == pos,
{
}

/// A header is the tag, 1 for a leaf and 2 for an internal page, the id, the LSN, the
/// parent, for a leaf the next and the previous page, and the number of items.
pub proof fn law_header_layout(v: PageView)
    ensures
        match v.body {
            BodyView::Leaf { records, next, prev } => records.len() <= 0xffff ==> v.header()
                == seq![1u8] + PageId::encoding(v.page_id) + PageLsn::encoding(v.last_update)
                + Option::<PageId>::encoding(v.parent) + Option::<PageId>::encoding(next) + Option::<
                PageId,
            >::encoding(prev) + be_bytes(records.len(), 2),
            BodyView::Internal { keys, .. } => keys.len() <= 0xffff ==> v.header() == seq![2u8]
                + PageId::encoding(v.page_id) + PageLsn::encoding(v.last_update) + Option::<
                PageId,
            >::encoding(v.parent) + be_bytes(keys.len(), 2),
        },
        v.tag() == if v.body is Leaf {
            1u8
        } else {
            2u8
        },
        v.num_items() == match v.body {
            BodyView::Leaf { records, .. } => records.len(),
            BodyView::Internal { keys, .. } => keys.len(),
        },
{
    match v.body {
        BodyView::Leaf { records, next, prev } => {
            if records.len() <= 0xffff {
                assert(v.header() =~= seq![1u8] + PageId::encoding(v.page_id) + PageLsn::encoding(
                    v.last_update,
                ) + Option::<PageId>::encoding(v.parent) + Option::<PageId>::encoding(next)
                    + Option::<PageId>::encoding(prev) + be_bytes(records.len(), 2));
            }
        },
        BodyView::Internal { keys, .. } => {
            if keys.len() <= 0xffff {
                assert(v.header() =~= seq![2u8] + PageId::encoding(v.page_id) + PageLsn::encoding(
                    v.last_update,
                ) + Option::<PageId>::encoding(v.parent) + be_bytes(keys.len(), 2));
            }
        },
    }
}

/// The data of items lies back to front: that of an item ends where the items in front of
/// it begin to be stored.
proof fn lemma_data_of_item<T: Serializable>(vs: Seq<T::V>, i: int)
    requires
        list_refusal::<T>(vs) is None,
        0 <= i < vs.len(),
    ensures
        ({
            let total = list_size::<T>(vs);
            let to = total - list_size::<T>(vs.take(i));
            let from = total - list_size::<T>(vs.take(i + 1));
            &&& data_area::<T>(vs).len() == total
            &&& 0 <= from <= to <= total
            &&& to - from == T::size(vs[i])
            &&& data_area::<T>(vs).subrange(from, to) == T::encoding(vs[i])
            &&& T::refusal(vs[i]) is None
        }),
    decreases vs.len(),
{
    let front = vs.drop_last();
    let enc = T::encoding(vs.last());
    lemma_data_area_len::<T>(vs);
    lemma_data_area_len::<T>(front);
    T::law_size_is_exact(vs.last());
    lemma_list_step::<T>(vs, i);
    lemma_list_size_monotonic::<T>(vs, i + 1);
    let total = list_size::<T>(vs);
    let to = total - list_size::<T>(vs.take(i));
    let from = total - list_size::<T>(vs.take(i + 1));
    if i == vs.len() - 1 {
        assert(vs.take(i) =~= front);
        assert(vs.take(i + 1) =~= vs);
        assert(data_area::<T>(vs).subrange(0, enc.len() as int) =~= enc);
    } else {
        lemma_data_of_item::<T>(front, i);
        assert(front.take(i) =~= vs.take(i));
        assert(front.take(i + 1) =~= vs.take(i + 1));
        assert(data_area::<T>(vs).subrange(from, to) =~= data_area::<T>(front).subrange(
            from - enc.len(),
            to - enc.len(),
        ));
    }
}

/// The slot of an item says where its data begins in the page, and how long it is.
proof fn lemma_slot_of_item<T: Serializable>(vs: Seq<T::V>, i: int)
    requires
        list_refusal::<T>(vs) is None,
        list_size::<T>(vs) <= 4096,
        0 <= i < vs.len(),
    ensures
        slot_array::<T>(vs).len() == 4 * vs.len(),
        slot_array::<T>(vs).subrange(4 * i, 4 * i + 4) == SlotEntry::encoding(
            SlotEntry {
                offset: (4096 - list_size::<T>(vs.take(i + 1))) as u16,
                length: T::size(vs[i]) as u16,
            },
        ),
    decreases vs.len(),
{
    let front = vs.drop_last();
    lemma_slot_array_len::<T>(vs);
    lemma_slot_array_len::<T>(front);
    SlotEntry::law_size_is_exact(last_slot::<T>(vs));
    if i == vs.len() - 1 {
        lemma_data_area_len::<T>(vs);
        T::law_size_is_exact(vs.last());
        assert(vs.take(i + 1) =~= vs);
        assert(slot_array::<T>(vs).subrange(4 * i, 4 * i + 4) =~= SlotEntry::encoding(
            last_slot::<T>(vs),
        ));
    } else {
        lemma_slot_of_item::<T>(front, i);
        assert(front.take(i + 1) =~= vs.take(i + 1));
        assert(slot_array::<T>(vs).subrange(4 * i, 4 * i + 4) =~= slot_array::<T>(front).subrange(
            4 * i,
            4 * i + 4,
        ));
    }
}

/// The children of an internal page are stored one behind the other.
proof fn lemma_child_at(children: Seq<PageId>, j: int)
    requires
        0 <= j < children.len(),
    ensures
        list_encoding::<PageId>(children).len() == 8 * children.len(),
        list_encoding::<PageId>(children).subrange(8 * j, 8 * j + 8) == PageId::encoding(
            children[j],
        ),
    decreases children.len(),
{
    let front = children.drop_last();
    let enc = list_encoding::<PageId>(front);
    let last = PageId::encoding(children.last());
    PageId::law_size_is_exact(children.last());
    lemma_no_refusal(front);
    lemma_children_len(front);
    lemma_children_len(children);
    assert(list_encoding::<PageId>(children) == enc + last);
    if j == children.len() - 1 {
        assert((enc + last).subrange(8 * j, 8 * j + 8) =~= last);
    } else {
        lemma_child_at(front, j);
        assert((enc + last).subrange(8 * j, 8 * j + 8) =~= enc.subrange(8 * j, 8 * j + 8));
    }
}

proof fn lemma_no_refusal(children: Seq<PageId>)
    ensures
        list_refusal::<PageId>(children) is None,
    decreases children.len(),
{
    if children.len() > 0 {
        lemma_no_refusal(children.drop_last());
    }
}

/// A page starts with its header.
pub proof fn law_page_starts_with_its_header(v: PageView)
    requires
        Page::refusal(v) is None,
    ensures
        Page::encoding(v) == v.bytes(),
        v.bytes().len() == 4096,
        v.bytes().take(v.header().len() as int) == v.header(),
{
    lemma_part_lens(v);
    assert(v.bytes().take(v.header().len() as int) =~= v.header());
}

/// Where a row lies in a leaf: its slot, the four bytes at its place behind the header,
/// gives the offset and the length of its data, and there its encoding stands. The data
/// of the rows lies back to front from the end of the page, without gaps.
pub proof fn law_rows_lie_where_their_slots_say(v: PageView, i: int)
    requires
        Page::refusal(v) is None,
        v.body is Leaf,
        0 <= i < v.body->records.len(),
    ensures
        ({
            let raw = v.bytes();
            let rows = v.body->records;
            let slot = v.header().len() + 4 * i;
            let offset = 4096 - list_size::<Row>(rows.take(i + 1));
            let length = Row::size(rows[i]) as int;
            &&& 0 <= offset
            &&& offset + length == 4096 - list_size::<Row>(rows.take(i))
            &&& raw.subrange(slot, slot + 4) == be_bytes(offset as nat, 2) + be_bytes(
                length as nat,
                2,
            )
            &&& raw.subrange(offset, offset + length) == Row::encoding(rows[i])
        }),
{
    let rows = v.body->records;
    let raw = v.bytes();
    let slot = v.header().len() + 4 * i;
    let total = list_size::<Row>(rows);
    lemma_part_lens(v);
    lemma_slot_of_item::<Row>(rows, i);
    lemma_data_of_item::<Row>(rows, i);
    let to = total - list_size::<Row>(rows.take(i));
    let from = total - list_size::<Row>(rows.take(i + 1));
    assert(raw.subrange(slot, slot + 4) =~= v.front().subrange(4 * i, 4 * i + 4));
    assert(raw.subrange(4096 - total + from, 4096 - total + to) =~= v.back().subrange(from, to));
}

/// Where a key lies in an internal page: as a row does in a leaf, with its slot behind the
/// children.
pub proof fn law_keys_lie_where_their_slots_say(v: PageView, i: int)
    requires
        Page::refusal(v) is None,
        v.body is Internal,
        0 <= i < v.body->keys.len(),
    ensures
        ({
            let raw = v.bytes();
            let keys = v.body->keys;
            let slot = v.header().len() + 8 * v.body->children.len() + 4 * i;
            let offset = 4096 - list_size::<Key>(keys.take(i + 1));
            let length = Key::size(keys[i]) as int;
            &&& 0 <= offset
            &&& offset + length == 4096 - list_size::<Key>(keys.take(i))
            &&& raw.subrange(slot, slot + 4) == be_bytes(offset as nat, 2) + be_bytes(
                length as nat,
                2,
            )
            &&& raw.subrange(offset, offset + length) == Key::encoding(keys[i])
        }),
{
    let keys = v.body->keys;
    let children = v.body->children;
    let raw = v.bytes();
    let at = 8 * children.len() + 4 * i;
    let slot = v.header().len() + at;
    let total = list_size::<Key>(keys);
    lemma_part_lens(v);
    lemma_slot_of_item::<Key>(keys, i);
    lemma_data_of_item::<Key>(keys, i);
    if children.len() > 0 {
        lemma_child_at(children, 0);
    }
    let to = total - list_size::<Key>(keys.take(i));
    let from = total - list_size::<Key>(keys.take(i + 1));
    assert(raw.subrange(slot, slot + 4) =~= v.front().subrange(at, at + 4));
    assert(v.front().subrange(at, at + 4) =~= slot_array::<Key>(keys).subrange(4 * i, 4 * i + 4));
    assert(raw.subrange(4096 - total + from, 4096 - total + to) =~= v.back().subrange(from, to));
}

/// The children of an internal page stand right behind its header, eight bytes each, in
/// their order.
pub proof fn law_children_follow_the_header(v: PageView, j: int)
    requires
        Page::refusal(v) is None,
        v.body is Internal,
        0 <= j < v.body->children.len(),
    ensures
        ({
            let at = v.header().len() + 8 * j;
            v.bytes().subrange(at, at + 8) == PageId::encoding(v.body->children[j])
        }),
{
    let children = v.body->children;
    let at = v.header().len() + 8 * j;
    lemma_part_lens(v);
    lemma_child_at(children, j);
    assert(v.bytes().subrange(at, at + 8) =~= list_encoding::<PageId>(children).subrange(
        8 * j,
        8 * j + 8,
    ));
}

/// What lies between the slots and the data is zero.
pub proof fn law_the_gap_is_zero(v: PageView, k: int)
    requires
        Page::refusal(v) is None,
        match v.body {
            BodyView::Leaf { records, .. } => v.header().len() + 4 * records.len() <= k < 4096
                - list_size::<Row>(records),
            BodyView::Internal { keys, children } => v.header().len() + 8 * children.len() + 4
                * keys.len() <= k < 4096 - list_size::<Key>(keys),
        },
    ensures
        v.bytes()[k] == 0,
{
    lemma_part_lens(v);
}

/// A page is refused where it takes more than 4096 bytes, and else with the error of its
/// first row or key that cannot be written; if there is none, it is written.
pub proof fn law_refused_pages_say_why(v: PageView)
    ensures
        v.used() > 4096 ==> Page::refusal(v) == Some(PageError::PageOverFlow),
        v.used() <= 4096 ==> match v.body {
            BodyView::Leaf { records, .. } => match list_refusal::<Row>(records) {
                Some(e) => Page::refusal(v) == Some(PageError::Value(e)),
                None => Page::refusal(v) is None,
            },
            BodyView::Internal { keys, .. } => match list_refusal::<Key>(keys) {
                Some(e) => Page::refusal(v) == Some(PageError::Key(e)),
                None => Page::refusal(v) is None,
            },
        },
        Page::refusal(v) is Some ==> Page::encoding(v) == Seq::<u8>::empty(),
        Page::size(v) == 4096,
        Page::valid(v) <==> v.last_update != Some(0u64) && v.body.ordered(),
{
}

/// The error for a header that does not fit: the LSN's own where the page ends in it or
/// right in front of it.
pub proof fn law_header_overflow_names_the_lsn(pos: int)
    ensures
        4080 <= pos <= 4087 ==> header_overflow(pos) == PageError::LsnError(
            LsnError::IoError(IoError::WriteZero),
        ),
        pos < 4080 || pos > 4087 ==> header_overflow(pos) == PageError::IoError(IoError::WriteZero),
{
}

/// What is written of a page up to the first row or key that is refused.
pub proof fn law_accepted_part_of_a_page(v: PageView)
    ensures
        v.accepted().page_id == v.page_id,
        v.accepted().last_update == v.last_update,
        v.accepted().parent == v.parent,
        v.body matches BodyView::Leaf { records, next, prev } ==> v.accepted().body == (
        BodyView::Leaf { records: list_accepted::<Row>(records), next, prev }),
        v.body matches BodyView::Internal { keys, children } ==> v.accepted().body == (
        BodyView::Internal { keys: list_accepted::<Key>(keys), children }),
{
}

/// Whether the item `i` is read as `v`: its slot is there and points into the page, and
/// the bytes that it points to are read as `v`.
pub open spec fn read_at<T: PageItem>(raw: Seq<u8>, slots: Seq<u8>, i: int, v: T::V) -> bool {
    &&& 4 * i + 4 <= slots.len()
    &&& exists|slot: SlotEntry|
        {
            &&& #[trigger] SlotEntry::encoding(slot) == slots.subrange(4 * i, 4 * i + 4)
            &&& slot.offset + slot.length <= raw.len()
            &&& T::decoding(raw.subrange(slot.offset as int, slot.offset + slot.length)) matches Ok(
                (x, _),
            ) && x == v
        }
}

/// Why the item `i` is not read: its slot is not there, or points out of the page, or the
/// bytes that it points to are not read.
pub open spec fn refused_at<T: PageItem>(
    raw: Seq<u8>,
    slots: Seq<u8>,
    i: int,
    e: PageError,
) -> bool {
    ||| 4 * i + 4 > slots.len() && e == PageError::IoError(IoError::UnexpectedEof)
    ||| 4 * i + 4 <= slots.len() && exists|slot: SlotEntry|
        {
            &&& #[trigger] SlotEntry::encoding(slot) == slots.subrange(4 * i, 4 * i + 4)
            &&& if slot.offset + slot.length > raw.len() {
                e == PageError::Corrupt
            } else {
                T::decoding(raw.subrange(slot.offset as int, slot.offset + slot.length)) matches Err(
                    x,
                ) && e == T::page_failure(x)
            }
        }
}

/// Items are read through their slots, in their order; where one is not, reading fails
/// with the error of the first.
pub proof fn law_items_are_read_through_their_slots<T: PageItem>(
    raw: Seq<u8>,
    slots: Seq<u8>,
    n: nat,
)
    ensures
        match items_decoding::<T>(raw, slots, n) {
            Ok(vs) => vs.len() == n && forall|i: int|
                0 <= i < n ==> read_at::<T>(raw, slots, i, #[trigger] vs[i]),
            Err(e) => exists|i: int|
                {
                    &&& 0 <= i < n
                    &&& #[trigger] refused_at::<T>(raw, slots, i, e)
                    &&& items_decoding::<T>(raw, slots, i as nat) is Ok
                },
        },
    decreases n,
{
    if n > 0 {
        let m = (n - 1) as nat;
        law_items_are_read_through_their_slots::<T>(raw, slots, m);
        if let Ok(vs) = items_decoding::<T>(raw, slots, m) {
            let at = 4 * (n - 1);
            if at + 4 <= slots.len() {
                let rest = slots.skip(at);
                law_identifiers_are_read_as_written(rest);
                assert(rest.take(4) =~= slots.subrange(at, at + 4));
                let slot = SlotEntry::decoding(rest)->Ok_0.0;
                assert(SlotEntry::encoding(slot) == slots.subrange(at, at + 4));
            } else if at <= slots.len() {
                law_identifiers_are_read_as_written(slots.skip(at));
            } else {
                lemma_no_slot::<T>(raw, slots, m);
            }
            match items_decoding::<T>(raw, slots, n) {
                Ok(all) => {
                    assert forall|i: int| 0 <= i < n implies read_at::<T>(
                        raw,
                        slots,
                        i,
                        #[trigger] all[i],
                    ) by {
                        if i < m {
                            assert(all[i] == vs[i]);
                        }
                    }
                },
                Err(e) => {
                    let i = m as int;
                    assert(refused_at::<T>(raw, slots, i, e));
                },
            }
        }
    }
}

/// Items are not read through slots that are not there.
proof fn lemma_no_slot<T: PageItem>(raw: Seq<u8>, slots: Seq<u8>, m: nat)
    requires
        items_decoding::<T>(raw, slots, m) is Ok,
    ensures
        4 * m <= slots.len(),
    decreases m,
{
    if m > 0 {
        lemma_no_slot::<T>(raw, slots, (m - 1) as nat);
        law_identifiers_are_read_as_written(slots.skip(4 * (m - 1)));
    }
}

/// The bytes behind the tag that a header is written as.
pub open spec fn header_bytes(leaf: bool, h: HeaderView) -> Seq<u8> {
    PageId::encoding(h.identity.page_id) + PageLsn::encoding(h.identity.last_update) + Option::<
        PageId,
    >::encoding(h.identity.parent) + (if leaf {
        Option::<PageId>::encoding(h.links.next) + Option::<PageId>::encoding(h.links.prev)
    } else {
        Seq::empty()
    }) + be_bytes(h.num_items, 2)
}

/// An optional page id that is read is written as the bytes it was read from, and where
/// there are nine bytes it is refused for its first one alone.
proof fn lemma_link_is_read_as_written(s: Seq<u8>)
    ensures
        match Option::<PageId>::decoding(s) {
            Ok((v, n)) => {
                &&& 0 < n <= s.len()
                &&& Option::<PageId>::encoding(v) == s.take(n)
                &&& n == 1 + 8 * s[0]
                &&& s[0] <= 1
            },
            Err(e) => s.len() >= 9 ==> s[0] > 1 && e == IoError::InvalidData,
        },
{
    if s.len() > 0 {
        law_identifiers_are_read_as_written(s.skip(1));
        if s[0] == 1 && s.len() >= 9 {
            assert(s.take(9) =~= seq![1u8] + s.skip(1).take(8));
        }
        assert(s.take(1) =~= seq![s[0]]);
    }
}

proof fn lemma_identity_is_read_as_written(s: Seq<u8>)
    ensures
        match identity_decoding(s) {
            Ok((v, n)) => {
                &&& 17 <= n <= s.len()
                &&& PageId::encoding(v.page_id) + PageLsn::encoding(v.last_update) + Option::<
                    PageId,
                >::encoding(v.parent) == s.take(n)
                &&& n == 17 + 8 * s[16]
                &&& s[16] <= 1
            },
            Err(e) => s.len() >= 25 ==> s[16] > 1 && e == PageError::IoError(IoError::InvalidData),
        },
{
    reveal(identity_decoding);
    assert(match PageId::decoding(s) {
        Ok((v, n)) => n == 8 && s.len() >= 8 && PageId::encoding(v) == s.take(8),
        Err(e) => s.len() < 8,
    }) by {
        law_identifiers_are_read_as_written(s);
    }
    if s.len() >= 8 {
        let t = s.skip(8);
        assert(match PageLsn::decoding(t) {
            Ok((v, n)) => n == 8 && t.len() >= 8 && PageLsn::encoding(v) == t.take(8),
            Err(e) => t.len() < 8,
        }) by {
            law_identifiers_are_read_as_written(t);
        }
        if s.len() >= 16 {
            lemma_link_is_read_as_written(s.skip(16));
            if let Ok((_, n)) = Option::<PageId>::decoding(s.skip(16)) {
                lemma_three_takes(s, n);
            }
        }
    }
}

proof fn lemma_three_takes(s: Seq<u8>, n: int)
    requires
        0 <= n,
        16 + n <= s.len(),
    ensures
        s.take(8) + s.skip(8).take(8) + s.skip(16).take(n) == s.take(16 + n),
{
    assert(s.take(8) + s.skip(8).take(8) + s.skip(16).take(n) =~= s.take(16 + n));
}

proof fn lemma_links_are_read_as_written(leaf: bool, s: Seq<u8>)
    ensures
        match links_decoding(leaf, s) {
            Ok((v, n)) => if leaf {
                &&& 2 <= n <= s.len()
                &&& Option::<PageId>::encoding(v.next) + Option::<PageId>::encoding(v.prev)
                    == s.take(n)
                &&& s[0] <= 1
                &&& s[1 + 8 * s[0]] <= 1
                &&& n == 2 + 8 * s[0] + 8 * s[1 + 8 * s[0]]
            } else {
                n == 0 && v.next is None && v.prev is None
            },
            Err(e) => {
                &&& leaf
                &&& s.len() >= 18 ==> (s[0] > 1 || s[1 + 8 * s[0]] > 1) && e == PageError::IoError(
                    IoError::InvalidData,
                )
            },
        },
{
    reveal(links_decoding);
    if leaf {
        lemma_link_is_read_as_written(s);
        if let Ok((_, n)) = Option::<PageId>::decoding(s) {
            lemma_link_is_read_as_written(s.skip(n));
            if let Ok((_, m)) = Option::<PageId>::decoding(s.skip(n)) {
                assert(s.take(n) + s.skip(n).take(m) =~= s.take(n + m));
            }
        }
    }
}

/// A header is read as what is written as its bytes. Where there are enough bytes for any
/// header, reading it fails exactly when a byte in front of an optional id is neither 0
/// nor 1: that of the parent, or in a leaf that of the next or of the previous page.
pub proof fn law_headers_are_read_as_written(leaf: bool, s: Seq<u8>)
    ensures
        match header_decoding(leaf, s) {
            Ok((h, n)) => {
                &&& 0 < n <= s.len()
                &&& h.num_items <= 0xffff
                &&& header_bytes(leaf, h) == s.take(n)
                &&& !leaf ==> h.links.next is None && h.links.prev is None
                &&& s[16] <= 1
                &&& leaf ==> {
                    let next = 17 + 8 * s[16];
                    s[next] <= 1 && s[next + 1 + 8 * s[next]] <= 1
                }
            },
            Err(e) => s.len() >= 45 ==> {
                &&& e == PageError::IoError(IoError::InvalidData)
                &&& s[16] > 1 || leaf && {
                    let next = 17 + 8 * s[16];
                    s[next] > 1 || s[next + 1 + 8 * s[next]] > 1
                }
            },
        },
{
    reveal(header_decoding);
    lemma_identity_is_read_as_written(s);
    if let Ok((identity, a)) = identity_decoding(s) {
        let t = s.skip(a);
        lemma_links_are_read_as_written(leaf, t);
        if let Ok((links, b)) = links_decoding(leaf, t) {
            let u = s.skip(a + b);
            lemma_pow_256_widths();
            law_numbers_are_read_as_written(u, 2);
            if u.len() >= 2 {
                if leaf {
                    assert(s.take(a) + t.take(b) + u.take(2) =~= s.take(a + b + 2));
                } else {
                    assert(s.take(a) + Seq::<u8>::empty() + u.take(2) =~= s.take(a + b + 2));
                }
            }
        }
    }
}

/// A page is read from the first 4096 bytes. Its first byte says whether it is a leaf, and
/// any other but 1 and 2 is refused; then comes its header, and its items are read through
/// the slots that follow.
pub proof fn law_pages_are_read_as_written(s: Seq<u8>)
    ensures
        s.len() < 4096 ==> Page::decoding(s) == Err::<(PageView, int), PageError>(
            PageError::IoError(IoError::UnexpectedEof),
        ) && Page::failure_reach(s) is None,
        s.len() >= 4096 ==> Page::failure_reach(s) == Some(4096int),
        s.len() >= 4096 && s[0] != 1 && s[0] != 2 ==> Page::decoding(s) == Err::<
            (PageView, int),
            PageError,
        >(PageError::InvalidTag(s[0])),
        Page::decoding(s) matches Ok((v, n)) ==> {
            let raw = s.take(4096);
            let head = v.header().len() as int;
            &&& n == 4096
            &&& v.body is Leaf <==> s[0] == 1
            &&& v.body is Internal <==> s[0] == 2
            &&& v.body.ordered()
            &&& raw.take(head) == v.header()
            &&& match v.body {
                BodyView::Leaf { records, .. } => forall|i: int|
                    0 <= i < records.len() ==> read_at::<Row>(
                        raw,
                        raw.skip(head),
                        i,
                        #[trigger] records[i],
                    ),
                BodyView::Internal { keys, children } => {
                    let kids = head + 8 * children.len();
                    &&& kids <= 4096
                    &&& raw.subrange(head, kids) == list_encoding::<PageId>(children)
                    &&& forall|i: int|
                        0 <= i < keys.len() ==> read_at::<Key>(
                            raw,
                            raw.skip(kids),
                            i,
                            #[trigger] keys[i],
                        )
                },
            }
        },
{
    if s.len() >= 4096 {
        let raw = s.take(4096);
        if let Ok((v, _)) = Page::decoding(s) {
            lemma_read_header_is_written(raw, v);
            if raw[0] == 1 {
                lemma_read_leaf(raw, v);
            } else {
                lemma_read_internal(raw, v);
            }
        }
    }
}

/// A page that was read starts with its header.
proof fn lemma_read_header_is_written(raw: Seq<u8>, v: PageView)
    requires
        raw.len() == 4096,
        page_decoding(raw) == Ok::<PageView, PageError>(v),
    ensures
        ({
            let leaf = raw[0] == 1;
            let (h, used) = header_decoding(leaf, raw.skip(1))->Ok_0;
            &&& header_decoding(leaf, raw.skip(1)) is Ok
            &&& v.body is Leaf <==> leaf
            &&& v.num_items() == h.num_items
            &&& v.header().len() == 1 + used
            &&& 1 + used <= 4096
            &&& raw.take(1 + used) == v.header()
        }),
{
    let leaf = raw[0] == 1;
    let t = raw.skip(1);
    law_headers_are_read_as_written(leaf, t);
    let (h, used) = header_decoding(leaf, t)->Ok_0;
    let rest = raw.skip(1 + used);
    assert(v.num_items() == h.num_items && (v.body is Leaf <==> leaf) && v.links() == h.links) by {
        reveal(page_body_decoding);
        if leaf {
            law_items_are_read_through_their_slots::<Row>(raw, rest, h.num_items);
        } else if let Ok((_, n)) = list_decoding::<PageId>(rest, h.num_items + 1) {
            law_items_are_read_through_their_slots::<Key>(raw, rest.skip(n), h.num_items);
        }
    }
    assert(v.identity() == h.identity);
    assert(v.header() =~= seq![raw[0]] + header_bytes(leaf, h));
    assert(raw.take(1 + used) =~= seq![raw[0]] + t.take(used));
}

/// The rows of a leaf that was read are read through its slots.
proof fn lemma_read_leaf(raw: Seq<u8>, v: PageView)
    requires
        raw.len() == 4096,
        raw[0] == 1,
        page_decoding(raw) == Ok::<PageView, PageError>(v),
    ensures
        v.body is Leaf,
        forall|i: int|
            0 <= i < v.body->records.len() ==> read_at::<Row>(
                raw,
                raw.skip(v.header().len() as int),
                i,
                #[trigger] v.body->records[i],
            ),
{
    lemma_read_header_is_written(raw, v);
    let (h, used) = header_decoding(true, raw.skip(1))->Ok_0;
    reveal(page_body_decoding);
    law_items_are_read_through_their_slots::<Row>(raw, raw.skip(1 + used), h.num_items);
}

/// The children of an internal page that was read stand behind its header, and its keys
/// are read through the slots behind them.
proof fn lemma_read_internal(raw: Seq<u8>, v: PageView)
    requires
        raw.len() == 4096,
        raw[0] != 1,
        page_decoding(raw) == Ok::<PageView, PageError>(v),
    ensures
        v.body is Internal,
        ({
            let head = v.header().len() as int;
            let kids = head + 8 * v.body->children.len();
            &&& kids <= 4096
            &&& raw.subrange(head, kids) == list_encoding::<PageId>(v.body->children)
            &&& forall|i: int|
                0 <= i < v.body->keys.len() ==> read_at::<Key>(
                    raw,
                    raw.skip(kids),
                    i,
                    #[trigger] v.body->keys[i],
                )
        }),
{
    lemma_read_header_is_written(raw, v);
    let (h, used) = header_decoding(false, raw.skip(1))->Ok_0;
    let rest = raw.skip(1 + used);
    reveal(page_body_decoding);
    lemma_children_are_read_as_written(rest, h.num_items + 1);
    let (children, n) = list_decoding::<PageId>(rest, h.num_items + 1)->Ok_0;
    law_items_are_read_through_their_slots::<Key>(raw, rest.skip(n), h.num_items);
    assert(rest.skip(n) =~= raw.skip(1 + used + n));
    assert(raw.subrange(1 + used, 1 + used + n) =~= rest.take(n));
}

proof fn lemma_children_are_read_as_written(s: Seq<u8>, n: nat)
    ensures
        list_decoding::<PageId>(s, n) matches Ok((children, used)) ==> {
            &&& children.len() == n
            &&& used == 8 * n
            &&& used <= s.len()
            &&& list_encoding::<PageId>(children) == s.take(used)
        },
        s.len() >= 8 * n ==> list_decoding::<PageId>(s, n) is Ok,
    decreases n,
{
    if n > 0 {
        let m = (n - 1) as nat;
        lemma_children_are_read_as_written(s, m);
        if let Ok((front, used)) = list_decoding::<PageId>(s, m) {
            law_identifiers_are_read_as_written(s.skip(used));
            if let Ok((last, _)) = PageId::decoding(s.skip(used)) {
                let children = front.push(last);
                assert(children.drop_last() =~= front);
                lemma_no_refusal(front);
                assert(s.take(used) + s.skip(used).take(8) =~= s.take(used + 8));
            }
        }
    } else {
        assert(s.take(0) =~= Seq::empty());
    }
}

/// Why a page of 4096 bytes with a good first byte is not read: its header is refused; or
/// it says that there are more children than the page has room for; or an item is not
/// read; or the items are out of order.
pub proof fn law_unread_pages_say_why(s: Seq<u8>)
    requires
        s.len() >= 4096,
        s[0] == 1 || s[0] == 2,
    ensures
        ({
            let raw = s.take(4096);
            let leaf = s[0] == 1;
            match header_decoding(leaf, raw.skip(1)) {
                Err(e) => Page::decoding(s) == Err::<(PageView, int), PageError>(e),
                Ok((h, used)) => {
                    let rest = raw.skip(1 + used);
                    let n = h.num_items;
                    if leaf {
                        match items_decoding::<Row>(raw, rest, n) {
                            Err(e) => Page::decoding(s) == Err::<(PageView, int), PageError>(e),
                            Ok(records) => {
                                let body = BodyView::Leaf {
                                    records,
                                    next: h.links.next,
                                    prev: h.links.prev,
                                };
                                Page::decoding(s) is Err ==> !body.ordered() && Page::decoding(s)
                                    == Err::<(PageView, int), PageError>(PageError::Corrupt)
                            },
                        }
                    } else if rest.len() < 8 * (n + 1) {
                        Page::decoding(s) == Err::<(PageView, int), PageError>(
                            PageError::IoError(IoError::UnexpectedEof),
                        )
                    } else {
                        match items_decoding::<Key>(raw, rest.skip(8 * (n + 1) as int), n) {
                            Err(e) => Page::decoding(s) == Err::<(PageView, int), PageError>(e),
                            Ok(keys) => Page::decoding(s) is Err ==> !strictly_sorted(
                                keys,
                            ) && Page::decoding(s) == Err::<(PageView, int), PageError>(
                                PageError::Corrupt,
                            ),
                        }
                    }
                },
            }
        }),
{
    let raw = s.take(4096);
    let leaf = s[0] == 1;
    reveal(page_body_decoding);
    law_headers_are_read_as_written(leaf, raw.skip(1));
    if let Ok((h, used)) = header_decoding(leaf, raw.skip(1)) {
        let rest = raw.skip(1 + used);
        if !leaf {
            lemma_children_are_read_as_written(rest, h.num_items + 1);
            if rest.len() < 8 * (h.num_items + 1) {
                lemma_short_children(rest, h.num_items + 1);
            }
            if let Ok((children, n)) = list_decoding::<PageId>(rest, h.num_items + 1) {
                law_items_are_read_through_their_slots::<Key>(raw, rest.skip(n), h.num_items);
            }
        }
    }
}

/// Children that are not all there are not read.
proof fn lemma_short_children(s: Seq<u8>, n: nat)
    requires
        s.len() < 8 * n,
    ensures
        list_decoding::<PageId>(s, n) is Err,
        list_decoding::<PageId>(s, n)->Err_0 == IoError::UnexpectedEof,
    decreases n,
{
    let m = (n - 1) as nat;
    if s.len() < 8 * m {
        lemma_short_children(s, m);
    } else {
        lemma_children_are_read_as_written(s, m);
        if let Ok((_, used)) = list_decoding::<PageId>(s, m) {
            law_identifiers_are_read_as_written(s.skip(used));
        }
    }
}

/// A page reports the errors of its rows and keys as such.
pub proof fn law_page_errors_hold_item_errors(e: RowValueError, k: KeyError)
    ensures
        Row::page_failure(e) == PageError::Value(e),
        Key::page_failure(k) == PageError::Key(k),
{
}

} // verus!

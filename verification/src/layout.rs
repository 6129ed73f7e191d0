//! Where the items of a page lie in its bytes: a slot array that grows from the
//! front, and the items' data that grows from the back.
use crate::bytes::{ByteReader, IoError};
use crate::commontypes::{Key, KeyError, SlotEntry, SLOT_ENTRY_SIZE};
use crate::list::{
    lemma_list_accepted_front, lemma_list_accepted_is, lemma_list_size_monotonic, lemma_list_step,
    lemma_list_stops_early, list_accepted, list_refusal, list_size, list_valid,
};
use crate::page::{PageError, RawPage, PAGE_SIZE};
use crate::schema::{Row, RowValueError};
use crate::traits::Serializable;
use vstd::prelude::*;

verus! {

/// A type whose values are stored in pages.
pub trait PageItem: Serializable {
    /// The error of a page for one of an item.
    spec fn page_failure(e: Self::Error) -> PageError;

    fn page_error(e: Self::Error) -> (r: PageError)
        ensures
            r == Self::page_failure(e),
    ;
}

impl PageItem for Row {
    open spec fn page_failure(e: RowValueError) -> PageError {
        PageError::Value(e)
    }

    fn page_error(e: RowValueError) -> (r: PageError) {
        PageError::Value(e)
    }
}

impl PageItem for Key {
    open spec fn page_failure(e: KeyError) -> PageError {
        PageError::Key(e)
    }

    fn page_error(e: KeyError) -> (r: PageError) {
        PageError::Key(e)
    }
}

/// `s` with `d` in place of what was at `pos`.
pub open spec fn overwrite(s: Seq<u8>, pos: int, d: Seq<u8>) -> Seq<u8> {
    s.take(pos) + d + s.skip(pos + d.len())
}

/// How many of `n` bytes have room from `pos` on.
pub open spec fn fitting(pos: int, n: nat) -> nat {
    if pos + n <= PAGE_SIZE {
        n
    } else if pos <= PAGE_SIZE {
        (PAGE_SIZE - pos) as nat
    } else {
        0
    }
}

/// The bytes of a page with `d` written at `pos`, as far as there is room.
pub open spec fn written(s: Seq<u8>, pos: int, d: Seq<u8>) -> Seq<u8> {
    if pos <= PAGE_SIZE {
        overwrite(s, pos, d.take(fitting(pos, d.len()) as int))
    } else {
        s
    }
}

/// The bytes of a page while it is being written, and the position where the next
/// write goes.
pub struct PageWriter {
    bytes: RawPage,
    position: usize,
}

impl View for PageWriter {
    type V = Seq<u8>;

    closed spec fn view(&self) -> Seq<u8> {
        self.bytes@
    }
}

impl PageWriter {
    /// Where the next write goes.
    pub closed spec fn pos(&self) -> int {
        self.position as int
    }

    /// A page of zeros, to be written from its start.
    pub fn new() -> (r: Self)
        ensures
            r@ == Seq::new(PAGE_SIZE as nat, |i: int| 0u8),
            r.pos() == 0,
    {
        let bytes: RawPage = [0u8;PAGE_SIZE];
        assert(bytes@ =~= Seq::new(PAGE_SIZE as nat, |i: int| 0u8));
        PageWriter { bytes, position: 0 }
    }

    pub fn position(&self) -> (p: usize)
        ensures
            p == self.pos(),
    {
        self.position
    }

    pub fn set_position(&mut self, position: usize)
        ensures
            final(self)@ == old(self)@,
            final(self).pos() == position,
    {
        self.position = position;
    }

    /// A page has its size.
    pub proof fn lemma_len(&self)
        ensures
            self@.len() == PAGE_SIZE,
    {
    }

    /// Writes `data` at the current position, as far as there is room, and moves
    /// behind it.
    pub fn write_all(&mut self, data: &Vec<u8>) -> (r: Result<(), IoError>)
        ensures
            final(self)@ == written(old(self)@, old(self).pos(), data@),
            final(self).pos() == old(self).pos() + fitting(old(self).pos(), data@.len()),
            if fitting(old(self).pos(), data@.len()) == data@.len() {
                r is Ok
            } else {
                r is Err && r->Err_0 == IoError::WriteZero
            },
            old(self).pos() + data@.len() <= PAGE_SIZE ==> final(self)@ == overwrite(
                old(self)@,
                old(self).pos(),
                data@,
            ),
    {
        let start: usize = self.position;
        let ghost before = self.bytes@;
        let room: usize = if start <= PAGE_SIZE {
            PAGE_SIZE - start
        } else {
            0
        };
        let count: usize = if data.len() <= room {
            data.len()
        } else {
            room
        };
        let mut i: usize = 0;
        assert(start <= PAGE_SIZE ==> before =~= overwrite(before, start as int, data@.take(0)));
        while i < count
            invariant
                i <= count <= data.len(),
                count > 0 ==> start + count <= PAGE_SIZE,
                before.len() == PAGE_SIZE,
                start <= PAGE_SIZE ==> self.bytes@ == overwrite(
                    before,
                    start as int,
                    data@.take(i as int),
                ),
                start > PAGE_SIZE ==> self.bytes@ == before,
                self.position == start,
            decreases count - i,
        {
            self.bytes[start + i] = data[i];
            i += 1;
            assert(self.bytes@ =~= overwrite(before, start as int, data@.take(i as int)));
        }
        assert(data@.take(data@.len() as int) =~= data@);
        self.position = start + count;
        if count < data.len() {
            Err(IoError::WriteZero)
        } else {
            Ok(())
        }
    }

    pub fn into_inner(self) -> (bytes: RawPage)
        ensures
            bytes@ == self@,
    {
        self.bytes
    }
}

/// The data of the items, the last one in front.
pub open spec fn data_area<T: Serializable>(vs: Seq<T::V>) -> Seq<u8>
    decreases vs.len(),
{
    if vs.len() == 0 {
        Seq::empty()
    } else {
        T::encoding(vs.last()) + data_area::<T>(vs.drop_last())
    }
}

/// Where the data of the last item lies, when the data of all of them ends the
/// page.
pub open spec fn last_slot<T: Serializable>(vs: Seq<T::V>) -> SlotEntry {
    SlotEntry {
        offset: (PAGE_SIZE - data_area::<T>(vs).len()) as u16,
        length: T::encoding(vs.last()).len() as u16,
    }
}

/// The slots of the items, in their order.
pub open spec fn slot_array<T: Serializable>(vs: Seq<T::V>) -> Seq<u8>
    decreases vs.len(),
{
    if vs.len() == 0 {
        Seq::empty()
    } else {
        slot_array::<T>(vs.drop_last()) + SlotEntry::encoding(last_slot::<T>(vs))
    }
}

/// `s` with `front` written at `start` and `back` at the end. Where there is nothing to
/// write, `start` does not matter.
pub open spec fn filled(s: Seq<u8>, start: int, front: Seq<u8>, back: Seq<u8>) -> Seq<u8> {
    if front.len() == 0 && back.len() == 0 {
        s
    } else {
        s.take(start) + front + s.subrange(start + front.len(), s.len() - back.len()) + back
    }
}

/// Where a writer stands that was at `pos` and wrote `front` at `start`, if there was
/// anything to write.
pub open spec fn moved(pos: int, start: int, front: Seq<u8>) -> int {
    if front.len() == 0 {
        pos
    } else {
        start + front.len()
    }
}

/// What is put in front of a filled part is as good as filled with it.
pub proof fn lemma_filled_behind(
    before: Seq<u8>,
    start: int,
    first: Seq<u8>,
    second: Seq<u8>,
    back: Seq<u8>,
)
    requires
        before.len() == PAGE_SIZE,
        0 <= start,
        start + first.len() + second.len() + back.len() <= PAGE_SIZE,
    ensures
        filled(overwrite(before, start, first), start + first.len(), second, back) == filled(
            before,
            start,
            first + second,
            back,
        ),
{
    assert(filled(overwrite(before, start, first), start + first.len(), second, back) =~= filled(
        before,
        start,
        first + second,
        back,
    ));
}

pub proof fn lemma_filled_step(
    s: Seq<u8>,
    start: int,
    front: Seq<u8>,
    back: Seq<u8>,
    more_front: Seq<u8>,
    more_back: Seq<u8>,
)
    requires
        0 <= start,
        start + front.len() + more_front.len() + more_back.len() + back.len() <= s.len(),
    ensures
        overwrite(
            overwrite(
                filled(s, start, front, back),
                s.len() - back.len() - more_back.len(),
                more_back,
            ),
            start + front.len(),
            more_front,
        ) == filled(s, start, front + more_front, more_back + back),
{
    let one = overwrite(
        filled(s, start, front, back),
        s.len() - back.len() - more_back.len(),
        more_back,
    );
    assert(one =~= filled(s, start, front, more_back + back));
    assert(overwrite(one, start + front.len(), more_front) =~= filled(
        s,
        start,
        front + more_front,
        more_back + back,
    ));
}

pub proof fn lemma_slot_array_len<T: Serializable>(vs: Seq<T::V>)
    ensures
        slot_array::<T>(vs).len() == SLOT_ENTRY_SIZE * vs.len(),
    decreases vs.len(),
{
    if vs.len() > 0 {
        lemma_slot_array_len::<T>(vs.drop_last());
        SlotEntry::law_size_is_exact(last_slot::<T>(vs));
    }
}

pub proof fn lemma_data_area_len<T: Serializable>(vs: Seq<T::V>)
    requires
        list_refusal::<T>(vs) is None,
    ensures
        data_area::<T>(vs).len() == list_size::<T>(vs),
    decreases vs.len(),
{
    if vs.len() > 0 {
        lemma_data_area_len::<T>(vs.drop_last());
        T::law_size_is_exact(vs.last());
    }
}

/// Writes the data of the items from the end of the page towards its front, and
/// their slots from `slot_start` on. Gives where the slots end and where the data
/// begins. An item that is refused stops it; those in front of it stay written.
pub(crate) fn write_items<T: PageItem>(writer: &mut PageWriter, items: &Vec<T>, slot_start: usize) -> (r:
    Result<(usize, usize), PageError>)
    requires
        ({
            let fine = list_accepted::<T>(items.deep_view());
            fine.len() > 0 ==> slot_start + SLOT_ENTRY_SIZE * fine.len() + list_size::<T>(fine)
                <= PAGE_SIZE
        }),
    ensures
        match list_refusal::<T>(items.deep_view()) {
            None => {
                &&& r is Ok
                &&& r->Ok_0.0 == slot_start + SLOT_ENTRY_SIZE * items@.len()
                &&& r->Ok_0.1 == PAGE_SIZE - list_size::<T>(items.deep_view())
            },
            Some(e) => r is Err && r->Err_0 == T::page_failure(e),
        },
        ({
            let fine = list_accepted::<T>(items.deep_view());
            &&& final(writer)@ == filled(
                old(writer)@,
                slot_start as int,
                slot_array::<T>(fine),
                data_area::<T>(fine),
            )
            &&& final(writer).pos() == moved(
                old(writer).pos(),
                slot_start as int,
                slot_array::<T>(fine),
            )
        }),
{
    let ghost vs = items.deep_view();
    let ghost fine = list_accepted::<T>(vs);
    let ghost before = writer@;
    proof {
        writer.lemma_len();
    }
    let mut slot_offset: usize = slot_start;
    let mut data_offset: usize = PAGE_SIZE;
    let mut i: usize = 0;
    assert(vs.take(0) =~= Seq::empty());
    while i < items.len()
        invariant
            i <= items.len(),
            vs == items.deep_view(),
            fine == list_accepted::<T>(vs),
            before == old(writer)@,
            before.len() == PAGE_SIZE,
            fine.len() > 0 ==> slot_start + SLOT_ENTRY_SIZE * fine.len() + list_size::<T>(fine)
                <= PAGE_SIZE,
            list_refusal::<T>(vs.take(i as int)) is None,
            slot_offset == slot_start + SLOT_ENTRY_SIZE * i,
            list_size::<T>(vs.take(i as int)) <= PAGE_SIZE,
            data_offset == PAGE_SIZE - list_size::<T>(vs.take(i as int)),
            writer@ == filled(
                before,
                slot_start as int,
                slot_array::<T>(vs.take(i as int)),
                data_area::<T>(vs.take(i as int)),
            ),
            writer.pos() == moved(
                old(writer).pos(),
                slot_start as int,
                slot_array::<T>(vs.take(i as int)),
            ),
        decreases items.len() - i,
    {
        let ghost done = vs.take(i as int);
        let ghost next = vs.take(i + 1);
        proof {
            lemma_list_step::<T>(vs, i as int);
            assert(next.drop_last() =~= done);
            assert(vs[i as int] == items[i as int].deep_view());
            lemma_slot_array_len::<T>(done);
            lemma_data_area_len::<T>(done);
        }
        let mut buffer: Vec<u8> = Vec::new();
        match items[i].serialize(&mut buffer) {
            Ok(_) => {},
            Err(e) => {
                proof {
                    lemma_list_stops_early::<T>(vs, i + 1);
                    lemma_list_accepted_is::<T>(vs, i as int);
                }
                return Err(T::page_error(e));
            },
        }
        proof {
            assert(buffer@ =~= T::encoding(vs[i as int]));
            T::law_size_is_exact(vs[i as int]);
            lemma_list_accepted_front::<T>(vs, i + 1);
            lemma_list_size_monotonic::<T>(fine, i + 1);
        }
        let len: usize = buffer.len();

        // shift the offset back, and write the item at the proper offset
        data_offset -= len;
        writer.set_position(data_offset);
        let _ = writer.write_all(&buffer);

        // write a slot entry that points to the newly written data
        let slot_entry = SlotEntry::new(data_offset as u16, len as u16);
        let mut slot: Vec<u8> = Vec::new();
        let _ = slot_entry.serialize(&mut slot);
        proof {
            assert(data_area::<T>(next).len() == list_size::<T>(next)) by {
                lemma_data_area_len::<T>(next);
            }
            assert(slot_entry == last_slot::<T>(next));
            assert(slot@ =~= SlotEntry::encoding(slot_entry));
            SlotEntry::law_size_is_exact(slot_entry);
            lemma_filled_step(
                before,
                slot_start as int,
                slot_array::<T>(done),
                data_area::<T>(done),
                slot@,
                buffer@,
            );
        }
        writer.set_position(slot_offset);
        let _ = writer.write_all(&slot);
        slot_offset += SLOT_ENTRY_SIZE;
        i += 1;
    }
    assert(vs.take(i as int) =~= vs);
    Ok((slot_offset, data_offset))
}

/// What the slots at the front of `slots`, and the data that they point to in
/// `raw`, are read as.
pub open spec fn items_decoding<T: PageItem>(raw: Seq<u8>, slots: Seq<u8>, n: nat) -> Result<
    Seq<T::V>,
    PageError,
>
    decreases n,
{
    if n == 0 {
        Ok(Seq::empty())
    } else {
        match items_decoding::<T>(raw, slots, (n - 1) as nat) {
            Err(e) => Err(e),
            Ok(vs) => match SlotEntry::decoding(slots.skip(SLOT_ENTRY_SIZE * (n - 1))) {
                Err(e) => Err(PageError::IoError(e)),
                Ok((slot, _)) => if slot.offset + slot.length > raw.len() {
                    Err(PageError::Corrupt)
                } else {
                    match T::decoding(raw.subrange(slot.offset as int, slot.offset + slot.length)) {
                        Err(e) => Err(T::page_failure(e)),
                        Ok((v, _)) => Ok(vs.push(v)),
                    }
                },
            },
        }
    }
}

proof fn lemma_items_decoding_fails_early<T: PageItem>(raw: Seq<u8>, slots: Seq<u8>, i: nat, n: nat)
    requires
        i <= n,
        items_decoding::<T>(raw, slots, i) is Err,
    ensures
        items_decoding::<T>(raw, slots, n) == items_decoding::<T>(raw, slots, i),
    decreases n,
{
    if i < n {
        lemma_items_decoding_fails_early::<T>(raw, slots, i, (n - 1) as nat);
    }
}

/// As many items are read as there are slots.
pub proof fn lemma_items_decoding_len<T: PageItem>(raw: Seq<u8>, slots: Seq<u8>, n: nat)
    ensures
        items_decoding::<T>(raw, slots, n) matches Ok(vs) ==> vs.len() == n,
    decreases n,
{
    if n > 0 {
        lemma_items_decoding_len::<T>(raw, slots, (n - 1) as nat);
    }
}

/// Items are read back from a page whose slot array and data area are theirs.
pub proof fn lemma_items_roundtrip<T: PageItem>(raw: Seq<u8>, vs: Seq<T::V>, tail: Seq<u8>)
    requires
        raw.len() == PAGE_SIZE,
        list_valid::<T>(vs),
        list_refusal::<T>(vs) is None,
        data_area::<T>(vs).len() <= PAGE_SIZE,
        raw.skip(PAGE_SIZE - data_area::<T>(vs).len()) == data_area::<T>(vs),
    ensures
        items_decoding::<T>(raw, slot_array::<T>(vs) + tail, vs.len()) == Ok::<
            Seq<T::V>,
            PageError,
        >(vs),
    decreases vs.len(),
{
    if vs.len() == 0 {
        assert(vs =~= Seq::empty());
    } else {
        let front = vs.drop_last();
        let enc = T::encoding(vs.last());
        let slot = last_slot::<T>(vs);
        let slot_bytes = SlotEntry::encoding(slot);
        let slots = slot_array::<T>(vs) + tail;
        let area = data_area::<T>(vs);
        let front_area = data_area::<T>(front);
        assert forall|i: int| 0 <= i < front.len() implies T::valid(#[trigger] front[i]) by {
            assert(vs[i] == front[i]);
        }
        assert(T::valid(vs[vs.len() - 1]));
        assert(raw.skip(PAGE_SIZE - front_area.len()) =~= raw.skip(PAGE_SIZE - area.len()).skip(
            enc.len() as int,
        ));
        assert(area.skip(enc.len() as int) =~= front_area);
        lemma_items_roundtrip::<T>(raw, front, slot_bytes + tail);
        assert(slots =~= slot_array::<T>(front) + (slot_bytes + tail));

        lemma_slot_array_len::<T>(front);
        assert(slots.skip(SLOT_ENTRY_SIZE * (vs.len() - 1)) =~= slot_bytes + tail);
        SlotEntry::law_roundtrip(slot, tail);
        assert(raw.subrange(slot.offset as int, slot.offset + slot.length) =~= raw.skip(
            PAGE_SIZE - area.len(),
        ).take(enc.len() as int));
        assert(area.take(enc.len() as int) =~= enc);
        T::law_roundtrip(vs.last(), Seq::empty());
        assert(enc + Seq::<u8>::empty() =~= enc);
        assert(front.push(vs.last()) =~= vs);
    }
}

/// Reads `n` slots from `r`, and the items that they point to in `raw`.
pub(crate) fn read_items<T: PageItem>(raw: &[u8], r: &mut ByteReader<'_>, n: usize) -> (out: Result<
    Vec<T>,
    PageError,
>)
    ensures
        match items_decoding::<T>(raw@, old(r)@, n as nat) {
            Ok(vs) => {
                &&& out is Ok
                &&& out->Ok_0.deep_view() == vs
                &&& final(r)@ == old(r)@.skip(SLOT_ENTRY_SIZE * n)
            },
            Err(e) => out is Err && out->Err_0 == e,
        },
{
    let ghost slots = r@;
    let mut items: Vec<T> = Vec::new();
    let mut i: usize = 0;
    assert(slots.skip(0) =~= slots);
    assert(items.deep_view() =~= Seq::empty());
    while i < n
        invariant
            i <= n,
            slots == old(r)@,
            items_decoding::<T>(raw@, slots, i as nat) == Ok::<Seq<T::V>, PageError>(
                items.deep_view(),
            ),
            SLOT_ENTRY_SIZE * i <= slots.len(),
            r@ == slots.skip(SLOT_ENTRY_SIZE * i),
        decreases n - i,
    {
        let ghost so_far = items.deep_view();
        proof {
            SlotEntry::law_decoding_within_input(r@);
            if items_decoding::<T>(raw@, slots, (i + 1) as nat) is Err {
                lemma_items_decoding_fails_early::<T>(raw@, slots, (i + 1) as nat, n as nat);
            }
        }
        let slot = match SlotEntry::deserialize(r) {
            Ok(slot) => slot,
            Err(e) => return Err(PageError::IoError(e)),
        };
        let range = slot.range();
        if range.end > raw.len() {
            return Err(PageError::Corrupt);
        }
        let data = vstd::slice::slice_subrange(raw, range.start, range.end);
        let mut item_reader = ByteReader::new(data);
        match T::deserialize(&mut item_reader) {
            Ok(item) => {
                items.push(item);
                assert(items.deep_view() =~= so_far.push(item.deep_view()));
            },
            Err(e) => return Err(T::page_error(e)),
        }
        proof {
            assert(slots.skip(SLOT_ENTRY_SIZE * i).skip(SLOT_ENTRY_SIZE as int) =~= slots.skip(
                SLOT_ENTRY_SIZE * (i + 1),
            ));
        }
        i += 1;
    }
    Ok(items)
}

} // verus!

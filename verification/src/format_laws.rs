//! What the bytes of the format are, said digit by digit and part by part.
use crate::bytes::{
    be_bytes, be_decoding, be_value, lemma_be_bytes_len, lemma_be_value_bound, lemma_pow_256,
    lemma_pow_256_widths, IoError,
};
use crate::commontypes::{
    Key, KeyView, Lsn, LsnError, PageId, PageLsn, SlotEntry, SlotIndex, TableId, TransactionId,
};
use crate::schema::{Row, RowValue, ValueView};
use crate::traits::Serializable;
use vstd::arithmetic::div_mod::lemma_div_denominator;
use vstd::arithmetic::power::pow;
use vstd::prelude::*;

verus! {

/// A number is written big-endian: byte `i` of `width` is its base-256 digit that has
/// `width - 1 - i` others behind it.
pub proof fn law_numbers_are_big_endian(n: nat, width: nat, i: int)
    requires
        0 <= i < width,
    ensures
        be_bytes(n, width).len() == width,
        be_bytes(n, width)[i] == (n as int / pow(256, (width - 1 - i) as nat)) % 256,
    decreases width,
{
    lemma_be_bytes_len(n, width);
    if i == width - 1 {
        reveal(pow);
        assert(n as int / 1 == n);
    } else {
        let k = (width - 2 - i) as nat;
        law_numbers_are_big_endian(n / 256, (width - 1) as nat, i);
        lemma_pow_256(k);
        lemma_div_denominator(n as int, 256, pow(256, k));
        assert(be_bytes(n, width)[i] == be_bytes(n / 256, (width - 1) as nat)[i]);
    }
}

/// Bytes are read as the number that is written as them.
pub proof fn law_bytes_are_the_number_they_write(s: Seq<u8>)
    ensures
        be_bytes(be_value(s), s.len()) == s,
        be_value(s) < pow(256, s.len()),
    decreases s.len(),
{
    lemma_be_value_bound(s);
    if s.len() > 0 {
        law_bytes_are_the_number_they_write(s.drop_last());
        assert(be_value(s) / 256 == be_value(s.drop_last()));
        assert(be_value(s) % 256 == s.last());
        assert(be_bytes(be_value(s), s.len()) =~= s.drop_last().push(s.last()));
    } else {
        assert(be_bytes(0, 0) =~= s);
    }
}

/// Reading a number of `width` bytes takes just those, and fails exactly when there are
/// fewer; what is read is what is written as those bytes.
pub proof fn law_numbers_are_read_as_written(s: Seq<u8>, width: nat)
    ensures
        match be_decoding(s, width as int) {
            Ok((n, used)) => {
                &&& s.len() >= width
                &&& used == width
                &&& n < pow(256, width)
                &&& be_bytes(n, width) == s.take(width as int)
            },
            Err(e) => s.len() < width && e == IoError::UnexpectedEof,
        },
{
    if s.len() >= width {
        law_bytes_are_the_number_they_write(s.take(width as int));
    }
}

/// Identifiers, slots and LSNs are written as their numbers, and no LSN as eight zeros.
/// All of them can be written.
pub proof fn law_identifiers_are_their_numbers(a: u32, b: u32, c: u16, d: u16, e: u64)
    ensures
        TableId::encoding(TableId(a)) == be_bytes(a as nat, 4),
        SlotIndex::encoding(SlotIndex(c)) == be_bytes(c as nat, 2),
        TransactionId::encoding(TransactionId(e)) == be_bytes(e as nat, 8),
        PageId::encoding(PageId(TableId(a), b)) == be_bytes(a as nat, 4) + be_bytes(b as nat, 4),
        SlotEntry::encoding(SlotEntry { offset: c, length: d }) == be_bytes(c as nat, 2) + be_bytes(
            d as nat,
            2,
        ),
        Lsn::encoding(e) == be_bytes(e as nat, 8),
        PageLsn::encoding(Some(e)) == be_bytes(e as nat, 8),
        PageLsn::encoding(None) == Seq::new(8, |i: int| 0u8),
        TableId::refusal(TableId(a)) is None,
        SlotIndex::refusal(SlotIndex(c)) is None,
        TransactionId::refusal(TransactionId(e)) is None,
        PageId::refusal(PageId(TableId(a), b)) is None,
        SlotEntry::refusal(SlotEntry { offset: c, length: d }) is None,
        Lsn::refusal(e) is None,
        PageLsn::refusal(Some(e)) is None,
        PageLsn::refusal(None) is None,
{
    lemma_zeros(8);
    assert(PageLsn::encoding(None) =~= Seq::new(8, |i: int| 0u8));
}

proof fn lemma_zeros(width: nat)
    ensures
        be_bytes(0, width) == Seq::new(width, |i: int| 0u8),
    decreases width,
{
    if width > 0 {
        lemma_zeros((width - 1) as nat);
    }
    assert(be_bytes(0, width) =~= Seq::new(width, |i: int| 0u8));
}

/// What a value of each kind must be to be well-formed: anything, but an LSN is not zero.
pub proof fn law_only_zero_lsns_are_not_well_formed(
    id: PageId,
    slot: SlotEntry,
    table: TableId,
    index: SlotIndex,
    transaction: TransactionId,
    v: ValueView,
    row: Seq<ValueView>,
    key: KeyView,
    lsn: u64,
)
    ensures
        PageId::valid(id),
        SlotEntry::valid(slot),
        TableId::valid(table),
        SlotIndex::valid(index),
        TransactionId::valid(transaction),
        RowValue::valid(v),
        Row::valid(row),
        Key::valid(key),
        Lsn::valid(lsn) <==> lsn != 0,
        PageLsn::valid(Some(lsn)) <==> lsn != 0,
        PageLsn::valid(None),
        Option::<PageId>::valid(Some(id)),
        Option::<PageId>::valid(None),
{
}

/// An optional value is a byte 0, or a byte 1 and the value.
pub proof fn law_optional_values<T: Serializable>(x: T::V)
    ensures
        Option::<T>::encoding(None) == seq![0u8],
        Option::<T>::encoding(Some(x)) == seq![1u8] + T::encoding(x),
        Option::<T>::refusal(None) is None,
        Option::<T>::refusal(Some(x)) == T::refusal(x),
        Option::<T>::size(None) == 1,
        Option::<T>::size(Some(x)) == T::size(x) + 1,
        Option::<T>::valid(None),
        Option::<T>::valid(Some(x)) <==> T::valid(x),
{
}

/// What an optional value is read as goes by its first byte: 0 is none, 1 is followed by
/// the value, and any other is refused and taken.
pub proof fn law_optional_values_are_read_by_their_tag<T: Serializable>(s: Seq<u8>)
    ensures
        s.len() == 0 ==> Option::<T>::decoding(s) == Err::<(Option<T::V>, int), T::Error>(
            T::read_failure(IoError::UnexpectedEof),
        ),
        s.len() > 0 && s[0] == 0 ==> Option::<T>::decoding(s) == Ok::<
            (Option<T::V>, int),
            T::Error,
        >((None, 1)),
        s.len() > 0 && s[0] == 1 ==> match T::decoding(s.skip(1)) {
            Ok((x, n)) => Option::<T>::decoding(s) == Ok::<(Option<T::V>, int), T::Error>(
                (Some(x), n + 1),
            ),
            Err(e) => {
                &&& Option::<T>::decoding(s) == Err::<(Option<T::V>, int), T::Error>(e)
                &&& match T::failure_reach(s.skip(1)) {
                    Some(n) => Option::<T>::failure_reach(s) == Some(n + 1),
                    None => Option::<T>::failure_reach(s) is None,
                }
            },
        },
        s.len() > 0 && s[0] > 1 ==> {
            &&& Option::<T>::decoding(s) == Err::<(Option<T::V>, int), T::Error>(
                T::read_failure(IoError::InvalidData),
            )
            &&& Option::<T>::failure_reach(s) == Some(1int)
        },
{
}

/// Every page id, slot and LSN that is read is written as the bytes it was read from, and
/// reading fails for want of bytes alone, or because an LSN is zero.
pub proof fn law_identifiers_are_read_as_written(s: Seq<u8>)
    ensures
        match TableId::decoding(s) {
            Ok((v, n)) => n == 4 && s.len() >= 4 && TableId::encoding(v) == s.take(4),
            Err(e) => s.len() < 4 && e == IoError::UnexpectedEof,
        },
        match SlotIndex::decoding(s) {
            Ok((v, n)) => n == 2 && s.len() >= 2 && SlotIndex::encoding(v) == s.take(2),
            Err(e) => s.len() < 2 && e == IoError::UnexpectedEof,
        },
        match TransactionId::decoding(s) {
            Ok((v, n)) => n == 8 && s.len() >= 8 && TransactionId::encoding(v) == s.take(8),
            Err(e) => s.len() < 8 && e == IoError::UnexpectedEof,
        },
        match PageId::decoding(s) {
            Ok((v, n)) => n == 8 && s.len() >= 8 && PageId::encoding(v) == s.take(8),
            Err(e) => s.len() < 8 && e == IoError::UnexpectedEof,
        },
        match SlotEntry::decoding(s) {
            Ok((v, n)) => n == 4 && s.len() >= 4 && SlotEntry::encoding(v) == s.take(4),
            Err(e) => s.len() < 4 && e == IoError::UnexpectedEof,
        },
        match PageLsn::decoding(s) {
            Ok((v, n)) => {
                &&& n == 8
                &&& s.len() >= 8
                &&& PageLsn::encoding(v) == s.take(8)
                &&& v != Some(0u64)
            },
            Err(e) => s.len() < 8 && e == LsnError::IoError(IoError::UnexpectedEof),
        },
        match Lsn::decoding(s) {
            Ok((v, n)) => n == 8 && s.len() >= 8 && Lsn::encoding(v) == s.take(8) && v != 0,
            Err(LsnError::IoError(e)) => s.len() < 8 && e == IoError::UnexpectedEof,
            Err(LsnError::ZeroLsn) => {
                &&& s.len() >= 8
                &&& s.take(8) == Seq::new(8, |i: int| 0u8)
                &&& Lsn::failure_reach(s) == Some(8int)
            },
        },
{
    lemma_pow_256_widths();
    lemma_zeros(8);
    law_numbers_are_read_as_written(s, 2);
    law_numbers_are_read_as_written(s, 4);
    law_numbers_are_read_as_written(s, 8);
    if s.len() >= 8 {
        law_numbers_are_read_as_written(s.skip(4), 4);
        assert(s.take(4) + s.skip(4).take(4) =~= s.take(8));
    }
    if s.len() >= 4 {
        law_numbers_are_read_as_written(s.skip(2), 2);
        assert(s.take(2) + s.skip(2).take(2) =~= s.take(4));
    }
}

} // verus!

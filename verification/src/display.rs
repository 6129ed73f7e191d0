//! How identifiers are written for people.
use crate::commontypes::{FrameId, Lsn, PageId, RecordId, SlotIndex, TableId, TransactionId};
use vstd::prelude::*;
use vstd::utf8::*;

verus! {

/// The decimal digit `d`.
pub open spec fn digit(d: nat) -> char {
    (48 + d) as char
}

/// The decimal digits of `n`, most significant first.
pub open spec fn decimal(n: nat) -> Seq<char>
    decreases n,
{
    if n < 10 {
        seq![digit(n)]
    } else {
        decimal(n / 10).push(digit(n % 10))
    }
}

/// A table and a page number, as `table:page`.
pub open spec fn page_id_text(id: PageId) -> Seq<char> {
    decimal(id.0.0 as nat) + seq![':'] + decimal(id.1 as nat)
}

/// The characters that ASCII bytes stand for.
spec fn ascii_text(bytes: Seq<u8>) -> Seq<char> {
    bytes.map_values(|b: u8| b as char)
}

/// Whether all bytes are ASCII.
spec fn is_ascii_bytes(bytes: Seq<u8>) -> bool {
    forall|i: int| 0 <= i < bytes.len() ==> #[trigger] bytes[i] < 128
}

/// Appends the decimal digits of `n`.
fn push_decimal(out: &mut Vec<u8>, n: u64)
    requires
        is_ascii_bytes(old(out)@),
    ensures
        is_ascii_bytes(final(out)@),
        ascii_text(final(out)@) == ascii_text(old(out)@) + decimal(n as nat),
    decreases n,
{
    if n >= 10 {
        push_decimal(out, n / 10);
    }
    let ghost so_far = out@;
    let d: u8 = 48 + (n % 10) as u8;
    out.push(d);
    assert(ascii_text(out@) =~= ascii_text(so_far).push(d as char));
    assert(ascii_text(out@) =~= ascii_text(old(out)@) + decimal(n as nat));
}

/// Appends a colon.
fn push_colon(out: &mut Vec<u8>)
    requires
        is_ascii_bytes(old(out)@),
    ensures
        is_ascii_bytes(final(out)@),
        ascii_text(final(out)@) == ascii_text(old(out)@).push(':'),
{
    out.push(58);
    assert(ascii_text(out@) =~= ascii_text(old(out)@).push(':'));
}

/// The string that ASCII bytes stand for.
fn ascii_string(bytes: Vec<u8>) -> (s: String)
    requires
        is_ascii_bytes(bytes@),
    ensures
        s@ == ascii_text(bytes@),
{
    proof {
        let text = ascii_text(bytes@);
        assert(is_ascii_chars(text));
        is_ascii_chars_encode_utf8(text);
        assert(encode_utf8(text) =~= bytes@) by {
            assert forall|i: int| 0 <= i < bytes@.len() implies encode_utf8(text)[i]
                == #[trigger] bytes@[i] by {
                assert(text[i] as u8 == encode_utf8(text)[i]);
            }
        }
        encode_utf8_valid_utf8(text);
        encode_utf8_decode_utf8(text);
    }
    match String::from_utf8(bytes) {
        Ok(s) => s,
        Err(_) => {
            assert(false);
            String::new()
        },
    }
}

/// The decimal digits of `n`.
fn decimal_string(n: u64) -> (s: String)
    ensures
        s@ == decimal(n as nat),
{
    let mut out: Vec<u8> = Vec::new();
    push_decimal(&mut out, n);
    assert(ascii_text(out@) =~= decimal(n as nat));
    ascii_string(out)
}

impl TableId {
    pub fn to_string(&self) -> (s: String)
        ensures
            s@ == decimal(self.0 as nat),
    {
        decimal_string(self.0 as u64)
    }
}

impl FrameId {
    pub fn to_string(&self) -> (s: String)
        ensures
            s@ == decimal(self.0 as nat),
    {
        decimal_string(self.0 as u64)
    }
}

impl SlotIndex {
    pub fn to_string(&self) -> (s: String)
        ensures
            s@ == decimal(self.0 as nat),
    {
        decimal_string(self.0 as u64)
    }
}

impl TransactionId {
    pub fn to_string(&self) -> (s: String)
        ensures
            s@ == decimal(self.0 as nat),
    {
        decimal_string(self.0)
    }
}

impl Lsn {
    pub fn to_string(&self) -> (s: String)
        ensures
            s@ == decimal(self.deep_view() as nat),
    {
        decimal_string(self.get())
    }
}

impl PageId {
    /// `table:page`.
    pub fn to_string(&self) -> (s: String)
        ensures
            s@ == page_id_text(*self),
    {
        let mut out: Vec<u8> = Vec::new();
        push_decimal(&mut out, self.get_table_id().get() as u64);
        push_colon(&mut out);
        push_decimal(&mut out, self.get_page_num() as u64);
        assert(ascii_text(out@) =~= page_id_text(*self));
        ascii_string(out)
    }
}

impl RecordId {
    /// `table:page:slot`.
    pub fn to_string(&self) -> (s: String)
        ensures
            s@ == page_id_text(self.0) + seq![':'] + decimal(self.1.0 as nat),
    {
        let mut out: Vec<u8> = Vec::new();
        push_decimal(&mut out, self.get_page_id().get_table_id().get() as u64);
        push_colon(&mut out);
        push_decimal(&mut out, self.get_page_id().get_page_num() as u64);
        push_colon(&mut out);
        push_decimal(&mut out, self.get_slot_index().get() as u64);
        assert(ascii_text(out@) =~= page_id_text(self.0) + seq![':'] + decimal(self.1.0 as nat));
        ascii_string(out)
    }
}

/// The number that decimal digits stand for, most significant first.
pub open spec fn decimal_value(s: Seq<char>) -> nat
    decreases s.len(),
{
    if s.len() == 0 {
        0
    } else {
        10 * decimal_value(s.drop_last()) + (s.last() as nat - '0' as nat) as nat
    }
}

/// A number is written in decimal: digits that stand for it, the first of them not zero
/// unless it is the only one.
pub proof fn law_numbers_are_written_in_decimal(n: nat)
    ensures
        decimal(n).len() > 0,
        forall|i: int| 0 <= i < decimal(n).len() ==> '0' <= #[trigger] decimal(n)[i] <= '9',
        decimal_value(decimal(n)) == n,
        decimal(n).len() > 1 ==> decimal(n)[0] != '0',
    decreases n,
{
    let s = decimal(n);
    if n < 10 {
        assert(s.drop_last() =~= Seq::empty());
        assert(decimal_value(s.drop_last()) == 0);
    } else {
        law_numbers_are_written_in_decimal(n / 10);
        let front = decimal(n / 10);
        assert(s.drop_last() =~= front);
        assert forall|i: int| 0 <= i < s.len() implies '0' <= #[trigger] s[i] <= '9' by {
            if i < front.len() {
                assert(s[i] == front[i]);
            }
        }
        assert(s[0] == front[0]);
        if front.len() == 1 {
            reveal_with_fuel(decimal_value, 2);
            assert(front.drop_last() =~= Seq::empty());
            assert(front[0] == front.last());
        }
    }
}

/// A page is written as its table and its number with a colon in between.
pub proof fn law_page_ids_are_written_as_table_and_page(table: u32, page: u32)
    ensures
        page_id_text(PageId(TableId(table), page)) == decimal(table as nat) + seq![':'] + decimal(
            page as nat,
        ),
{
}

} // verus!

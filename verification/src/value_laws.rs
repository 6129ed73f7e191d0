//! What the bytes of values, rows and keys are, and what any bytes are read as.
use crate::bytes::{be_bytes, be_value, lemma_pow_256_widths, IoError};
use crate::commontypes::{value_of_key, Key, KeyError, KeyView, Lsn, LsnError, PageId, PageLsn};
use crate::format_laws::law_numbers_are_read_as_written;
use crate::list::{
    lemma_list_decoding_within_input, list_accepted, list_decoding, list_encoding,
    list_failure_reach, list_refusal, list_size,
};
use crate::page::{Page, PageBody, PageError};
use crate::schema::{value_tag, Row, RowValue, RowValueError, ValueView};
use crate::traits::{saturated, Serializable};
use crate::varint::{
    continuation_run, lemma_varint_decoding_within_input, max_varint_len, varint_bytes,
    varint_decoding, varint_failure_reach, varint_value,
};
use vstd::arithmetic::div_mod::{lemma_div_denominator, lemma_fundamental_div_mod_converse};
use vstd::arithmetic::power::pow;
use vstd::prelude::*;
use vstd::utf8::*;

verus! {

proof fn lemma_pow_128(k: nat)
    ensures
        pow(128, k + 1) == 128 * pow(128, k),
        pow(128, k) > 0,
        pow(128, 0) == 1,
    decreases k,
{
    reveal(pow);
    if k > 0 {
        lemma_pow_128((k - 1) as nat);
    }
}

/// A length is written in base 128, least digit first, in as many bytes as it has digits;
/// all bytes but the last are marked by their high bit.
pub proof fn law_lengths_are_written_in_base_128(n: nat)
    ensures
        ({
            let s = varint_bytes(n);
            let k = s.len();
            &&& k >= 1
            &&& n < pow(128, k)
            &&& k > 1 ==> pow(128, (k - 1) as nat) <= n
            &&& forall|i: int| 0 <= i < k - 1 ==> #[trigger] s[i] >= 128
            &&& s[k - 1] < 128
            &&& forall|i: int|
                0 <= i < k ==> #[trigger] s[i] % 128 == (n as int / pow(128, i as nat)) % 128
        }),
    decreases n,
{
    let s = varint_bytes(n);
    lemma_pow_128(0);
    if n < 128 {
        assert(n as int / 1 == n);
    } else {
        let rest = varint_bytes(n / 128);
        let k = rest.len();
        law_lengths_are_written_in_base_128(n / 128);
        lemma_pow_128(k);
        lemma_pow_128((k - 1) as nat);
        assert(s =~= seq![(128 + n % 128) as u8] + rest);
        assert(s.len() == k + 1);
        assert(n < 128 * pow(128, k));
        assert(n as int / 1 == n);
        assert forall|i: int| 0 <= i < s.len() implies #[trigger] s[i] % 128 == (n as int / pow(
            128,
            i as nat,
        )) % 128 by {
            if i > 0 {
                assert(s[i] == rest[i - 1]);
                lemma_pow_128((i - 1) as nat);
                lemma_div_denominator(n as int, 128, pow(128, (i - 1) as nat));
            }
        }
        assert forall|i: int| 0 <= i < s.len() - 1 implies #[trigger] s[i] >= 128 by {
            if i > 0 {
                assert(s[i] == rest[i - 1]);
            }
        }
        assert(s[s.len() - 1] == rest[k - 1]);
        if k > 1 {
            assert(pow(128, k) == 128 * pow(128, (k - 1) as nat));
        }
    }
}

/// The number that bytes stand for in base 128, least digit first, has just the digits
/// that are the low seven bits of the bytes.
pub proof fn law_base_128_digits(s: Seq<u8>)
    ensures
        varint_value(s) < pow(128, s.len()),
        forall|i: int|
            0 <= i < s.len() ==> #[trigger] s[i] % 128 == (varint_value(s) as int / pow(
                128,
                i as nat,
            )) % 128,
    decreases s.len(),
{
    lemma_pow_128(0);
    if s.len() > 0 {
        let t = s.skip(1);
        let v = varint_value(s) as int;
        let low = (s[0] % 128) as int;
        law_base_128_digits(t);
        lemma_pow_128(t.len());
        assert(v == low + 128 * varint_value(t));
        lemma_fundamental_div_mod_converse(v, 128, varint_value(t) as int, low);
        assert(v / 1 == v);
        assert forall|i: int| 0 <= i < s.len() implies #[trigger] s[i] % 128 == (v / pow(
            128,
            i as nat,
        )) % 128 by {
            if i > 0 {
                assert(s[i] == t[i - 1]);
                lemma_pow_128((i - 1) as nat);
                lemma_div_denominator(v, 128, pow(128, (i - 1) as nat));
            }
        }
    }
}

/// How many bytes are marked by their high bit before the first that is not.
pub proof fn law_marked_bytes(s: Seq<u8>)
    ensures
        continuation_run(s) <= s.len(),
        forall|i: int| 0 <= i < continuation_run(s) ==> #[trigger] s[i] >= 128,
        continuation_run(s) < s.len() ==> s[continuation_run(s) as int] < 128,
    decreases s.len(),
{
    if s.len() > 0 && s[0] >= 128 {
        let t = s.skip(1);
        law_marked_bytes(t);
        assert forall|i: int| 0 <= i < continuation_run(s) implies #[trigger] s[i] >= 128 by {
            if i > 0 {
                assert(s[i] == t[i - 1]);
            }
        }
    }
}

/// A length is read up to the first byte without its high bit, as the number whose digits
/// the bytes are. It is refused if it does not fit, if the input ends before it does, or
/// if it goes on past the longest that a length can be.
pub proof fn law_lengths_are_read_in_base_128(s: Seq<u8>)
    ensures
        ({
            let most = max_varint_len();
            let endless = forall|i: int| 0 <= i < s.len() && i < most ==> #[trigger] s[i] >= 128;
            &&& most == (usize::BITS as int + 7) / 7
            &&& match varint_decoding(s) {
                Ok((n, used)) => {
                    &&& 0 < used <= s.len()
                    &&& used <= most
                    &&& forall|i: int| 0 <= i < used - 1 ==> #[trigger] s[i] >= 128
                    &&& s[used - 1] < 128
                    &&& n < pow(128, used as nat)
                    &&& forall|i: int|
                        0 <= i < used ==> #[trigger] s[i] % 128 == (n as int / pow(128, i as nat))
                            % 128
                },
                Err(IoError::InvalidData) => {
                    &&& s.len() > most
                    &&& endless
                    &&& varint_failure_reach(s) == Some(most + 1)
                },
                Err(IoError::UnexpectedEof) => {
                    ||| s.len() <= most && endless && varint_failure_reach(s) is None
                    ||| exists|end: int|
                        {
                            &&& 0 <= end < s.len()
                            &&& end < most
                            &&& s[end] < 128
                            &&& forall|i: int| 0 <= i < end ==> #[trigger] s[i] >= 128
                            &&& #[trigger] varint_value(s.take(end + 1)) > usize::MAX
                            &&& varint_failure_reach(s) == Some(end + 1)
                        }
                },
                Err(IoError::WriteZero) => false,
            }
        }),
{
    let run = continuation_run(s) as int;
    law_marked_bytes(s);
    if run < s.len() {
        let t = s.take(run + 1);
        law_base_128_digits(t);
        assert forall|i: int| 0 <= i < run + 1 implies #[trigger] s[i] % 128 == (varint_value(
            t,
        ) as int / pow(128, i as nat)) % 128 by {
            assert(t[i] == s[i]);
        }
        if run < max_varint_len() && varint_value(t) > usize::MAX {
            let end = run;
            assert(varint_value(s.take(end + 1)) > usize::MAX);
        }
    }
}

/// How values are written: a tag, then numbers big-endian in eight bytes, a string as its
/// length and its UTF-8 bytes, a boolean as one byte. Of a string that is too long only
/// the tag is.
pub proof fn law_values_are_tagged(n: i64, bits: u64, s: Seq<char>, b: bool)
    ensures
        RowValue::encoding(ValueView::Null) == seq![0u8],
        RowValue::encoding(ValueView::Integer(n)) == seq![1u8] + be_bytes((n as u64) as nat, 8),
        RowValue::encoding(ValueView::Float(bits)) == seq![2u8] + be_bytes(bits as nat, 8),
        RowValue::encoding(ValueView::Boolean(b)) == seq![4u8, if b { 1u8 } else { 0u8 }],
        ({
            let text = encode_utf8(s);
            let size = 1 + varint_bytes(text.len()).len() + text.len();
            &&& RowValue::size(ValueView::Text(s)) == size
            &&& size <= 1350 ==> {
                &&& RowValue::encoding(ValueView::Text(s)) == seq![3u8] + varint_bytes(text.len())
                    + text
                &&& RowValue::refusal(ValueView::Text(s)) is None
            }
            &&& size > 1350 ==> {
                &&& RowValue::encoding(ValueView::Text(s)) == seq![3u8]
                &&& RowValue::refusal(ValueView::Text(s)) == Some(
                    RowValueError::FieldTooLong(saturated(size)),
                )
            }
        }),
        RowValue::size(ValueView::Null) == 1,
        RowValue::size(ValueView::Integer(n)) == 9,
        RowValue::size(ValueView::Float(bits)) == 9,
        RowValue::size(ValueView::Boolean(b)) == 2,
        RowValue::refusal(ValueView::Null) is None,
        RowValue::refusal(ValueView::Integer(n)) is None,
        RowValue::refusal(ValueView::Float(bits)) is None,
        RowValue::refusal(ValueView::Boolean(b)) is None,
        value_tag(ValueView::Null) == 0,
        value_tag(ValueView::Integer(n)) == 1,
        value_tag(ValueView::Float(bits)) == 2,
        value_tag(ValueView::Text(s)) == 3,
        value_tag(ValueView::Boolean(b)) == 4,
{
    let text = encode_utf8(s);
    assert(RowValue::encoding(ValueView::Null) =~= seq![0u8]);
    assert(RowValue::encoding(ValueView::Boolean(b)) =~= seq![4u8, if b { 1u8 } else { 0u8 }]);
    if 1 + varint_bytes(text.len()).len() + text.len() <= 1350 {
        assert(RowValue::encoding(ValueView::Text(s)) =~= seq![3u8] + varint_bytes(text.len())
            + text);
    } else {
        assert(RowValue::encoding(ValueView::Text(s)) =~= seq![3u8]);
    }
}

/// A number that is held in 64 bits for its sign: a negative one is written as what is
/// missing to two to the 64.
pub proof fn law_negative_numbers_are_complements(n: i64)
    ensures
        n >= 0 ==> (n as u64) as int == n,
        n < 0 ==> (n as u64) as int == n + 0x1_0000_0000_0000_0000,
{
    if n >= 0 {
        assert((n as u64) as int == n) by (bit_vector)
            requires
                n >= 0,
        ;
    }
    if n < 0 {
        assert((n as u64) as int == n + 0x1_0000_0000_0000_0000) by (bit_vector)
            requires
                n < 0,
        ;
    }
}

/// A key is written, and measured, as the value that it is stored as.
pub proof fn law_keys_are_written_as_values(k: KeyView)
    ensures
        Key::encoding(k) == RowValue::encoding(value_of_key(k)),
        Key::size(k) == RowValue::size(value_of_key(k)),
        match RowValue::refusal(value_of_key(k)) {
            Some(e) => Key::refusal(k) == Some(KeyError::RowValue(e)),
            None => Key::refusal(k) is None,
        },
{
}

/// A row is the number of its fields in a byte and then the fields. One with more than 255
/// fields is refused before anything is written.
pub proof fn law_rows_are_counted(row: Seq<ValueView>, v: ValueView)
    ensures
        row.len() <= 255 ==> {
            &&& Row::encoding(row) == seq![row.len() as u8] + list_encoding::<RowValue>(row)
            &&& Row::refusal(row) == list_refusal::<RowValue>(row)
        },
        row.len() > 255 ==> {
            &&& Row::encoding(row) == Seq::<u8>::empty()
            &&& Row::refusal(row) == Some(RowValueError::TooManyFields(row.len() as usize))
        },
        Row::size(Seq::empty()) == 1,
        Row::size(row.push(v)) == Row::size(row) + RowValue::size(v),
{
    assert(row.push(v).drop_last() =~= row);
}

/// A list is written part by part: what is written of two lists one after the other is
/// what is written of the first and, if that was written to its end, what is written of
/// the second. A list of one element is that element.
pub proof fn law_lists_are_written_part_by_part<T: Serializable>(
    a: Seq<T::V>,
    b: Seq<T::V>,
    v: T::V,
)
    ensures
        list_refusal::<T>(a) is None ==> {
            &&& list_encoding::<T>(a + b) == list_encoding::<T>(a) + list_encoding::<T>(b)
            &&& list_refusal::<T>(a + b) == list_refusal::<T>(b)
            &&& list_accepted::<T>(a + b) == a + list_accepted::<T>(b)
        },
        list_refusal::<T>(a) is Some ==> {
            &&& list_encoding::<T>(a + b) == list_encoding::<T>(a)
            &&& list_refusal::<T>(a + b) == list_refusal::<T>(a)
            &&& list_accepted::<T>(a + b) == list_accepted::<T>(a)
        },
        list_size::<T>(a + b) == list_size::<T>(a) + list_size::<T>(b),
        list_encoding::<T>(seq![v]) == T::encoding(v),
        list_refusal::<T>(seq![v]) == T::refusal(v),
        list_size::<T>(seq![v]) == T::size(v),
        list_accepted::<T>(seq![v]) == if T::refusal(v) is None {
            seq![v]
        } else {
            Seq::<T::V>::empty()
        },
    decreases b.len(),
{
    let one = seq![v];
    let none = Seq::<T::V>::empty();
    assert(one.drop_last() =~= none);
    assert(list_refusal::<T>(none) is None);
    assert(list_encoding::<T>(none) =~= Seq::<u8>::empty());
    assert(list_size::<T>(none) == 0);
    assert(list_accepted::<T>(none) == none);
    assert(list_encoding::<T>(one) =~= T::encoding(v));
    if b.len() == 0 {
        assert(a + b =~= a);
        assert(list_encoding::<T>(a + b) =~= list_encoding::<T>(a) + list_encoding::<T>(b));
        assert(b =~= none);
    } else {
        let front = b.drop_last();
        law_lists_are_written_part_by_part::<T>(a, front, v);
        assert((a + b).drop_last() =~= a + front);
        assert((a + b).last() == b.last());
        if list_refusal::<T>(a) is None {
            assert(list_encoding::<T>(a + b) =~= list_encoding::<T>(a) + list_encoding::<T>(b));
        }
    }
}

/// A list is read element by element: reading two runs of elements is reading the first
/// and then the second from what is left, and fails where either does. Reading one element
/// is reading that element, and reading none takes nothing.
pub proof fn law_lists_are_read_one_by_one<T: Serializable>(s: Seq<u8>, a: nat, b: nat)
    ensures
        list_decoding::<T>(s, 0) == Ok::<(Seq<T::V>, int), T::Error>((Seq::empty(), 0)),
        match T::decoding(s) {
            Ok((v, n)) => list_decoding::<T>(s, 1) == Ok::<(Seq<T::V>, int), T::Error>(
                (seq![v], n),
            ),
            Err(e) => {
                &&& list_decoding::<T>(s, 1) == Err::<(Seq<T::V>, int), T::Error>(e)
                &&& list_failure_reach::<T>(s, 1) == T::failure_reach(s)
            },
        },
        match list_decoding::<T>(s, a) {
            Err(e) => {
                &&& list_decoding::<T>(s, a + b) == Err::<(Seq<T::V>, int), T::Error>(e)
                &&& list_failure_reach::<T>(s, a + b) == list_failure_reach::<T>(s, a)
            },
            Ok((x, p)) => match list_decoding::<T>(s.skip(p), b) {
                Err(e) => {
                    &&& list_decoding::<T>(s, a + b) == Err::<(Seq<T::V>, int), T::Error>(e)
                    &&& match list_failure_reach::<T>(s.skip(p), b) {
                        Some(q) => list_failure_reach::<T>(s, a + b) == Some(p + q),
                        None => list_failure_reach::<T>(s, a + b) is None,
                    }
                },
                Ok((y, q)) => list_decoding::<T>(s, a + b) == Ok::<(Seq<T::V>, int), T::Error>(
                    (x + y, p + q),
                ),
            },
        },
    decreases b,
{
    assert(s.skip(0) =~= s);
    assert(list_decoding::<T>(s, 0) == Ok::<(Seq<T::V>, int), T::Error>((Seq::empty(), 0)));
    if let Ok((v, n)) = T::decoding(s) {
        assert(Seq::<T::V>::empty().push(v) =~= seq![v]);
    }
    lemma_list_decoding_within_input::<T>(s, a);
    if b == 0 {
        if let Ok((x, p)) = list_decoding::<T>(s, a) {
            assert(x + Seq::<T::V>::empty() =~= x);
        }
    } else {
        let c = (b - 1) as nat;
        law_lists_are_read_one_by_one::<T>(s, a, c);
        assert((a + b - 1) as nat == a + c);
        if let Ok((x, p)) = list_decoding::<T>(s, a) {
            lemma_list_decoding_within_input::<T>(s.skip(p), c);
            if let Ok((y, q)) = list_decoding::<T>(s.skip(p), c) {
                assert(s.skip(p).skip(q) =~= s.skip(p + q));
                if let Ok((v, _)) = T::decoding(s.skip(p).skip(q)) {
                    assert((x + y).push(v) =~= x + y.push(v));
                }
            }
        }
    }
}

/// What bytes are read as a value goes by the first of them, the tag. Null takes nothing
/// more; numbers take eight bytes that are written as the number is; a boolean takes one,
/// which must be 0 or 1; a tag above 4 is unknown.
pub proof fn law_values_are_read_by_their_tag(s: Seq<u8>)
    ensures
        ({
            let out = RowValue::decoding(s);
            let reach = RowValue::failure_reach(s);
            let short = Err::<(ValueView, int), RowValueError>(
                RowValueError::IoError(IoError::UnexpectedEof),
            );
            &&& s.len() == 0 ==> out == short && reach is None
            &&& s.len() > 0 && s[0] == 0 ==> out == Ok::<(ValueView, int), RowValueError>(
                (ValueView::Null, 1),
            )
            &&& s.len() > 0 && (s[0] == 1 || s[0] == 2) && s.len() < 9 ==> out == short
                && reach is None
            &&& s.len() >= 9 && s[0] == 1 ==> out is Ok && out->Ok_0.0 is Integer && out->Ok_0.1
                == 9 && RowValue::encoding(out->Ok_0.0) == s.take(9)
            &&& s.len() >= 9 && s[0] == 2 ==> out is Ok && out->Ok_0.0 is Float && out->Ok_0.1 == 9
                && RowValue::encoding(out->Ok_0.0) == s.take(9)
            &&& s.len() == 1 && s[0] == 4 ==> out == short && reach is None
            &&& s.len() > 1 && s[0] == 4 && s[1] <= 1 ==> out == Ok::<
                (ValueView, int),
                RowValueError,
            >((ValueView::Boolean(s[1] == 1), 2))
            &&& s.len() > 1 && s[0] == 4 && s[1] > 1 ==> out == Err::<
                (ValueView, int),
                RowValueError,
            >(RowValueError::InvalidBool(s[1])) && reach == Some(2int)
            &&& s.len() > 0 && s[0] > 4 ==> out == Err::<(ValueView, int), RowValueError>(
                RowValueError::UnknownTag(s[0]),
            ) && reach == Some(1int)
        }),
{
    if s.len() >= 9 {
        let body = s.skip(1);
        law_numbers_are_read_as_written(body, 8);
        lemma_pow_256_widths();
        assert(s.take(9) =~= seq![s[0]] + body.take(8));
        if s[0] == 1 {
            let n = be_value(body.take(8)) as u64;
            assert(((n as i64) as u64) == n) by (bit_vector);
        }
    }
}

/// What bytes are read as a string: its length, which must not make it larger than a field
/// may be, then as many bytes, which must be there and be UTF-8; the string is the one
/// that is encoded as those bytes.
pub proof fn law_strings_are_read_by_their_length(s: Seq<u8>)
    requires
        s.len() > 0,
        s[0] == 3,
    ensures
        ({
            let out = RowValue::decoding(s);
            let reach = RowValue::failure_reach(s);
            match varint_decoding(s.skip(1)) {
                Err(e) => {
                    &&& out == Err::<(ValueView, int), RowValueError>(RowValueError::IoError(e))
                    &&& match varint_failure_reach(s.skip(1)) {
                        Some(n) => reach == Some(n + 1),
                        None => reach is None,
                    }
                },
                Ok((len, used)) => {
                    let start = used + 1;
                    let end = start + len;
                    if 1 + varint_bytes(len as nat).len() + len > 1350 {
                        &&& out == Err::<(ValueView, int), RowValueError>(
                            RowValueError::FieldTooLong(len),
                        )
                        &&& reach == Some(start)
                    } else if s.len() < end {
                        &&& out == Err::<(ValueView, int), RowValueError>(
                            RowValueError::IoError(IoError::UnexpectedEof),
                        )
                        &&& reach is None
                    } else if !valid_utf8(s.subrange(start, end)) {
                        &&& out == Err::<(ValueView, int), RowValueError>(RowValueError::Utf8Error)
                        &&& reach == Some(end)
                    } else {
                        &&& out is Ok
                        &&& out->Ok_0.0 is Text
                        &&& encode_utf8(out->Ok_0.0->Text_0) == s.subrange(start, end)
                        &&& out->Ok_0.1 == end
                    }
                },
            }
        }),
{
    let body = s.skip(1);
    lemma_varint_decoding_within_input(body);
    if let Ok((len, used)) = varint_decoding(body) {
        if s.len() >= used + 1 + len {
            assert(body.subrange(used, used + len) =~= s.subrange(used + 1, used + 1 + len));
            if valid_utf8(body.subrange(used, used + len)) {
                decode_utf8_encode_utf8(body.subrange(used, used + len));
            }
        }
    }
}

/// A row is read as the number of fields that its first byte says, one after the other; a
/// key as a value that makes one.
pub proof fn law_rows_and_keys_are_read_from_values(s: Seq<u8>)
    ensures
        s.len() == 0 ==> Row::decoding(s) == Err::<(Seq<ValueView>, int), RowValueError>(
            RowValueError::IoError(IoError::UnexpectedEof),
        ) && Row::failure_reach(s) is None,
        s.len() > 0 ==> match list_decoding::<RowValue>(s.skip(1), s[0] as nat) {
            Ok((row, n)) => Row::decoding(s) == Ok::<(Seq<ValueView>, int), RowValueError>(
                (row, n + 1),
            ),
            Err(e) => {
                &&& Row::decoding(s) == Err::<(Seq<ValueView>, int), RowValueError>(e)
                &&& match list_failure_reach::<RowValue>(s.skip(1), s[0] as nat) {
                    Some(n) => Row::failure_reach(s) == Some(n + 1),
                    None => Row::failure_reach(s) is None,
                }
            },
        },
        match RowValue::decoding(s) {
            Err(e) => {
                &&& Key::decoding(s) == Err::<(KeyView, int), KeyError>(KeyError::RowValue(e))
                &&& Key::failure_reach(s) == RowValue::failure_reach(s)
            },
            Ok((v, n)) => {
                &&& v is Integer ==> Key::decoding(s) == Ok::<(KeyView, int), KeyError>(
                    (KeyView::Integer(v->Integer_0), n),
                )
                &&& v is Text ==> Key::decoding(s) == Ok::<(KeyView, int), KeyError>(
                    (KeyView::Text(v->Text_0), n),
                )
                &&& v is Null ==> Key::decoding(s) == Err::<(KeyView, int), KeyError>(
                    KeyError::NullKey,
                )
                &&& v is Float ==> Key::decoding(s) == Err::<(KeyView, int), KeyError>(
                    KeyError::NotOrderable,
                )
                &&& v is Boolean ==> Key::decoding(s) == Err::<(KeyView, int), KeyError>(
                    KeyError::BoolKey,
                )
                &&& Key::decoding(s) is Err ==> Key::failure_reach(s) == Some(n)
            },
        },
{
}

/// A read that fails is reported by every type as such.
pub proof fn law_failed_reads_are_reported(e: IoError)
    ensures
        PageId::read_failure(e) == e,
        Lsn::read_failure(e) == LsnError::IoError(e),
        PageLsn::read_failure(e) == LsnError::IoError(e),
        RowValue::read_failure(e) == RowValueError::IoError(e),
        Row::read_failure(e) == RowValueError::IoError(e),
        Key::read_failure(e) == KeyError::RowValue(RowValueError::IoError(e)),
        Page::read_failure(e) == PageError::IoError(e),
{
}

/// A size that does not fit is the largest that does.
pub proof fn law_sizes_saturate(n: nat)
    ensures
        n <= usize::MAX ==> saturated(n) == n,
        n > usize::MAX ==> saturated(n) == usize::MAX,
{
}

/// What values, keys and rows stand for is what they hold.
pub proof fn law_views_show_what_is_held(
    n: i64,
    bits: u64,
    s: String,
    b: bool,
    row: Row,
    lsn: Lsn,
    id: PageId,
)
    ensures
        RowValue::Integer(n).deep_view() == ValueView::Integer(n),
        RowValue::Float(bits).deep_view() == ValueView::Float(bits),
        RowValue::String(s).deep_view() == ValueView::Text(s@),
        RowValue::Boolean(b).deep_view() == ValueView::Boolean(b),
        RowValue::Null.deep_view() == ValueView::Null,
        Key::Integer(n).deep_view() == KeyView::Integer(n),
        Key::String(s).deep_view() == KeyView::Text(s@),
        row.deep_view().len() == row.fields@.len(),
        forall|i: int|
            0 <= i < row.fields@.len() ==> #[trigger] row.deep_view()[i]
                == row.fields@[i].deep_view(),
        PageLsn(None).deep_view() is None,
        PageLsn(Some(lsn)).deep_view() == Some(lsn.deep_view()),
        id.deep_view() == id,
{
}

/// What a page stands for is what it holds.
pub proof fn law_page_views_show_what_is_held(page: Page, body: PageBody)
    ensures
        page.deep_view().page_id == page.page_id,
        page.deep_view().last_update == page.last_update.deep_view(),
        page.deep_view().parent == page.parent.deep_view(),
        page.deep_view().body == page.body.deep_view(),
        match body {
            PageBody::Leaf { records, next, prev } => {
                &&& body.deep_view() is Leaf
                &&& body.deep_view()->next == next.deep_view()
                &&& body.deep_view()->prev == prev.deep_view()
                &&& body.deep_view()->records.len() == records@.len()
                &&& forall|i: int|
                    0 <= i < records@.len() ==> #[trigger] body.deep_view()->records[i]
                        == records@[i].deep_view()
            },
            PageBody::Internal { keys, children } => {
                &&& body.deep_view() is Internal
                &&& body.deep_view()->keys.len() == keys@.len()
                &&& forall|i: int|
                    0 <= i < keys@.len() ==> #[trigger] body.deep_view()->keys[i]
                        == keys@[i].deep_view()
                &&& body.deep_view()->children == children@
            },
        },
{
    if let PageBody::Internal { keys, children } = body {
        assert(body.deep_view()->children =~= children@);
    }
}

} // verus!

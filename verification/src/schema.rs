//! Rows and the values in them, and the schemas that rows are held to.
use crate::bytes::{
    be_bytes, be_decoding, lemma_be_bytes_len, lemma_be_roundtrip, lemma_pow_256_widths, push_be,
    ByteReader, IoError,
};
use crate::commontypes::{
    key_lt, key_of_value, key_relation, law_key_order_irreflexive, law_key_order_total, Key,
    KeyView,
};
use crate::list::{
    deserialize_list, lemma_list_accepted, lemma_list_decoding_within_input,
    lemma_list_failure_within_input, lemma_list_roundtrip, lemma_list_size_is_exact,
    lemma_list_truncated, list_decoding, list_encoded_size, list_encoding, list_failure_reach,
    list_refusal, list_size, serialize_list,
};
use crate::page::{internal_entry, leaf_entry, Page, MAX_INTERNAL_ENTRY_SIZE, MAX_LEAF_ENTRY_SIZE};
use crate::schema_laws::law_validated_rows_conform;
use crate::text::{compare_text, lemma_lex_lt_irreflexive, text_len, Relation};
use crate::traits::{saturated, Serializable};
use crate::varint::{
    encode_varint, lemma_varint_decoding_within_input, lemma_varint_failure_within_input,
    lemma_varint_roundtrip, lemma_varint_truncated, read_varint, varint_bytes, varint_decoding,
    varint_failure_reach, varint_size,
};
use vstd::prelude::*;
use vstd::utf8::*;

verus! {

pub const NULL_FLAG: u8 = 0;

pub const INT_FLAG: u8 = 1;

pub const FLOAT_FLAG: u8 = 2;

pub const STRING_FLAG: u8 = 3;

pub const BOOL_FLAG: u8 = 4;

/// The largest encoded size of a field.
pub const MAX_FIELD_LEN: usize = MAX_LEAF_ENTRY_SIZE;

/// The most fields of a row.
pub const MAX_NUM_FIELDS: usize = 255;

/// Why a value or a row is not written or not read.
#[derive(Debug, Clone, Copy, PartialEq, Eq, Structural)]
pub enum RowValueError {
    IoError(IoError),
    /// The bytes of a string are not UTF-8.
    Utf8Error,
    /// Unknown schema field tag.
    UnknownTag(u8),
    /// The length of a field that takes more than `MAX_FIELD_LEN`: its encoded size where
    /// it is written, the length of its text where it is read.
    FieldTooLong(usize),
    /// The number of fields of a row with more than `MAX_NUM_FIELDS`.
    TooManyFields(usize),
    /// Booleans must come from bytes holding '0' or '1'.
    InvalidBool(u8),
}

/// A value in a row. A float is held as its IEEE 754 bits.
#[derive(Debug)]
pub enum RowValue {
    Integer(i64),
    Float(u64),
    String(String),
    Boolean(bool),
    Null,
}

/// What a `RowValue` stands for.
pub enum ValueView {
    Integer(i64),
    Float(u64),
    Text(Seq<char>),
    Boolean(bool),
    Null,
}

impl DeepView for RowValue {
    type V = ValueView;

    open spec fn deep_view(&self) -> ValueView {
        match self {
            RowValue::Integer(n) => ValueView::Integer(*n),
            RowValue::Float(bits) => ValueView::Float(*bits),
            RowValue::String(s) => ValueView::Text(s@),
            RowValue::Boolean(b) => ValueView::Boolean(*b),
            RowValue::Null => ValueView::Null,
        }
    }
}

impl Clone for RowValue {
    fn clone(&self) -> (r: Self)
        ensures
            r == *self,
    {
        match self {
            RowValue::Integer(n) => RowValue::Integer(*n),
            RowValue::Float(bits) => RowValue::Float(*bits),
            RowValue::String(s) => RowValue::String(s.clone()),
            RowValue::Boolean(b) => RowValue::Boolean(*b),
            RowValue::Null => RowValue::Null,
        }
    }
}

/// Whether two floats, given by their IEEE 754 bits, are equal: they are the same and
/// no NaN, or both are zero, whatever their sign.
pub open spec fn floats_equal(a: u64, b: u64) -> bool {
    let magnitude: u64 = a % 0x8000_0000_0000_0000;
    ||| a == b && magnitude <= 0x7ff0_0000_0000_0000
    ||| magnitude == 0 && b % 0x8000_0000_0000_0000 == 0
}

/// Whether two values are equal. Null equals null.
pub open spec fn values_equal(a: ValueView, b: ValueView) -> bool {
    match (a, b) {
        (ValueView::Float(x), ValueView::Float(y)) => floats_equal(x, y),
        _ => a == b,
    }
}

/// Floats are compared as numbers, everything else as it is.
impl PartialEq for RowValue {
    fn eq(&self, other: &Self) -> (r: bool) {
        match (self, other) {
            (RowValue::Integer(a), RowValue::Integer(b)) => *a == *b,
            (RowValue::Float(a), RowValue::Float(b)) => {
                let magnitude: u64 = *a % 0x8000_0000_0000_0000;
                *a == *b && magnitude <= 0x7ff0_0000_0000_0000 || magnitude == 0 && *b
                    % 0x8000_0000_0000_0000 == 0
            },
            (RowValue::String(a), RowValue::String(b)) => {
                proof {
                    lemma_lex_lt_irreflexive(encode_utf8(a@));
                }
                match compare_text(a, b) {
                    Relation::Equal => true,
                    _ => false,
                }
            },
            (RowValue::Boolean(a), RowValue::Boolean(b)) => *a == *b,
            (RowValue::Null, RowValue::Null) => true,
            _ => false,
        }
    }
}

impl vstd::std_specs::cmp::PartialEqSpecImpl for RowValue {
    open spec fn obeys_eq_spec() -> bool {
        true
    }

    open spec fn eq_spec(&self, other: &Self) -> bool {
        values_equal(self.deep_view(), other.deep_view())
    }
}

/// The two's complement bits of `n` are read back as `n`.
proof fn lemma_i64_bits(n: i64)
    ensures
        (n as u64) as i64 == n,
{
    assert((n as u64) as i64 == n) by (bit_vector);
}

/// The size of a string of `len` UTF-8 bytes.
pub open spec fn text_size(len: nat) -> nat {
    1 + varint_bytes(len).len() + len
}

/// What the bytes behind the tag of a string are read as.
pub open spec fn text_decoding(body: Seq<u8>) -> Result<(ValueView, int), RowValueError> {
    match varint_decoding(body) {
        Err(e) => Err(RowValueError::IoError(e)),
        Ok((len, used)) => if text_size(len as nat) > MAX_FIELD_LEN {
            Err(RowValueError::FieldTooLong(len))
        } else if body.len() < used + len {
            Err(RowValueError::IoError(IoError::UnexpectedEof))
        } else {
            let text = body.subrange(used, used + len);
            if valid_utf8(text) {
                Ok((ValueView::Text(decode_utf8(text)), used + len))
            } else {
                Err(RowValueError::Utf8Error)
            }
        },
    }
}

/// What the bytes behind the tag `tag` are read as.
pub open spec fn body_decoding(tag: u8, body: Seq<u8>) -> Result<(ValueView, int), RowValueError> {
    if tag == INT_FLAG {
        match be_decoding(body, 8) {
            Err(e) => Err(RowValueError::IoError(e)),
            Ok((n, used)) => Ok((ValueView::Integer((n as u64) as i64), used)),
        }
    } else if tag == FLOAT_FLAG {
        match be_decoding(body, 8) {
            Err(e) => Err(RowValueError::IoError(e)),
            Ok((n, used)) => Ok((ValueView::Float(n as u64), used)),
        }
    } else if tag == STRING_FLAG {
        text_decoding(body)
    } else if tag == BOOL_FLAG {
        if body.len() == 0 {
            Err(RowValueError::IoError(IoError::UnexpectedEof))
        } else if body[0] > 1 {
            Err(RowValueError::InvalidBool(body[0]))
        } else {
            Ok((ValueView::Boolean(body[0] == 1), 1))
        }
    } else if tag == NULL_FLAG {
        Ok((ValueView::Null, 0))
    } else {
        Err(RowValueError::UnknownTag(tag))
    }
}

/// How many of the bytes behind the tag of a string are taken when reading it fails: the
/// length where it is bad or too large, and the text too where that is not UTF-8.
pub open spec fn text_failure_reach(body: Seq<u8>) -> Option<int> {
    match varint_decoding(body) {
        Err(_) => varint_failure_reach(body),
        Ok((len, used)) => if text_size(len as nat) > MAX_FIELD_LEN {
            Some(used)
        } else if body.len() < used + len {
            None
        } else {
            Some(used + len)
        },
    }
}

/// How many of the bytes behind the tag `tag` are taken when reading them fails.
pub open spec fn body_failure_reach(tag: u8, body: Seq<u8>) -> Option<int> {
    if tag == INT_FLAG || tag == FLOAT_FLAG {
        None
    } else if tag == STRING_FLAG {
        text_failure_reach(body)
    } else if tag == BOOL_FLAG {
        if body.len() == 0 {
            None
        } else {
            Some(1)
        }
    } else {
        Some(0)
    }
}

proof fn lemma_body_decoding_within_input(tag: u8, body: Seq<u8>)
    ensures
        body_decoding(tag, body) matches Ok((_, n)) ==> 0 <= n <= body.len(),
{
}

/// The tag of a value.
pub open spec fn value_tag(v: ValueView) -> u8 {
    match v {
        ValueView::Integer(_) => INT_FLAG,
        ValueView::Float(_) => FLOAT_FLAG,
        ValueView::Text(_) => STRING_FLAG,
        ValueView::Boolean(_) => BOOL_FLAG,
        ValueView::Null => NULL_FLAG,
    }
}

/// What is written behind the tag of a value. Nothing is for a string that is too
/// long.
pub open spec fn body_encoding(v: ValueView) -> Seq<u8> {
    match v {
        ValueView::Integer(n) => be_bytes((n as u64) as nat, 8),
        ValueView::Float(bits) => be_bytes(bits as nat, 8),
        ValueView::Text(s) => if text_size(encode_utf8(s).len()) > MAX_FIELD_LEN {
            Seq::empty()
        } else {
            varint_bytes(encode_utf8(s).len()) + encode_utf8(s)
        },
        ValueView::Boolean(b) => seq![if b { 1u8 } else { 0u8 }],
        ValueView::Null => Seq::empty(),
    }
}

/// Reads what follows the tag of a string.
fn read_text(r: &mut ByteReader<'_>) -> (out: Result<RowValue, RowValueError>)
    ensures
        match text_decoding(old(r)@) {
            Ok((v, n)) => {
                &&& out is Ok
                &&& out->Ok_0.deep_view() == v
                &&& final(r)@ == old(r)@.skip(n)
            },
            Err(e) => {
                &&& out is Err
                &&& out->Err_0 == e
                &&& text_failure_reach(old(r)@) matches Some(n) ==> final(r)@ == old(r)@.skip(n)
            },
        },
{
    let ghost body = r@;
    proof {
        lemma_varint_decoding_within_input(body);
    }
    let (number, rest) = read_varint(r.rest());
    *r = ByteReader::new(rest);
    let len: usize = match number {
        Ok(len) => len,
        Err(e) => return Err(RowValueError::IoError(e)),
    };
    let size: usize = len.saturating_add(varint_size(len)).saturating_add(1);
    if size > MAX_FIELD_LEN {
        return Err(RowValueError::FieldTooLong(len));
    }
    let text = match r.take(len) {
        Ok(bytes) => vstd::slice::slice_to_vec(bytes),
        Err(e) => return Err(RowValueError::IoError(e)),
    };
    proof {
        let used = varint_decoding(body)->Ok_0.1;
        assert(text@ =~= body.subrange(used, used + len));
        assert(body.skip(used).skip(len as int) =~= body.skip(used + len));
    }
    match String::from_utf8(text) {
        Ok(s) => Ok(RowValue::String(s)),
        Err(_) => Err(RowValueError::Utf8Error),
    }
}

/// A string is read back as it was written, whatever follows.
proof fn lemma_text_roundtrip(text: Seq<char>, tail: Seq<u8>)
    requires
        text_size(encode_utf8(text).len()) <= MAX_FIELD_LEN,
    ensures
        text_decoding(body_encoding(ValueView::Text(text)) + tail) == Ok::<
            (ValueView, int),
            RowValueError,
        >((ValueView::Text(text), body_encoding(ValueView::Text(text)).len() as int)),
{
    let enc = encode_utf8(text);
    let head = varint_bytes(enc.len());
    let body = head + enc + tail;
    lemma_varint_roundtrip(enc.len(), enc + tail);
    assert(body =~= head + (enc + tail));
    assert(body.subrange(head.len() as int, (head.len() + enc.len()) as int) =~= enc);
    encode_utf8_valid_utf8(text);
    encode_utf8_decode_utf8(text);
}

/// A tag, then the value: numbers big-endian in eight bytes, a string as its
/// length and its UTF-8 bytes, a boolean as a byte.
impl Serializable for RowValue {
    type Error = RowValueError;

    open spec fn valid(v: ValueView) -> bool {
        true
    }

    open spec fn encoding(v: ValueView) -> Seq<u8> {
        seq![value_tag(v)] + body_encoding(v)
    }

    open spec fn refusal(v: ValueView) -> Option<RowValueError> {
        if v is Text && RowValue::size(v) > MAX_FIELD_LEN {
            Some(RowValueError::FieldTooLong(saturated(RowValue::size(v))))
        } else {
            None
        }
    }

    open spec fn size(v: ValueView) -> nat {
        match v {
            ValueView::Integer(_) => 9,
            ValueView::Float(_) => 9,
            ValueView::Text(s) => text_size(encode_utf8(s).len()),
            ValueView::Boolean(_) => 2,
            ValueView::Null => 1,
        }
    }

    open spec fn decoding(s: Seq<u8>) -> Result<(ValueView, int), RowValueError> {
        if s.len() == 0 {
            Err(RowValueError::IoError(IoError::UnexpectedEof))
        } else {
            match body_decoding(s[0], s.skip(1)) {
                Err(e) => Err(e),
                Ok((v, n)) => Ok((v, n + 1)),
            }
        }
    }

    open spec fn failure_reach(s: Seq<u8>) -> Option<int> {
        if s.len() == 0 {
            None
        } else {
            match body_failure_reach(s[0], s.skip(1)) {
                Some(n) => Some(n + 1),
                None => None,
            }
        }
    }

    open spec fn read_failure(e: IoError) -> RowValueError {
        RowValueError::IoError(e)
    }

    fn read_error(e: IoError) -> (r: RowValueError) {
        RowValueError::IoError(e)
    }

    fn serialize(&self, w: &mut Vec<u8>) -> (r: Result<(), RowValueError>) {
        let ghost before = w@;
        let ghost v = self.deep_view();
        w.push(self.get_tag());
        match self {
            RowValue::Integer(n) => {
                push_be(w, *n as u64, 8);
            },
            RowValue::Float(bits) => {
                push_be(w, *bits, 8);
            },
            RowValue::String(s) => {
                let length: usize = self.encoded_size();
                if length > MAX_FIELD_LEN {
                    assert(w@ =~= before + RowValue::encoding(v));
                    return Err(RowValueError::FieldTooLong(length));
                }
                let mut varlen = encode_varint(text_len(s));
                w.append(&mut varlen);
                let mut text = vstd::slice::slice_to_vec(s.as_str().as_bytes());
                w.append(&mut text);
            },
            RowValue::Boolean(b) => {
                w.push(if *b { 1 } else { 0 });
            },
            RowValue::Null => {},
        }
        assert(w@ =~= before + RowValue::encoding(v));
        Ok(())
    }

    fn deserialize(r: &mut ByteReader<'_>) -> (out: Result<Self, RowValueError>) {
        let ghost s = r@;
        let tag: u8 = match r.take(1) {
            Ok(bytes) => bytes[0],
            Err(e) => return Err(RowValueError::IoError(e)),
        };
        let ghost body = s.skip(1);
        assert forall|n: int| 0 <= n <= body.len() implies #[trigger] body.skip(n) == s.skip(
            n + 1,
        ) by {
            assert(body.skip(n) =~= s.skip(n + 1));
        }
        assert(body.skip(0) =~= body);
        match tag {
            INT_FLAG => match r.read_be(8) {
                Ok(n) => Ok(RowValue::Integer(n as i64)),
                Err(e) => Err(RowValueError::IoError(e)),
            },
            FLOAT_FLAG => match r.read_be(8) {
                Ok(bits) => Ok(RowValue::Float(bits)),
                Err(e) => Err(RowValueError::IoError(e)),
            },
            STRING_FLAG => {
                proof {
                    lemma_varint_decoding_within_input(body);
                    lemma_varint_failure_within_input(body);
                }
                read_text(r)
            },
            BOOL_FLAG => match r.take(1) {
                Ok(bytes) => match bytes[0] {
                    0 => Ok(RowValue::Boolean(false)),
                    1 => Ok(RowValue::Boolean(true)),
                    b => Err(RowValueError::InvalidBool(b)),
                },
                Err(e) => Err(RowValueError::IoError(e)),
            },
            NULL_FLAG => Ok(RowValue::Null),
            _ => Err(RowValueError::UnknownTag(tag)),
        }
    }

    fn encoded_size(&self) -> (n: usize) {
        match self {
            RowValue::Float(_) => 9,
            RowValue::Integer(_) => 9,
            RowValue::Boolean(_) => 2,
            RowValue::String(s) => {
                let length: usize = text_len(s);
                let varlen: usize = varint_size(length);
                length.saturating_add(varlen).saturating_add(1)
            },
            RowValue::Null => 1,
        }
    }

    proof fn law_decoding_within_input(s: Seq<u8>) {
        if s.len() > 0 {
            lemma_body_decoding_within_input(s[0], s.skip(1));
        }
    }

    proof fn law_failure_within_input(s: Seq<u8>) {
        if s.len() > 0 {
            lemma_varint_decoding_within_input(s.skip(1));
            lemma_varint_failure_within_input(s.skip(1));
        }
    }

    proof fn law_size_is_exact(v: ValueView) {
        match v {
            ValueView::Integer(n) => lemma_be_bytes_len((n as u64) as nat, 8),
            ValueView::Float(bits) => lemma_be_bytes_len(bits as nat, 8),
            _ => {},
        }
    }

    proof fn law_roundtrip(v: ValueView, tail: Seq<u8>) {
        let body = body_encoding(v) + tail;
        let s = RowValue::encoding(v) + tail;
        assert(s.skip(1) =~= body);
        lemma_pow_256_widths();
        match v {
            ValueView::Integer(n) => {
                lemma_be_roundtrip((n as u64) as nat, 8, tail);
                lemma_i64_bits(n);
            },
            ValueView::Float(bits) => lemma_be_roundtrip(bits as nat, 8, tail),
            ValueView::Text(text) => lemma_text_roundtrip(text, tail),
            _ => {},
        }
    }

    proof fn law_truncated_is_refused(v: ValueView, k: int) {
        let cut = RowValue::encoding(v).take(k);
        RowValue::law_size_is_exact(v);
        if k > 0 {
            assert(cut[0] == value_tag(v));
            assert(cut.skip(1) =~= body_encoding(v).take(k - 1));
            if let ValueView::Text(text) = v {
                let enc = encode_utf8(text);
                let head = varint_bytes(enc.len());
                lemma_varint_roundtrip(enc.len(), Seq::empty());
                if k - 1 < head.len() {
                    lemma_varint_truncated(enc.len(), k - 1);
                    assert(cut.skip(1) =~= head.take(k - 1));
                } else {
                    let part = enc.take(k - 1 - head.len());
                    lemma_varint_roundtrip(enc.len(), part);
                    assert(cut.skip(1) =~= head + part);
                }
            }
        }
    }
}

/// Whatever value is read is within the size limit and can be written: reading and
/// writing hold strings to the same limit.
pub proof fn law_read_value_can_be_written(s: Seq<u8>)
    ensures
        RowValue::decoding(s) matches Ok((v, _)) ==> {
            &&& RowValue::refusal(v) is None
            &&& RowValue::size(v) <= MAX_FIELD_LEN
        },
{
    if let Ok((v, _)) = RowValue::decoding(s) {
        let body = s.skip(1);
        if let (ValueView::Text(_), Ok((len, used))) = (v, varint_decoding(body)) {
            lemma_varint_decoding_within_input(body);
            decode_utf8_encode_utf8(body.subrange(used, used + len));
        }
    }
}

impl RowValue {
    pub fn get_tag(&self) -> (tag: u8)
        ensures
            tag == value_tag(self.deep_view()),
    {
        match self {
            RowValue::Integer(_) => INT_FLAG,
            RowValue::Float(_) => FLOAT_FLAG,
            RowValue::String(_) => STRING_FLAG,
            RowValue::Boolean(_) => BOOL_FLAG,
            RowValue::Null => NULL_FLAG,
        }
    }

    /// The type of the columns that hold this value; none for null.
    pub fn column_type(&self) -> (t: Option<ColumnType>)
        ensures
            t == value_type(self.deep_view()),
    {
        match self {
            RowValue::Float(_) => Some(ColumnType::Float),
            RowValue::Integer(_) => Some(ColumnType::Integer),
            RowValue::String(_) => Some(ColumnType::String),
            RowValue::Boolean(_) => Some(ColumnType::Bool),
            RowValue::Null => None,
        }
    }
}

/// The type of the columns that hold a value; none for null.
pub open spec fn value_type(v: ValueView) -> Option<ColumnType> {
    match v {
        ValueView::Float(_) => Some(ColumnType::Float),
        ValueView::Integer(_) => Some(ColumnType::Integer),
        ValueView::Text(_) => Some(ColumnType::String),
        ValueView::Boolean(_) => Some(ColumnType::Bool),
        ValueView::Null => None,
    }
}

/// Why a list of values does not make a row.
#[derive(Debug, Clone, Copy, PartialEq, Eq, Structural)]
pub enum RowError {
    /// Cannot construct Row from empty list.
    EmptyRow,
    /// First entry must be a valid primary key.
    InvalidFirstEntry,
}

/// A row: its fields in the order of the columns, the primary key first.
#[derive(Debug, PartialEq)]
pub struct Row {
    pub fields: Vec<RowValue>,
}

impl DeepView for Row {
    type V = Seq<ValueView>;

    open spec fn deep_view(&self) -> Seq<ValueView> {
        self.fields.deep_view()
    }
}

impl Clone for Row {
    fn clone(&self) -> (r: Self)
        ensures
            r.fields@ == self.fields@,
            r.deep_view() == self.deep_view(),
    {
        let fields = self.fields.clone();
        assert(fields@ =~= self.fields@);
        Row { fields }
    }
}

/// Whether the first field of a row is a key.
pub open spec fn has_key(row: Seq<ValueView>) -> bool {
    row.len() > 0 && key_of_value(row[0]) is Ok
}

/// The key of a row that has one.
pub open spec fn row_key(row: Seq<ValueView>) -> KeyView
    recommends
        has_key(row),
{
    key_of_value(row[0])->Ok_0
}

impl Row {
    /// Compares this row's primary key (its first field) against `key`.
    ///
    /// The result is how `self` orders relative to `key`. A row whose first field
    /// is not a key is left out.
    pub fn cmp_key(&self, key: &Key) -> (r: std::cmp::Ordering)
        requires
            has_key(self.deep_view()),
        ensures
            r == std::cmp::Ordering::Less <==> key_lt(
                row_key(self.deep_view()),
                key.deep_view(),
            ),
            r == std::cmp::Ordering::Equal <==> row_key(self.deep_view()) == key.deep_view(),
            r == std::cmp::Ordering::Greater <==> key_lt(
                key.deep_view(),
                row_key(self.deep_view()),
            ),
    {
        proof {
            law_key_order_total(row_key(self.deep_view()), key.deep_view());
            law_key_order_irreflexive(key.deep_view());
        }
        match self.key_relation(key) {
            Relation::Less => std::cmp::Ordering::Less,
            Relation::Equal => std::cmp::Ordering::Equal,
            Relation::Greater => std::cmp::Ordering::Greater,
        }
    }

    /// How this row's primary key stands to `key`.
    pub fn key_relation(&self, key: &Key) -> (r: Relation)
        requires
            has_key(self.deep_view()),
        ensures
            r == key_relation(row_key(self.deep_view()), key.deep_view()),
    {
        proof {
            law_key_order_total(row_key(self.deep_view()), key.deep_view());
            law_key_order_irreflexive(key.deep_view());
        }
        assert(self.deep_view()[0] == self.fields[0].deep_view());
        match (&self.fields[0], key) {
            (RowValue::Integer(a), Key::Integer(b)) => if *a < *b {
                Relation::Less
            } else if *b < *a {
                Relation::Greater
            } else {
                Relation::Equal
            },
            (RowValue::String(a), Key::String(b)) => compare_text(a, b),
            // Mirror the order of keys, where integers sort before strings.
            (RowValue::Integer(_), Key::String(_)) => Relation::Less,
            _ => Relation::Greater,
        }
    }
}

impl TryFrom<Vec<RowValue>> for Row {
    type Error = RowError;

    fn try_from(fields: Vec<RowValue>) -> (r: Result<Self, RowError>)
        ensures
            match r {
                Ok(row) => has_key(fields.deep_view()) && row.fields == fields,
                Err(RowError::EmptyRow) => fields@.len() == 0,
                Err(RowError::InvalidFirstEntry) => fields@.len() > 0 && !has_key(
                    fields.deep_view(),
                ),
            },
    {
        if fields.is_empty() {
            return Err(RowError::EmptyRow);
        }
        assert(fields.deep_view()[0] == fields[0].deep_view());
        match Key::try_from(&fields[0]) {
            Ok(_) => Ok(Row { fields }),
            Err(_) => Err(RowError::InvalidFirstEntry),
        }
    }
}

impl vstd::std_specs::convert::TryFromSpecImpl<Vec<RowValue>> for Row {
    open spec fn obeys_try_from_spec() -> bool {
        true
    }

    open spec fn try_from_spec(fields: Vec<RowValue>) -> Result<Self, RowError> {
        if fields@.len() == 0 {
            Err(RowError::EmptyRow)
        } else if has_key(fields.deep_view()) {
            Ok(Row { fields })
        } else {
            Err(RowError::InvalidFirstEntry)
        }
    }
}

/// The number of fields in one byte, then the fields.
impl Serializable for Row {
    type Error = RowValueError;

    open spec fn valid(v: Seq<ValueView>) -> bool {
        true
    }

    open spec fn encoding(v: Seq<ValueView>) -> Seq<u8> {
        if v.len() > MAX_NUM_FIELDS {
            Seq::empty()
        } else {
            seq![v.len() as u8] + list_encoding::<RowValue>(v)
        }
    }

    open spec fn refusal(v: Seq<ValueView>) -> Option<RowValueError> {
        if v.len() > MAX_NUM_FIELDS {
            Some(RowValueError::TooManyFields(v.len() as usize))
        } else {
            list_refusal::<RowValue>(v)
        }
    }

    open spec fn size(v: Seq<ValueView>) -> nat {
        1 + list_size::<RowValue>(v)
    }

    open spec fn decoding(s: Seq<u8>) -> Result<(Seq<ValueView>, int), RowValueError> {
        if s.len() == 0 {
            Err(RowValueError::IoError(IoError::UnexpectedEof))
        } else {
            match list_decoding::<RowValue>(s.skip(1), s[0] as nat) {
                Err(e) => Err(e),
                Ok((v, n)) => Ok((v, n + 1)),
            }
        }
    }

    open spec fn failure_reach(s: Seq<u8>) -> Option<int> {
        if s.len() == 0 {
            None
        } else {
            match list_failure_reach::<RowValue>(s.skip(1), s[0] as nat) {
                Some(n) => Some(n + 1),
                None => None,
            }
        }
    }

    open spec fn read_failure(e: IoError) -> RowValueError {
        RowValueError::IoError(e)
    }

    fn read_error(e: IoError) -> (r: RowValueError) {
        RowValueError::IoError(e)
    }

    fn serialize(&self, w: &mut Vec<u8>) -> (r: Result<(), RowValueError>) {
        let ghost before = w@;
        if self.fields.len() > MAX_NUM_FIELDS {
            assert(w@ =~= before + Row::encoding(self.deep_view()));
            return Err(RowValueError::TooManyFields(self.fields.len()));
        }
        w.push(self.fields.len() as u8);
        let r = serialize_list(&self.fields, w);
        assert(w@ =~= before + Row::encoding(self.deep_view()));
        r
    }

    fn deserialize(r: &mut ByteReader<'_>) -> (out: Result<Self, RowValueError>) {
        let ghost s = r@;
        let num_fields: usize = match r.take(1) {
            Ok(bytes) => bytes[0] as usize,
            Err(e) => return Err(RowValueError::IoError(e)),
        };
        proof {
            lemma_list_decoding_within_input::<RowValue>(s.skip(1), s[0] as nat);
        }
        match deserialize_list::<RowValue>(r, num_fields) {
            Ok(fields) => {
                proof {
                    let n = list_decoding::<RowValue>(s.skip(1), s[0] as nat)->Ok_0.1;
                    assert(s.skip(1).skip(n) =~= s.skip(n + 1));
                }
                Ok(Row { fields })
            },
            Err(e) => {
                proof {
                    lemma_list_failure_within_input::<RowValue>(s.skip(1), s[0] as nat);
                    if let Some(n) = list_failure_reach::<RowValue>(s.skip(1), s[0] as nat) {
                        assert(s.skip(1).skip(n) =~= s.skip(n + 1));
                    }
                }
                Err(e)
            },
        }
    }

    fn encoded_size(&self) -> (n: usize) {
        list_encoded_size(&self.fields).saturating_add(1)
    }

    proof fn law_decoding_within_input(s: Seq<u8>) {
        if s.len() > 0 {
            lemma_list_decoding_within_input::<RowValue>(s.skip(1), s[0] as nat);
        }
    }

    proof fn law_failure_within_input(s: Seq<u8>) {
        if s.len() > 0 {
            lemma_list_failure_within_input::<RowValue>(s.skip(1), s[0] as nat);
        }
    }

    proof fn law_size_is_exact(v: Seq<ValueView>) {
        lemma_list_size_is_exact::<RowValue>(v);
    }

    proof fn law_roundtrip(v: Seq<ValueView>, tail: Seq<u8>) {
        lemma_list_roundtrip::<RowValue>(v, tail);
        let s = Row::encoding(v) + tail;
        assert(s.skip(1) =~= list_encoding::<RowValue>(v) + tail);
    }

    proof fn law_truncated_is_refused(v: Seq<ValueView>, k: int) {
        if k > 0 {
            let cut = Row::encoding(v).take(k);
            lemma_list_truncated::<RowValue>(v, k - 1);
            assert(cut.skip(1) =~= list_encoding::<RowValue>(v).take(k - 1));
        }
    }
}

/// Whatever values are read one after the other can be written.
proof fn lemma_read_list_accepted(s: Seq<u8>, n: nat)
    ensures
        list_decoding::<RowValue>(s, n) matches Ok((vs, _)) ==> list_refusal::<RowValue>(
            vs,
        ) is None,
    decreases n,
{
    if n > 0 {
        lemma_read_list_accepted(s, (n - 1) as nat);
        if let Ok((vs, used)) = list_decoding::<RowValue>(s, (n - 1) as nat) {
            law_read_value_can_be_written(s.skip(used));
            if let Ok((v, _)) = RowValue::decoding(s.skip(used)) {
                assert(vs.push(v).drop_last() =~= vs);
            }
        }
    }
}

/// Whatever row is read can be written.
pub proof fn law_read_row_can_be_written(s: Seq<u8>)
    ensures
        Row::decoding(s) matches Ok((row, _)) ==> Row::refusal(row) is None,
{
    if s.len() > 0 {
        lemma_read_list_accepted(s.skip(1), s[0] as nat);
        lemma_list_decoding_within_input::<RowValue>(s.skip(1), s[0] as nat);
    }
}

#[derive(Debug, Clone, Copy, PartialEq, Eq, Structural)]
pub enum ColumnType {
    Integer,
    Float,
    String,
    Bool,
}

impl ColumnType {
    /// Whether a column of this type can be the primary key.
    pub open spec fn keyable(self) -> bool {
        self is Integer || self is String
    }

    pub fn is_valid_key(&self) -> (r: bool)
        ensures
            r == self.keyable(),
    {
        match self {
            ColumnType::Float => false,
            ColumnType::Bool => false,
            ColumnType::Integer | ColumnType::String => true,
        }
    }
}

/// A value stored in a `Schema` representing the defined column type
/// and whether or not the field is nullable.
#[derive(Debug, Clone, Copy, PartialEq, Eq, Structural)]
pub struct Column {
    pub col_type: ColumnType,
    pub nullable: bool,
}

impl Column {
    pub fn integer() -> (c: Self)
        ensures
            c == (Column { col_type: ColumnType::Integer, nullable: false }),
    {
        Column { col_type: ColumnType::Integer, nullable: false }
    }

    pub fn nullable_integer() -> (c: Self)
        ensures
            c == (Column { col_type: ColumnType::Integer, nullable: true }),
    {
        Column { col_type: ColumnType::Integer, nullable: true }
    }

    pub fn float() -> (c: Self)
        ensures
            c == (Column { col_type: ColumnType::Float, nullable: false }),
    {
        Column { col_type: ColumnType::Float, nullable: false }
    }

    pub fn nullable_float() -> (c: Self)
        ensures
            c == (Column { col_type: ColumnType::Float, nullable: true }),
    {
        Column { col_type: ColumnType::Float, nullable: true }
    }

    pub fn string() -> (c: Self)
        ensures
            c == (Column { col_type: ColumnType::String, nullable: false }),
    {
        Column { col_type: ColumnType::String, nullable: false }
    }

    pub fn nullable_string() -> (c: Self)
        ensures
            c == (Column { col_type: ColumnType::String, nullable: true }),
    {
        Column { col_type: ColumnType::String, nullable: true }
    }

    pub fn bool() -> (c: Self)
        ensures
            c == (Column { col_type: ColumnType::Bool, nullable: false }),
    {
        Column { col_type: ColumnType::Bool, nullable: false }
    }

    pub fn nullable_bool() -> (c: Self)
        ensures
            c == (Column { col_type: ColumnType::Bool, nullable: true }),
    {
        Column { col_type: ColumnType::Bool, nullable: true }
    }
}

/// Why a list of columns is not a schema, or a row does not conform to one.
#[derive(Debug, Clone, Copy, PartialEq, Eq, Structural)]
pub enum SchemaError {
    /// The type in the row does not conform to the type of this column.
    TypeMismatch(usize),
    /// Row doesn't have the right number of columns.
    ColumnCountMismatch,
    /// Null value in this column, which is not nullable.
    NullValueInNonNullCol(usize),
    /// Primary keys cannot be nullable.
    NullablePrimaryKey,
    /// Primary keys must be ordered.
    NonOrdPrimaryKey,
    /// Cannot build Schema from empty column slice.
    EmptyColumns,
    /// Too many columns.
    TooManyColumns,
    /// The room that a row needs which takes more than `MAX_LEAF_ENTRY_SIZE`.
    RowTooLong(usize),
    /// The room that a key needs which takes more than `MAX_INTERNAL_ENTRY_SIZE`.
    KeyTooLong(usize),
    /// The size of a field which takes more than `MAX_FIELD_LEN`.
    FieldTooLong(usize),
    /// Invalid key value in the first field.
    InvalidKey,
}

/// Why a list of columns is not a schema, if it is not.
pub open spec fn columns_fault(cols: Seq<Column>) -> Option<SchemaError> {
    if cols.len() == 0 {
        Some(SchemaError::EmptyColumns)
    } else if !cols[0].col_type.keyable() {
        Some(SchemaError::NonOrdPrimaryKey)
    } else if cols[0].nullable {
        Some(SchemaError::NullablePrimaryKey)
    } else if cols.len() > MAX_NUM_FIELDS {
        Some(SchemaError::TooManyColumns)
    } else {
        None
    }
}

/// What is wrong with the value `v` in the column `col` at position `i`.
pub open spec fn field_fault(col: Column, v: ValueView, i: int) -> Option<SchemaError> {
    match value_type(v) {
        None => if col.nullable {
            None
        } else {
            Some(SchemaError::NullValueInNonNullCol(i as usize))
        },
        Some(t) => if t != col.col_type {
            Some(SchemaError::TypeMismatch(i as usize))
        } else if RowValue::size(v) > MAX_FIELD_LEN {
            Some(SchemaError::FieldTooLong(saturated(RowValue::size(v))))
        } else {
            None
        },
    }
}

/// What is wrong with the first of the first `n` fields with which something is.
pub open spec fn first_field_fault(cols: Seq<Column>, row: Seq<ValueView>, n: int) -> Option<
    SchemaError,
>
    decreases n,
{
    if n <= 0 {
        None
    } else {
        match first_field_fault(cols, row, n - 1) {
            Some(e) => Some(e),
            None => field_fault(cols[n - 1], row[n - 1], n - 1),
        }
    }
}

/// Why a row does not conform to the columns `cols`, if it does not.
pub open spec fn row_fault(cols: Seq<Column>, row: Seq<ValueView>) -> Option<SchemaError> {
    if cols.len() != row.len() {
        Some(SchemaError::ColumnCountMismatch)
    } else if leaf_entry(row) > MAX_LEAF_ENTRY_SIZE {
        Some(SchemaError::RowTooLong(saturated(leaf_entry(row))))
    } else if !has_key(row) {
        Some(SchemaError::InvalidKey)
    } else if internal_entry(row_key(row)) > MAX_INTERNAL_ENTRY_SIZE {
        Some(SchemaError::KeyTooLong(saturated(internal_entry(row_key(row)))))
    } else {
        first_field_fault(cols, row, cols.len() as int)
    }
}

proof fn lemma_first_fault_stays(cols: Seq<Column>, row: Seq<ValueView>, i: int, n: int)
    requires
        i <= n,
        first_field_fault(cols, row, i) is Some,
    ensures
        first_field_fault(cols, row, n) == first_field_fault(cols, row, i),
    decreases n,
{
    if i < n {
        lemma_first_fault_stays(cols, row, i, n - 1);
    }
}

/// What every page relies on of a row that is stored in it: it has a key, it is
/// written without an error, and neither it nor its key takes too much room.
pub open spec fn storable(row: Seq<ValueView>) -> bool {
    &&& has_key(row)
    &&& Row::refusal(row) is None
    &&& leaf_entry(row) <= MAX_LEAF_ENTRY_SIZE
    &&& internal_entry(row_key(row)) <= MAX_INTERNAL_ENTRY_SIZE
}

/// ValidatedRow is the only type accepted for `insert` operations on the B+Tree
/// This ensures that Schema validation has been accomplished before trying to push
/// bad bytes into the database.
#[derive(Debug)]
pub struct ValidatedRow(Row);

impl ValidatedRow {
    /// The row that was validated.
    pub closed spec fn row(self) -> Row {
        self.0
    }

    #[verifier::type_invariant]
    spec fn inv(self) -> bool {
        storable(self.0.deep_view())
    }

    /// The key of the row, a copy of its first field.
    pub fn primary_key(&self) -> (k: Key)
        ensures
            storable(self.row().deep_view()),
            k.deep_view() == row_key(self.row().deep_view()),
    {
        proof {
            use_type_invariant(self);
        }
        assert(self.0.deep_view()[0] == self.0.fields[0].deep_view());
        match &self.0.fields[0] {
            RowValue::Integer(n) => Key::Integer(*n),
            RowValue::String(s) => Key::String(s.clone()),
            _ => {
                assert(false);
                Key::Integer(0)
            },
        }
    }

    pub fn into_inner(self) -> (row: Row)
        ensures
            row == self.row(),
            storable(row.deep_view()),
    {
        proof {
            use_type_invariant(&self);
        }
        self.0
    }
}

impl Clone for ValidatedRow {
    fn clone(&self) -> (r: Self)
        ensures
            r.row().deep_view() == self.row().deep_view(),
    {
        proof {
            use_type_invariant(self);
        }
        ValidatedRow(self.0.clone())
    }
}

impl From<ValidatedRow> for Row {
    fn from(value: ValidatedRow) -> (row: Self)
        ensures
            row == value.row(),
            storable(row.deep_view()),
    {
        value.into_inner()
    }
}

impl vstd::std_specs::convert::FromSpecImpl<ValidatedRow> for Row {
    open spec fn obeys_from_spec() -> bool {
        true
    }

    open spec fn from_spec(value: ValidatedRow) -> Self {
        value.row()
    }
}

/// Stores the list of columns for a Table. Columns include a ColumnType (e.g. Integer, String,
/// Float) as well as an `nullable` flag indicated whether or not the field is nullable.
#[derive(Debug)]
pub struct Schema {
    columns: Vec<Column>,
}

impl View for Schema {
    type V = Seq<Column>;

    closed spec fn view(&self) -> Seq<Column> {
        self.columns@
    }
}

impl Clone for Schema {
    fn clone(&self) -> (r: Self)
        ensures
            r@ == self@,
    {
        proof {
            use_type_invariant(self);
        }
        let columns = self.columns.clone();
        assert(columns@ =~= self.columns@);
        Schema { columns }
    }
}

impl TryFrom<Vec<Column>> for Schema {
    type Error = SchemaError;

    fn try_from(columns: Vec<Column>) -> (r: Result<Self, SchemaError>)
        ensures
            match columns_fault(columns@) {
                None => r is Ok && r->Ok_0@ == columns@,
                Some(e) => r is Err && r->Err_0 == e,
            },
            r is Ok <==> {
                &&& 1 <= columns@.len() <= 255
                &&& !columns@[0].nullable
                &&& columns@[0].col_type == ColumnType::Integer || columns@[0].col_type
                    == ColumnType::String
            },
    {
        if columns.is_empty() {
            return Err(SchemaError::EmptyColumns);
        }
        if !columns[0].col_type.is_valid_key() {
            return Err(SchemaError::NonOrdPrimaryKey);
        }
        if columns[0].nullable {
            return Err(SchemaError::NullablePrimaryKey);
        }
        if columns.len() > MAX_NUM_FIELDS {
            return Err(SchemaError::TooManyColumns);
        }
        Ok(Schema { columns })
    }
}

impl vstd::std_specs::convert::TryFromSpecImpl<Vec<Column>> for Schema {
    open spec fn obeys_try_from_spec() -> bool {
        true
    }

    closed spec fn try_from_spec(columns: Vec<Column>) -> Result<Self, SchemaError> {
        match columns_fault(columns@) {
            None => Ok(Schema { columns }),
            Some(e) => Err(e),
        }
    }
}

impl Schema {
    #[verifier::type_invariant]
    spec fn inv(self) -> bool {
        columns_fault(self.columns@) is None
    }

    /// The columns, the primary key first.
    pub fn columns(&self) -> (cols: &Vec<Column>)
        ensures
            cols@ == self@,
            columns_fault(self@) is None,
    {
        proof {
            use_type_invariant(self);
        }
        &self.columns
    }

    /// Takes an unvalidated Row and ensures it conforms to the `Schema`, errors
    /// will indicate what was wrong and in which column it occurred. `ValidatedRow`
    /// is the only type accepted for `insert` operations.
    pub fn validate_row(&self, row: Row) -> (r: Result<ValidatedRow, SchemaError>)
        ensures
            match row_fault(self@, row.deep_view()) {
                None => r is Ok && r->Ok_0.row() == row && storable(row.deep_view()),
                Some(e) => r is Err && r->Err_0 == e,
            },
            r is Ok ==> {
                &&& row.fields@.len() == self@.len()
                &&& forall|i: int|
                    0 <= i < self@.len() ==> match #[trigger] row.fields@[i] {
                        RowValue::Null => self@[i].nullable,
                        RowValue::Integer(_) => self@[i].col_type == ColumnType::Integer,
                        RowValue::Float(_) => self@[i].col_type == ColumnType::Float,
                        RowValue::String(_) => self@[i].col_type == ColumnType::String,
                        RowValue::Boolean(_) => self@[i].col_type == ColumnType::Bool,
                    }
            },
    {
        proof {
            use_type_invariant(self);
            law_validated_rows_conform(self@, row.deep_view());
            assert forall|i: int| 0 <= i < row.fields@.len() implies row.deep_view()[i] == (
            #[trigger] row.fields@[i]).deep_view() by {}
        }
        let cols = &self.columns;
        let ghost view = row.deep_view();
        if cols.len() != row.fields.len() {
            return Err(SchemaError::ColumnCountMismatch);
        }
        let needed: usize = Page::leaf_entry_size(&row);
        if needed > MAX_LEAF_ENTRY_SIZE {
            return Err(SchemaError::RowTooLong(needed));
        }
        assert(view[0] == row.fields[0].deep_view());
        let key = match Key::try_from(&row.fields[0]) {
            Ok(k) => k,
            Err(_) => return Err(SchemaError::InvalidKey),
        };
        let key_needed: usize = Page::internal_entry_size(&key);
        if key_needed > MAX_INTERNAL_ENTRY_SIZE {
            return Err(SchemaError::KeyTooLong(key_needed));
        }
        let mut i: usize = 0;
        while i < cols.len()
            invariant
                i <= cols.len() == view.len(),
                cols@ == self@,
                view == row.deep_view(),
                view.len() == row.fields.len(),
                first_field_fault(self@, view, i as int) is None,
                row_fault(self@, view) == first_field_fault(self@, view, self@.len() as int),
                forall|j: int| 0 <= j < i ==> RowValue::refusal(#[trigger] view[j]) is None,
            decreases cols.len() - i,
        {
            let value = &row.fields[i];
            assert(view[i as int] == value.deep_view());
            let fault: Option<SchemaError> = match value.column_type() {
                Some(c) => if c == cols[i].col_type {
                    let size: usize = value.encoded_size();
                    if size > MAX_FIELD_LEN {
                        Some(SchemaError::FieldTooLong(size))
                    } else {
                        None
                    }
                } else {
                    Some(SchemaError::TypeMismatch(i))
                },
                None => if cols[i].nullable {
                    None
                } else {
                    Some(SchemaError::NullValueInNonNullCol(i))
                },
            };
            if let Some(e) = fault {
                proof {
                    lemma_first_fault_stays(self@, view, i + 1, cols.len() as int);
                }
                return Err(e);
            }
            i += 1;
        }
        proof {
            lemma_list_accepted::<RowValue>(view);
        }
        Ok(ValidatedRow(row))
    }
}

} // verus!

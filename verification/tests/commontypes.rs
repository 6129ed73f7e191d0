use rust_db::bytes::{ByteReader, IoError};
use rust_db::commontypes::{
    FrameId, Key, KeyError, Lsn, LsnError, PageId, PageLsn, RecordId, SlotEntry, SlotIndex,
    TableId, TransactionId, PAGE_ID_SIZE, SLOT_ENTRY_SIZE,
};
use rust_db::schema::{RowValue, RowValueError};
use rust_db::text::Relation;
use rust_db::traits::Serializable;

fn encode<T: Serializable>(value: &T) -> Vec<u8>
where
    T::Error: std::fmt::Debug,
{
    let mut bytes = Vec::new();
    value.serialize(&mut bytes).unwrap();
    bytes
}

fn assert_roundtrip<T>(value: T)
where
    T: Serializable + PartialEq + std::fmt::Debug,
    T::Error: std::fmt::Debug,
{
    let mut bytes = encode(&value);
    let size = bytes.len();
    assert_eq!(size, value.encoded_size());
    for cut in 0..size {
        assert!(T::deserialize(&mut ByteReader::new(&bytes[..cut])).is_err());
    }
    bytes.extend_from_slice(&[7, 8, 9]);
    let mut reader = ByteReader::new(&bytes);
    assert_eq!(T::deserialize(&mut reader).unwrap(), value);
    assert_eq!(reader.rest(), &[7, 8, 9]);
}

#[test]
fn page_id_size_constant_is_accurate() {
    let mut buffer = Vec::with_capacity(PAGE_ID_SIZE);
    let tid = TableId::new(0);
    let pid = PageId::new(tid, 0);
    pid.serialize(&mut buffer).unwrap();
    assert_eq!(PAGE_ID_SIZE, buffer.len());
}

#[test]
fn slot_entry_size_constant_is_accurate() {
    let mut buffer = Vec::with_capacity(SLOT_ENTRY_SIZE);
    let se = SlotEntry::new(0, 0);
    se.serialize(&mut buffer).unwrap();
    assert_eq!(SLOT_ENTRY_SIZE, buffer.len());
}

#[test]
fn zero_lsns_trigger_errors() {
    let result = Lsn::new(0);
    assert!(matches!(result, Err(LsnError::ZeroLsn)))
}

#[test]
fn null_and_float_keys_trigger_errors() {
    let null_result = Key::try_from(&RowValue::Null);
    let float_result = Key::try_from(&RowValue::Float(10.0f64.to_bits()));

    assert!(matches!(null_result, Err(KeyError::NullKey)));
    assert!(matches!(float_result, Err(KeyError::NotOrderable)));
}

#[test]
fn bool_keys_trigger_errors() {
    let result = Key::try_from(&RowValue::Boolean(true));
    assert!(matches!(result, Err(KeyError::BoolKey)));
}

#[test]
fn key_encoded_sizes() {
    for key in [
        Key::Integer(i64::MIN),
        Key::Integer(0),
        Key::String(String::new()),
        Key::String("h\u{e9}llo".to_string()),
        Key::String("x".repeat(127)),
        Key::String("x".repeat(128)),
        Key::String("x".repeat(1000)),
    ] {
        assert_eq!(key.encoded_size(), encode(&key).len());
    }
    assert_eq!(Key::String("x".repeat(127)).encoded_size(), 129);
    assert_eq!(Key::String("x".repeat(128)).encoded_size(), 131);
    assert_eq!(Key::String("x".repeat(16384)).encoded_size(), 16388);
}

#[test]
fn basic_types_roundtrip() {
    assert_roundtrip(TableId::new(0xdead_beef));
    assert_roundtrip(SlotIndex::new(0xabcd));
    assert_roundtrip(TransactionId::new(u64::MAX));
    assert_roundtrip(PageId::new(TableId::new(1), u32::MAX));
    assert_roundtrip(SlotEntry::new(1, 0xffff));
    assert_roundtrip(Lsn::new(u64::MAX).unwrap());
    assert_roundtrip(PageLsn(None));
    assert_roundtrip(PageLsn(Some(Lsn::new(3).unwrap())));
    assert_roundtrip(Some(PageId::new(TableId::new(1), 2)));
    assert_roundtrip(None::<PageId>);
    assert_roundtrip(Some(Some(TableId::new(9))));
    assert_roundtrip(Some(Lsn::new(3).unwrap()));
    assert_roundtrip(Key::Integer(-5));
    assert_roundtrip(Key::String("h\u{e9}llo".to_string()));
}

#[test]
fn integers_are_big_endian() {
    assert_eq!(encode(&TableId::new(0x0102_0304)), [1, 2, 3, 4]);
    assert_eq!(encode(&SlotIndex::new(258)), [1, 2]);
    assert_eq!(
        encode(&PageId::new(TableId::new(1), 2)),
        [0, 0, 0, 1, 0, 0, 0, 2]
    );
    assert_eq!(encode(&SlotEntry::new(0x0f01, 3)), [0x0f, 1, 0, 3]);
    assert_eq!(encode(&PageLsn(None)), [0u8; 8]);
    assert_eq!(encode(&Key::Integer(-2)), [1, 255, 255, 255, 255, 255, 255, 255, 254]);
}

#[test]
fn option_tags() {
    assert_eq!(encode(&None::<TableId>), [0]);
    assert_eq!(encode(&Some(TableId::new(5))), [1, 0, 0, 0, 5]);
    let bytes = [2u8, 0, 0, 0, 5];
    let result = Option::<TableId>::deserialize(&mut ByteReader::new(&bytes));
    assert_eq!(result, Err(IoError::InvalidData));
    let result = Option::<TableId>::deserialize(&mut ByteReader::new(&[]));
    assert_eq!(result, Err(IoError::UnexpectedEof));
    let result = Option::<Lsn>::deserialize(&mut ByteReader::new(&[9]));
    assert_eq!(result, Err(LsnError::IoError(IoError::InvalidData)));
}

#[test]
fn zero_lsns_are_refused_on_reading() {
    let zeros = [0u8; 8];
    assert_eq!(Lsn::deserialize(&mut ByteReader::new(&zeros)), Err(LsnError::ZeroLsn));
    assert_eq!(
        Lsn::deserialize(&mut ByteReader::new(&zeros[1..])),
        Err(LsnError::IoError(IoError::UnexpectedEof))
    );
    assert_eq!(PageLsn::deserialize(&mut ByteReader::new(&zeros)), Ok(PageLsn(None)));
    assert!(Lsn::try_from(0u64).is_err());
    assert_eq!(u64::from(Lsn::try_from(7u64).unwrap()), 7);
    assert_eq!(Lsn::new(7).unwrap().get(), 7);
}

#[test]
fn a_zero_lsn_is_taken_when_it_is_refused() {
    let mut reader = ByteReader::new(&[0, 0, 0, 0, 0, 0, 0, 0, 5]);
    assert!(Lsn::deserialize(&mut reader).is_err());
    assert_eq!(reader.rest(), &[5]);
}

#[test]
fn keys_that_are_no_keys_are_refused_on_reading() {
    assert_eq!(
        Key::deserialize(&mut ByteReader::new(&[0])),
        Err(KeyError::NullKey)
    );
    assert_eq!(
        Key::deserialize(&mut ByteReader::new(&[4, 1])),
        Err(KeyError::BoolKey)
    );
    assert_eq!(
        Key::deserialize(&mut ByteReader::new(&[2, 0, 0, 0, 0, 0, 0, 0, 0])),
        Err(KeyError::NotOrderable)
    );
    assert_eq!(
        Key::deserialize(&mut ByteReader::new(&[9])),
        Err(KeyError::RowValue(RowValueError::UnknownTag(9)))
    );
}

#[test]
fn identifiers_convert() {
    assert_eq!(TableId::from(3u32).get(), 3);
    assert_eq!(u32::from(TableId::new(4)), 4);
    assert_eq!(FrameId::from(3usize).get(), 3);
    assert_eq!(usize::from(FrameId::new(4)), 4);
    assert_eq!(u16::from(SlotIndex::from(5u16)), 5);
    assert_eq!(u64::from(TransactionId::from(6u64)), 6);
    let page_id = PageId::new(TableId::new(1), 2);
    assert_eq!(page_id.get_table_id(), TableId::new(1));
    assert_eq!(page_id.get_page_num(), 2);
    let record_id = RecordId::new(page_id, SlotIndex::new(3));
    assert_eq!(record_id.get_page_id(), page_id);
    assert_eq!(record_id.get_slot_index(), SlotIndex::new(3));
    assert_eq!(RowValue::from(Key::Integer(3)), RowValue::Integer(3));
    assert_eq!(Key::try_from(&RowValue::from(Key::Integer(3))), Ok(Key::Integer(3)));
    assert_eq!(
        RowValue::from(Key::String("k".to_string())),
        RowValue::String("k".to_string())
    );
}

#[test]
fn identifiers_print() {
    let page_id = PageId::new(TableId::new(12), 0);
    assert_eq!(page_id.to_string(), "12:0");
    assert_eq!(RecordId::new(page_id, SlotIndex::new(345)).to_string(), "12:0:345");
    assert_eq!(TableId::new(u32::MAX).to_string(), "4294967295");
    assert_eq!(FrameId::new(10).to_string(), "10");
    assert_eq!(SlotIndex::new(9).to_string(), "9");
    assert_eq!(TransactionId::new(u64::MAX).to_string(), "18446744073709551615");
    assert_eq!(Lsn::new(100).unwrap().to_string(), "100");
}

#[test]
fn slot_ranges() {
    let range = SlotEntry::new(4000, 65000).range();
    assert_eq!(range, 4000..69000);
}

#[test]
fn keys_are_ordered_as_their_derived_order_says() {
    let keys = [
        Key::Integer(i64::MIN),
        Key::Integer(-1),
        Key::Integer(0),
        Key::Integer(7),
        Key::String(String::new()),
        Key::String("a".to_string()),
        Key::String("aa".to_string()),
        Key::String("b".to_string()),
        Key::String("z\u{e9}".to_string()),
        Key::String("\u{e9}".to_string()),
        Key::String("\u{1f600}".to_string()),
    ];
    for a in &keys {
        for b in &keys {
            let expected = match a.cmp(b) {
                std::cmp::Ordering::Less => Relation::Less,
                std::cmp::Ordering::Equal => Relation::Equal,
                std::cmp::Ordering::Greater => Relation::Greater,
            };
            assert_eq!(a.relation(b), expected);
        }
    }
}

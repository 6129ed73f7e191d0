use rust_db::bytes::{ByteReader, IoError};
use rust_db::commontypes::{Key, PAGE_ID_SIZE, SLOT_ENTRY_SIZE};
use rust_db::page::{MAX_INTERNAL_ENTRY_SIZE, MAX_LEAF_ENTRY_SIZE};
use rust_db::schema::{
    Column, ColumnType, Row, RowError, RowValue, RowValueError, Schema, SchemaError, BOOL_FLAG,
    FLOAT_FLAG, INT_FLAG, MAX_FIELD_LEN, MAX_NUM_FIELDS, NULL_FLAG, STRING_FLAG,
};
use rust_db::traits::Serializable;

fn float(f: f64) -> RowValue {
    RowValue::Float(f.to_bits())
}

fn text(s: &str) -> RowValue {
    RowValue::String(s.to_string())
}

fn encode<T: Serializable>(value: &T) -> Vec<u8>
where
    T::Error: std::fmt::Debug,
{
    let mut bytes = Vec::new();
    value.serialize(&mut bytes).unwrap();
    bytes
}

fn decode(bytes: &[u8]) -> Result<RowValue, RowValueError> {
    RowValue::deserialize(&mut ByteReader::new(bytes))
}

fn sample_values() -> Vec<RowValue> {
    vec![
        RowValue::Integer(i64::MIN),
        RowValue::Integer(-1),
        RowValue::Integer(42),
        float(0.0),
        float(-1.5e300),
        text(""),
        text("hello"),
        text("h\u{e9}\u{1f600}"),
        RowValue::String("a".repeat(127)),
        RowValue::String("a".repeat(128)),
        RowValue::String("a".repeat(MAX_FIELD_LEN - 3)),
        RowValue::Boolean(true),
        RowValue::Boolean(false),
        RowValue::Null,
    ]
}

fn sample_rows() -> Vec<Row> {
    vec![
        Row { fields: vec![] },
        Row { fields: vec![RowValue::Integer(1)] },
        Row { fields: sample_values() },
        Row { fields: vec![RowValue::Null; MAX_NUM_FIELDS] },
    ]
}

#[test]
fn too_big_row_triggers_error_on_validation() {
    let schema = Schema::try_from(vec![Column::string(), Column::nullable_string()]).unwrap();
    let row = Row::try_from(vec![
        RowValue::String("a".repeat(MAX_LEAF_ENTRY_SIZE)),
        RowValue::Null,
    ])
    .unwrap();
    let result = schema.validate_row(row);

    assert!(matches!(result, Err(SchemaError::RowTooLong(_))));
}

#[test]
fn too_big_key_triggers_error_on_validation() {
    // this should be the largest value that is valid
    let test_boundary = MAX_INTERNAL_ENTRY_SIZE - PAGE_ID_SIZE - SLOT_ENTRY_SIZE - 1 - 2;

    let schema = Schema::try_from(vec![Column::string(), Column::nullable_string()]).unwrap();
    let row = Row::try_from(vec![
        RowValue::String("a".repeat(test_boundary + 1)),
        RowValue::Null,
    ])
    .unwrap();
    let result = schema.validate_row(row);

    assert!(matches!(result, Err(SchemaError::KeyTooLong(_))));

    let row = Row::try_from(vec![
        RowValue::String("a".repeat(test_boundary)),
        RowValue::Null,
    ])
    .unwrap();
    let result = schema.validate_row(row);

    assert!(result.is_ok());
}

#[test]
fn too_many_row_entries_triggers_error() {
    let mut fields = Vec::new();
    for _ in 0..MAX_NUM_FIELDS + 1 {
        fields.push(RowValue::Null);
    }
    let row = Row { fields };
    let mut bytes = Vec::new();
    let ser_result = row.serialize(&mut bytes);

    assert!(ser_result.is_err());
    assert!(matches!(
        ser_result.unwrap_err(),
        RowValueError::TooManyFields(256)
    ));
}

#[test]
fn row_generation_errors_work() {
    // Null first entries will be rejected
    let mut fields = vec![
        RowValue::Null,
        RowValue::Integer(5),
        RowValue::Boolean(true),
    ];
    assert!(matches!(
        Row::try_from(fields.clone()),
        Err(RowError::InvalidFirstEntry)
    ));

    // Float first entries will be rejected
    fields.remove(0);
    fields.insert(0, float(0.0));
    assert!(matches!(
        Row::try_from(fields.clone()),
        Err(RowError::InvalidFirstEntry)
    ));

    // Bool first entries will be rejected
    fields.remove(0);
    fields.insert(0, RowValue::Boolean(true));
    assert!(matches!(
        Row::try_from(fields),
        Err(RowError::InvalidFirstEntry)
    ));

    // Empty vectors will be rejected
    assert!(matches!(Row::try_from(Vec::new()), Err(RowError::EmptyRow)));
}

#[test]
fn too_long_field_triggers_error() {
    let row = Row {
        fields: vec![RowValue::String("a".repeat(MAX_FIELD_LEN + 1))],
    };
    let mut bytes = Vec::new();
    let ser_result = row.serialize(&mut bytes);

    assert!(ser_result.is_err());
    assert!(matches!(
        ser_result.unwrap_err(),
        RowValueError::FieldTooLong(_)
    ));
}

#[test]
fn valid_rows_pass_validation() {
    let schema = Schema::try_from(vec![
        Column::integer(),
        Column::nullable_string(),
        Column::nullable_float(),
        Column::bool(),
    ])
    .unwrap();

    let all_present = Row {
        fields: vec![
            RowValue::Integer(1),
            RowValue::String("hello".to_string()),
            float(1.5),
            RowValue::Boolean(true),
        ],
    };
    assert!(schema.validate_row(all_present).is_ok());

    // NULL is fine in nullable columns
    let with_nulls = Row {
        fields: vec![
            RowValue::Integer(2),
            RowValue::Null,
            RowValue::Null,
            RowValue::Boolean(true),
        ],
    };
    assert!(schema.validate_row(with_nulls).is_ok());
}

#[test]
fn invalid_rows_fail_validation() {
    let schema = Schema::try_from(vec![
        Column::integer(),
        Column::nullable_string(),
        Column::bool(),
    ])
    .unwrap();

    let wrong_type = Row {
        fields: vec![
            RowValue::Integer(1),
            float(1.5),
            RowValue::Boolean(false),
        ],
    };
    assert!(matches!(
        schema.validate_row(wrong_type),
        Err(SchemaError::TypeMismatch(1))
    ));

    let null_key = Row {
        fields: vec![
            RowValue::Null,
            RowValue::String("x".to_string()),
            RowValue::Boolean(true),
        ],
    };
    assert!(matches!(
        schema.validate_row(null_key),
        Err(SchemaError::InvalidKey)
    ));

    let null_in_non_null = Row {
        fields: vec![
            RowValue::Integer(10),
            RowValue::String("x".to_string()),
            RowValue::Null,
        ],
    };
    assert!(matches!(
        schema.validate_row(null_in_non_null),
        Err(SchemaError::NullValueInNonNullCol(2))
    ));

    let too_short = Row {
        fields: vec![RowValue::Integer(1)],
    };
    assert!(matches!(
        schema.validate_row(too_short),
        Err(SchemaError::ColumnCountMismatch)
    ));
}

#[test]
fn schemas_cant_have_nullable_primary_keys() {
    let schema_result = Schema::try_from(vec![
        Column::nullable_integer(),
        Column::string(),
        Column::nullable_float(),
    ]);
    assert!(matches!(
        schema_result,
        Err(SchemaError::NullablePrimaryKey)
    ));
}

#[test]
fn schemas_cant_have_invalidkey_primary_keys() {
    // Floats can't be primary keys
    let schema_result = Schema::try_from(vec![
        Column::float(),
        Column::string(),
        Column::nullable_float(),
    ]);
    assert!(matches!(schema_result, Err(SchemaError::NonOrdPrimaryKey)));

    // Bools can't be primary keys
    let schema_result = Schema::try_from(vec![
        Column::bool(),
        Column::string(),
        Column::nullable_float(),
    ]);
    assert!(matches!(schema_result, Err(SchemaError::NonOrdPrimaryKey)));
}

#[test]
fn schemas_fail_with_too_many_columns() {
    let cols: Vec<Column> = (0..MAX_NUM_FIELDS + 1).map(|_| Column::integer()).collect();
    let schema_result = Schema::try_from(cols);
    assert!(matches!(schema_result, Err(SchemaError::TooManyColumns)));
}

#[test]
fn schemas_fail_with_no_columns() {
    let schema_result = Schema::try_from(vec![]);
    assert!(matches!(schema_result, Err(SchemaError::EmptyColumns)));
}

#[test]
fn schemas_keep_their_columns() {
    let cols: Vec<Column> = (0..MAX_NUM_FIELDS).map(|_| Column::string()).collect();
    let schema = Schema::try_from(cols.clone()).unwrap();
    assert_eq!(schema.columns(), &cols);
    assert_eq!(schema.clone().columns(), &cols);
    assert!(ColumnType::Integer.is_valid_key());
    assert!(ColumnType::String.is_valid_key());
    assert!(!ColumnType::Float.is_valid_key());
    assert!(!ColumnType::Bool.is_valid_key());
    assert_eq!(Column::nullable_bool(), Column { col_type: ColumnType::Bool, nullable: true });
    assert_eq!(Column::bool(), Column { col_type: ColumnType::Bool, nullable: false });
}

#[test]
fn validation_gives_the_exact_sizes() {
    let schema = Schema::try_from(vec![Column::string(), Column::string()]).unwrap();
    let row = |a: usize, b: usize| Row {
        fields: vec![
            RowValue::String("k".repeat(a)),
            RowValue::String("v".repeat(b)),
        ],
    };
    // one count byte, two strings with a tag and a length each, and a slot
    let fixed = 1 + 2 + 3 + SLOT_ENTRY_SIZE;
    let most = MAX_LEAF_ENTRY_SIZE - fixed - 1;
    assert!(schema.validate_row(row(1, most)).is_ok());
    assert_eq!(
        schema.validate_row(row(1, most + 1)).unwrap_err(),
        SchemaError::RowTooLong(MAX_LEAF_ENTRY_SIZE + 1)
    );
    let schema = Schema::try_from(vec![Column::string()]).unwrap();
    let longest = MAX_INTERNAL_ENTRY_SIZE - PAGE_ID_SIZE - SLOT_ENTRY_SIZE - 3;
    let key_only = |n: usize| Row { fields: vec![RowValue::String("k".repeat(n))] };
    assert!(schema.validate_row(key_only(longest)).is_ok());
    assert_eq!(
        schema.validate_row(key_only(longest + 1)).unwrap_err(),
        SchemaError::KeyTooLong(MAX_INTERNAL_ENTRY_SIZE + 1)
    );
}

#[test]
fn primary_key_returns_key() {
    let schema = Schema::try_from(vec![Column::string(), Column::bool()]).unwrap();
    let row = Row { fields: vec![text("name"), RowValue::Boolean(false)] };
    let validated = schema.validate_row(row.clone()).unwrap();
    assert_eq!(validated.primary_key(), Key::String("name".to_string()));
    assert_eq!(Row::from(validated.clone()), row);
    assert_eq!(validated.into_inner(), row);
    let schema = Schema::try_from(vec![Column::integer()]).unwrap();
    let row = Row { fields: vec![RowValue::Integer(-3)] };
    assert_eq!(schema.validate_row(row).unwrap().primary_key(), Key::Integer(-3));
}

#[test]
fn encoded_sizes() {
    for value in sample_values() {
        assert_eq!(value.encoded_size(), encode(&value).len());
    }
    assert_eq!(RowValue::Integer(0).encoded_size(), 9);
    assert_eq!(float(0.0).encoded_size(), 9);
    assert_eq!(RowValue::Boolean(true).encoded_size(), 2);
    assert_eq!(RowValue::Null.encoded_size(), 1);
    assert_eq!(text("abc").encoded_size(), 5);
    assert_eq!(RowValue::String("a".repeat(200)).encoded_size(), 203);
}

#[test]
fn encoded_row_sizes() {
    for row in sample_rows() {
        assert_eq!(row.encoded_size(), encode(&row).len());
    }
    assert_eq!(Row { fields: vec![text("abc"), RowValue::Null] }.encoded_size(), 7);
}

#[test]
fn roundtrip_basic() {
    for row in sample_rows() {
        let mut bytes = encode(&row);
        bytes.push(99);
        let mut reader = ByteReader::new(&bytes);
        assert_eq!(Row::deserialize(&mut reader).unwrap(), row);
        assert_eq!(reader.rest(), &[99]);
    }
}

#[test]
fn truncated_values_return_errors() {
    for value in sample_values() {
        let bytes = encode(&value);
        for cut in 0..bytes.len() {
            assert!(decode(&bytes[..cut]).is_err());
        }
    }
    for row in sample_rows() {
        let bytes = encode(&row);
        for cut in 0..bytes.len() {
            assert!(Row::deserialize(&mut ByteReader::new(&bytes[..cut])).is_err());
        }
    }
}

#[test]
fn encodings_are_exact() {
    assert_eq!(encode(&RowValue::Integer(258)), [1, 0, 0, 0, 0, 0, 0, 1, 2]);
    assert_eq!(encode(&RowValue::Integer(-1)), [1, 255, 255, 255, 255, 255, 255, 255, 255]);
    assert_eq!(encode(&float(1.0)), [2, 0x3f, 0xf0, 0, 0, 0, 0, 0, 0]);
    assert_eq!(encode(&text("hi")), [3, 2, b'h', b'i']);
    assert_eq!(encode(&RowValue::Boolean(true)), [4, 1]);
    assert_eq!(encode(&RowValue::Boolean(false)), [4, 0]);
    assert_eq!(encode(&RowValue::Null), [0]);
    let long = encode(&RowValue::String("a".repeat(300)));
    assert_eq!(long[..3], [3, 0xac, 2]);
    assert_eq!(long.len(), 303);
    let row = Row { fields: vec![RowValue::Null, RowValue::Boolean(true)] };
    assert_eq!(encode(&row), [2, 0, 4, 1]);
    assert_eq!(decode(&encode(&float(-0.5))).unwrap(), float(-0.5));
}

#[test]
fn a_field_that_is_too_long_stops_the_row() {
    let most = MAX_FIELD_LEN - 3;
    let fits = RowValue::String("a".repeat(most));
    assert!(fits.serialize(&mut Vec::new()).is_ok());
    let row = Row {
        fields: vec![
            RowValue::Null,
            RowValue::String("a".repeat(most + 1)),
            RowValue::Boolean(true),
        ],
    };
    let mut bytes = vec![];
    assert_eq!(
        row.serialize(&mut bytes),
        Err(RowValueError::FieldTooLong(MAX_FIELD_LEN + 1))
    );
    assert_eq!(bytes, [3, 0, 3]);
}

#[test]
fn tags_and_types() {
    let cases = [
        (RowValue::Integer(1), INT_FLAG, Some(ColumnType::Integer)),
        (float(1.0), FLOAT_FLAG, Some(ColumnType::Float)),
        (text("x"), STRING_FLAG, Some(ColumnType::String)),
        (RowValue::Boolean(true), BOOL_FLAG, Some(ColumnType::Bool)),
        (RowValue::Null, NULL_FLAG, None),
    ];
    for (value, tag, column_type) in cases {
        assert_eq!(value.get_tag(), tag);
        assert_eq!(value.column_type(), column_type);
    }
}

#[test]
fn invalid_tags_trigger_error() {
    for tag in 5u8..=255 {
        let mut bytes = vec![0u8; 9];
        bytes[0] = tag;
        assert_eq!(decode(&bytes), Err(RowValueError::UnknownTag(tag)));
    }
}

#[test]
fn bad_bytes_trigger_errors() {
    assert_eq!(decode(&[]), Err(RowValueError::IoError(IoError::UnexpectedEof)));
    assert_eq!(decode(&[4, 2]), Err(RowValueError::InvalidBool(2)));
    assert_eq!(decode(&[3, 1, 0xff]), Err(RowValueError::Utf8Error));
    // a surrogate and an overlong encoding
    assert_eq!(decode(&[3, 3, 0xed, 0xa0, 0x80]), Err(RowValueError::Utf8Error));
    assert_eq!(decode(&[3, 2, 0xc0, 0x80]), Err(RowValueError::Utf8Error));
    // a length over the limit, whatever follows
    assert_eq!(decode(&[3, 0x80, 0x80, 1]), Err(RowValueError::FieldTooLong(16384)));
    // a length in more bytes than it needs
    assert_eq!(decode(&[3, 0x81, 0, b'a']), Ok(text("a")));
    // a length that never ends, in a short and in a long input
    assert_eq!(
        decode(&[3, 0x80, 0x80]),
        Err(RowValueError::IoError(IoError::UnexpectedEof))
    );
    let mut endless = vec![0x80u8; 12];
    endless[0] = 3;
    assert_eq!(
        decode(&endless),
        Err(RowValueError::IoError(IoError::InvalidData))
    );
    // a length of more than 64 bits
    let mut huge = vec![0xffu8; 11];
    huge[0] = 3;
    huge[10] = 2;
    assert_eq!(
        decode(&huge),
        Err(RowValueError::IoError(IoError::UnexpectedEof))
    );
    huge[10] = 1;
    assert_eq!(decode(&huge), Err(RowValueError::FieldTooLong(usize::MAX)));
}

/// The bytes of a string of `len` letters, as if any length could be written.
fn text_bytes(len: usize) -> Vec<u8> {
    let mut bytes = vec![STRING_FLAG, (len % 128 + 128) as u8, (len / 128) as u8];
    bytes.extend(std::iter::repeat(b'a').take(len));
    bytes
}

#[test]
fn reading_and_writing_share_one_limit() {
    for len in MAX_FIELD_LEN - 10..MAX_FIELD_LEN + 10 {
        let read = decode(&text_bytes(len));
        if len <= MAX_FIELD_LEN - 3 {
            let value = read.unwrap();
            assert_eq!(value.encoded_size(), len + 3);
            assert_eq!(encode(&value), text_bytes(len));
        } else {
            assert_eq!(read, Err(RowValueError::FieldTooLong(len)));
            let value = RowValue::String("a".repeat(len));
            assert_eq!(
                value.serialize(&mut Vec::new()),
                Err(RowValueError::FieldTooLong(len + 3))
            );
        }
        let mut row = vec![1];
        row.extend(text_bytes(len));
        let row = Row::deserialize(&mut ByteReader::new(&row));
        let key = text_bytes(len);
        let key = Key::deserialize(&mut ByteReader::new(&key));
        assert_eq!(row.is_ok(), len <= MAX_FIELD_LEN - 3);
        assert_eq!(key.is_ok(), len <= MAX_FIELD_LEN - 3);
        if let (Ok(row), Ok(key)) = (row, key) {
            assert!(row.serialize(&mut Vec::new()).is_ok());
            assert!(key.serialize(&mut Vec::new()).is_ok());
        }
    }
}

fn left_after_failure<T: Serializable>(bytes: &[u8]) -> usize {
    let mut reader = ByteReader::new(bytes);
    assert!(T::deserialize(&mut reader).is_err());
    reader.rest().len()
}

#[test]
fn failed_reads_take_a_fixed_part() {
    // an unknown tag, and a boolean that is none
    assert_eq!(left_after_failure::<RowValue>(&[9, 1, 2, 3]), 3);
    assert_eq!(left_after_failure::<RowValue>(&[4, 2, 7, 7, 7]), 3);
    // a length over the limit, one that does not fit, and one that never ends
    assert_eq!(left_after_failure::<RowValue>(&[3, 0x80, 0x80, 1, 5, 5]), 2);
    let mut huge = vec![0xffu8; 14];
    huge[0] = 3;
    huge[10] = 2;
    assert_eq!(left_after_failure::<RowValue>(&huge), 3);
    let mut endless = vec![0x80u8; 15];
    endless[0] = 3;
    assert_eq!(left_after_failure::<RowValue>(&endless), 3);
    // text that is not UTF-8
    assert_eq!(left_after_failure::<RowValue>(&[3, 2, 0xc0, 0x80, 1, 1, 1]), 3);
    // a row up to the field that fails
    assert_eq!(left_after_failure::<Row>(&[3, 0, 4, 1, 9, 6, 6]), 2);
    // values that are no keys
    assert_eq!(left_after_failure::<Key>(&[0, 8, 8]), 2);
    assert_eq!(left_after_failure::<Key>(&[4, 1, 8, 8, 8]), 3);
    assert_eq!(left_after_failure::<Key>(&[4, 5, 8, 8, 8]), 3);
    // optional values
    assert_eq!(left_after_failure::<Option<Key>>(&[2, 0, 8]), 2);
    assert_eq!(left_after_failure::<Option<Key>>(&[1, 0, 8]), 1);
}

#[test]
fn floats_are_equal_as_numbers() {
    assert_eq!(float(0.0), float(-0.0));
    assert_eq!(float(f64::INFINITY), float(f64::INFINITY));
    assert_ne!(float(f64::INFINITY), float(f64::NEG_INFINITY));
    assert_ne!(float(f64::NAN), float(f64::NAN));
    assert_ne!(float(-f64::NAN), float(-f64::NAN));
    for a in [0.0, -0.0, 1.0, -1.0, f64::MAX, f64::MIN_POSITIVE, f64::NAN, 5e-324] {
        for b in [0.0, -0.0, 1.0, -1.0, f64::MAX, f64::MIN_POSITIVE, f64::NAN, -5e-324] {
            assert_eq!(float(a) == float(b), a == b);
        }
    }
    assert_ne!(float(1.0), RowValue::Integer(1.0f64.to_bits() as i64));
    assert_ne!(text("a"), text("b"));
    assert_eq!(text("a"), text("a"));
    assert_eq!(RowValue::Null, RowValue::Null);
    assert_ne!(RowValue::Boolean(true), RowValue::Boolean(false));
}

#[test]
fn cmp_key_matches_key_ord() {
    let keys = [
        Key::Integer(-1),
        Key::Integer(5),
        Key::String("a".to_string()),
        Key::String("ab".to_string()),
        Key::String("\u{e9}".to_string()),
    ];
    for a in &keys {
        let row = Row { fields: vec![RowValue::from(a.clone()), RowValue::Null] };
        for b in &keys {
            assert_eq!(row.cmp_key(b), a.cmp(b));
        }
    }
}

#[test]
fn cmp_key_equal_to_own_key() {
    let row = Row { fields: vec![text("own")] };
    let key = Key::try_from(&row.fields[0]).unwrap();
    assert_eq!(row.cmp_key(&key), std::cmp::Ordering::Equal);
}

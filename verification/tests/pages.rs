use rust_db::bytes::{ByteReader, IoError};
use rust_db::commontypes::{
    Key, KeyError, Lsn, LsnError, PageId, PageLsn, TableId, PAGE_ID_SIZE, SLOT_ENTRY_SIZE,
};
use rust_db::layout::PageWriter;
use rust_db::page::{
    Page, PageBody, PageError, INTERNAL_TAG, LEAF_TAG, MAX_INTERNAL_ENTRY_SIZE,
    MAX_INTERNAL_HEADER_SIZE, MAX_LEAF_ENTRY_SIZE, MAX_LEAF_HEADER_SIZE, PAGE_SIZE,
};
use rust_db::schema::{Column, Row, RowValue, RowValueError, Schema, ValidatedRow};
use rust_db::traits::Serializable;
use std::cmp::Ordering;
use std::collections::BTreeMap;

/// A small linear congruential generator: the same pages in every run.
struct Dice(u64);

impl Dice {
    fn roll(&mut self) -> u64 {
        self.0 = self
            .0
            .wrapping_mul(6364136223846793005)
            .wrapping_add(1442695040888963407);
        self.0 >> 33
    }

    fn below(&mut self, n: usize) -> usize {
        self.roll() as usize % n
    }

    fn coin(&mut self) -> bool {
        self.below(2) == 0
    }

    fn text(&mut self) -> String {
        let letters = ['a', 'b', 'z', '\u{e9}', '\u{4e2d}', '\u{1f600}', ' '];
        let len = self.below(12);
        (0..len).map(|_| letters[self.below(letters.len())]).collect()
    }

    fn page_id(&mut self) -> PageId {
        PageId::new(TableId::new(self.roll() as u32), self.roll() as u32)
    }

    fn link(&mut self) -> Option<PageId> {
        if self.coin() {
            Some(self.page_id())
        } else {
            None
        }
    }

    fn key(&mut self) -> Key {
        if self.coin() {
            Key::Integer(self.roll() as i64 - (1 << 30))
        } else {
            Key::String(self.text())
        }
    }

    fn value(&mut self) -> RowValue {
        match self.below(5) {
            0 => RowValue::Integer(self.roll() as i64),
            1 => RowValue::Float((self.roll() as f64 / 7.0).to_bits()),
            2 => RowValue::String(self.text()),
            3 => RowValue::Boolean(self.coin()),
            _ => RowValue::Null,
        }
    }

    fn row(&mut self) -> Row {
        let mut fields = vec![RowValue::from(self.key())];
        for _ in 0..self.below(8) {
            fields.push(self.value());
        }
        Row { fields }
    }

    fn leaf(&mut self) -> Page {
        let mut rows = BTreeMap::new();
        for _ in 0..self.below(25) {
            let row = self.row();
            rows.insert(row_key(&row), row);
        }
        Page {
            page_id: self.page_id(),
            last_update: PageLsn(if self.coin() {
                Some(Lsn::new(self.roll() + 1).unwrap())
            } else {
                None
            }),
            parent: self.link(),
            body: PageBody::Leaf {
                records: rows.into_values().collect(),
                next: self.link(),
                prev: self.link(),
            },
        }
    }

    fn internal(&mut self) -> Page {
        let mut keys: Vec<Key> = (0..self.below(40)).map(|_| self.key()).collect();
        keys.sort();
        keys.dedup();
        let children = (0..keys.len() + 1).map(|_| self.page_id()).collect();
        Page {
            page_id: self.page_id(),
            last_update: PageLsn(None),
            parent: self.link(),
            body: PageBody::Internal { keys, children },
        }
    }

    fn page(&mut self) -> Page {
        loop {
            let page = if self.coin() { self.leaf() } else { self.internal() };
            if page.free_space().is_some() {
                return page;
            }
        }
    }
}

fn row_key(row: &Row) -> Key {
    Key::try_from(&row.fields[0]).unwrap()
}

fn child(n: u32) -> PageId {
    PageId::new(TableId::new(1), n)
}

fn new_id() -> PageId {
    PageId::new(TableId::new(u32::MAX), u32::MAX)
}

/// Fixed-width key prefix so string keys sort by their index regardless of padding.
fn padded_key(index: usize, total_len: usize) -> Key {
    let prefix = format!("{index:06}");
    Key::String(format!(
        "{prefix}{}",
        "x".repeat(total_len.saturating_sub(prefix.len()))
    ))
}

fn max_internal_len() -> usize {
    (0..MAX_INTERNAL_ENTRY_SIZE)
        .rev()
        .find(|&len| Page::internal_entry_size(&padded_key(0, len)) <= MAX_INTERNAL_ENTRY_SIZE)
        .unwrap()
}

/// Two-column schema (integer key + string payload) and the largest payload that still validates.
fn leaf_schema() -> (Schema, usize) {
    let schema = Schema::try_from(vec![Column::integer(), Column::string()]).unwrap();
    let row_with = |key: i64, len: usize| Row {
        fields: vec![RowValue::Integer(key), RowValue::String("p".repeat(len))],
    };
    let max_payload = (0..MAX_LEAF_ENTRY_SIZE)
        .rev()
        .find(|&len| schema.validate_row(row_with(0, len)).is_ok())
        .expect("some payload must validate");
    (schema, max_payload)
}

fn make_row(schema: &Schema, key: i64, len: usize) -> ValidatedRow {
    schema
        .validate_row(Row {
            fields: vec![RowValue::Integer(key), RowValue::String("p".repeat(len))],
        })
        .unwrap()
}

fn fill_internal(start_id: PageId, key_sizes: Vec<u16>) -> Page {
    let max_key_len = max_internal_len();
    let mut left = Page::empty_page(
        start_id,
        PageBody::Internal { keys: Vec::new(), children: vec![child(1)] },
    );
    for (i, size) in key_sizes.iter().cycle().enumerate() {
        let key = padded_key(i * 2, 6 + (*size as usize) % (max_key_len - 5));
        match left.internal_insert(key, child(i as u32 + 2)) {
            Ok(()) => {}
            Err(PageError::PageFull) => break,
            Err(e) => panic!("unexpected error while filling: {e:?}"),
        }
    }
    left
}

fn fill_leaf(page_id: PageId, payload_sizes: Vec<u16>) -> Page {
    let (schema, max_payload) = leaf_schema();
    let mut page = Page::empty_leaf(page_id);
    let mut count = 0i64;
    for len in payload_sizes.iter().cycle() {
        let len = *len as usize % (max_payload + 1);
        match page.insert(make_row(&schema, count * 10, len)) {
            Ok(()) => count += 1,
            Err(PageError::PageFull) => break,
            Err(e) => panic!("Unexpected error: {e:?}"),
        }
    }
    page
}

fn records_of(page: &Page) -> &Vec<Row> {
    match &page.body {
        PageBody::Leaf { records, .. } => records,
        PageBody::Internal { .. } => panic!("not a leaf"),
    }
}

fn keys_of(page: &Page) -> &Vec<Key> {
    match &page.body {
        PageBody::Internal { keys, .. } => keys,
        PageBody::Leaf { .. } => panic!("not an internal page"),
    }
}

fn assert_roundtrip(page: &Page) {
    let mut bytes = Vec::new();
    page.serialize(&mut bytes).unwrap();
    assert_eq!(bytes.len(), page.encoded_size());
    assert_eq!(bytes[..], page.as_raw_page().unwrap()[..]);
    bytes.push(1);
    let mut reader = ByteReader::new(&bytes);
    assert_eq!(&Page::deserialize(&mut reader).unwrap(), page);
    assert_eq!(reader.rest(), &[1]);
}

fn assert_unchanged(before: &Page, after: &Page) {
    assert_eq!(before.as_raw_page().unwrap(), after.as_raw_page().unwrap());
}

fn read(bytes: &[u8]) -> Result<Page, PageError> {
    Page::deserialize(&mut ByteReader::new(bytes))
}

fn size_mixes() -> Vec<Vec<u16>> {
    vec![
        vec![0],
        vec![1],
        vec![5000],
        vec![u16::MAX],
        vec![1, 1300],
        vec![1300, 1, 1, 1, 1, 1],
        vec![7, 333, 90, 1334, 12, 1000, 3],
        vec![1334, 1334, 10],
        vec![1335],
        vec![1338],
        vec![1337, 0, 0, 1337],
    ]
}

#[test]
fn basic_leaf_page_roundtrip() {
    let records: Vec<Row> = (1..=5)
        .map(|j: i64| Row {
            fields: (0..10)
                .map(|i: i64| match i % 4 {
                    0 => RowValue::Integer(i * j),
                    1 => RowValue::String(format!("{i}{j}")),
                    2 => RowValue::Float((i as f64 / j as f64).to_bits()),
                    3 => RowValue::Null,
                    _ => unreachable!(),
                })
                .collect(),
        })
        .collect();
    let lpage = Page {
        page_id: PageId::new(TableId::new(10), 10),
        last_update: PageLsn(Some(Lsn::new(10).unwrap())),
        parent: Some(PageId::new(TableId::new(1), 1)),
        body: PageBody::Leaf {
            records,
            next: Some(PageId::new(TableId::new(1), 3)),
            prev: None,
        },
    };
    let mut bytes = Vec::with_capacity(PAGE_SIZE);
    lpage.serialize(&mut bytes).unwrap();

    assert_eq!(bytes.len(), PAGE_SIZE);
    let deser = Page::deserialize(&mut ByteReader::new(&bytes)).unwrap();

    assert_eq!(deser, lpage);
}

#[test]
fn basic_internal_page_roundtrip() {
    let keys: Vec<Key> = (0..10).map(|i| Key::String(i.to_string())).collect();
    let children: Vec<PageId> = (0..11).map(|i| PageId::new(TableId::new(1), i)).collect();
    let ipage = Page {
        page_id: PageId::new(TableId::new(10), 10),
        last_update: PageLsn(Some(Lsn::new(10).unwrap())),
        parent: Some(PageId::new(TableId::new(1), 1)),
        body: PageBody::Internal { keys, children },
    };
    let mut bytes = Vec::with_capacity(PAGE_SIZE);
    ipage.serialize(&mut bytes).unwrap();

    assert_eq!(bytes.len(), PAGE_SIZE);
    let deser = Page::deserialize(&mut ByteReader::new(&bytes)).unwrap();

    assert_eq!(deser, ipage);
}

#[test]
fn page_quickcheck_roundtrip() {
    let mut dice = Dice(1);
    for _ in 0..300 {
        assert_roundtrip(&dice.page());
    }
    for sizes in size_mixes() {
        assert_roundtrip(&fill_leaf(child(9), sizes.clone()));
        assert_roundtrip(&fill_internal(child(9), sizes));
    }
}

#[test]
fn page_bytes_are_exact() {
    let page = Page {
        page_id: PageId::new(TableId::new(1), 2),
        last_update: PageLsn(Some(Lsn::new(3).unwrap())),
        parent: None,
        body: PageBody::Leaf {
            records: vec![
                Row { fields: vec![RowValue::Integer(5)] },
                Row { fields: vec![RowValue::Integer(6), RowValue::Null] },
            ],
            next: Some(PageId::new(TableId::new(1), 4)),
            prev: None,
        },
    };
    let raw = page.as_raw_page().unwrap();
    let front = [
        1, 0, 0, 0, 1, 0, 0, 0, 2, 0, 0, 0, 0, 0, 0, 0, 3, 0, 1, 0, 0, 0, 1, 0, 0, 0, 4, 0, 0, 2,
        // the slots: 10 bytes at 4086, and 11 bytes at 4075
        0x0f, 0xf6, 0, 10, 0x0f, 0xeb, 0, 11,
    ];
    let back = [
        2, 1, 0, 0, 0, 0, 0, 0, 0, 6, 0, 1, 1, 0, 0, 0, 0, 0, 0, 0, 5,
    ];
    assert_eq!(raw[..front.len()], front);
    assert!(raw[front.len()..PAGE_SIZE - back.len()].iter().all(|b| *b == 0));
    assert_eq!(raw[PAGE_SIZE - back.len()..], back);

    let page = Page::empty_page(
        PageId::new(TableId::new(1), 2),
        PageBody::Internal {
            keys: vec![Key::String("k".to_string())],
            children: vec![child(8), child(9)],
        },
    );
    let raw = page.as_raw_page().unwrap();
    let front = [
        2, 0, 0, 0, 1, 0, 0, 0, 2, 0, 0, 0, 0, 0, 0, 0, 0, 0, 0, 1, 0, 0, 0, 1, 0, 0, 0, 8, 0, 0,
        0, 1, 0, 0, 0, 9, 0x0f, 0xfd, 0, 3,
    ];
    assert_eq!(raw[..front.len()], front);
    assert_eq!(raw[PAGE_SIZE - 3..], [3, 1, b'k']);
}

#[test]
fn tags_and_counts() {
    let leaf = fill_leaf(child(1), vec![1300]);
    assert_eq!(leaf.page_type_tag(), LEAF_TAG);
    assert_eq!(leaf.num_items(), 3);
    let internal = fill_internal(child(1), vec![0]);
    assert_eq!(internal.page_type_tag(), INTERNAL_TAG);
    // each key takes 8 bytes, a slot and a child, beside the header and a child
    assert_eq!(internal.num_items(), (4096 - 28 - 8) / (8 + 4 + 8));
}

#[test]
fn entry_sizes_are_exact() {
    assert_eq!(MAX_LEAF_ENTRY_SIZE, 1350);
    assert_eq!(MAX_INTERNAL_ENTRY_SIZE, 1353);
    let row = Row { fields: vec![RowValue::Integer(1), RowValue::Null] };
    assert_eq!(Page::leaf_entry_size(&row), 1 + 9 + 1 + SLOT_ENTRY_SIZE);
    assert_eq!(
        Page::internal_entry_size(&Key::String("abc".to_string())),
        5 + SLOT_ENTRY_SIZE + PAGE_ID_SIZE
    );
    assert_eq!(Page::internal_entry_size(&Key::Integer(3)), 21);
}

#[test]
fn header_constant_is_right() {
    let mut dice = Dice(2);
    for _ in 0..100 {
        let mut page = dice.page();
        page.parent = Some(dice.page_id());
        if let PageBody::Leaf { next, prev, .. } = &mut page.body {
            *next = Some(child(1));
            *prev = Some(child(2));
        }
        let mut writer = PageWriter::new();
        page.write_header(&mut writer).unwrap();
        let expected = match page.body {
            PageBody::Internal { .. } => MAX_INTERNAL_HEADER_SIZE,
            PageBody::Leaf { .. } => MAX_LEAF_HEADER_SIZE,
        };
        assert_eq!(writer.position(), expected);
    }
}

#[test]
fn free_space_works() {
    let mut dice = Dice(3);
    for _ in 0..200 {
        let page = dice.page();
        let free_space = page.free_space().unwrap();
        let mut writer = PageWriter::new();
        page.write_header(&mut writer).unwrap();
        let header_end = writer.position();
        let (slot_offset, data_offset) = page.write_body(&mut writer, header_end).unwrap();
        let largest_header = match page.body {
            PageBody::Internal { .. } => MAX_INTERNAL_HEADER_SIZE,
            PageBody::Leaf { .. } => MAX_LEAF_HEADER_SIZE,
        };
        assert_eq!(
            data_offset - slot_offset,
            free_space + (largest_header - header_end)
        );
        assert_eq!(writer.into_inner(), page.as_raw_page().unwrap());
    }
    assert_eq!(Page::empty_leaf(child(1)).free_space(), Some(4050));
}

#[test]
fn headers_need_room() {
    let page = Page::empty_leaf(child(1));
    for start in [PAGE_SIZE - 21, PAGE_SIZE, PAGE_SIZE + 1] {
        let mut writer = PageWriter::new();
        writer.set_position(start);
        assert_eq!(
            page.write_header(&mut writer),
            Err(PageError::IoError(IoError::WriteZero))
        );
        assert_eq!(writer.position(), start.max(PAGE_SIZE));
        let raw = writer.into_inner();
        assert_eq!(raw[PAGE_SIZE - 21], if start < PAGE_SIZE { LEAF_TAG } else { 0 });
    }
    let mut writer = PageWriter::new();
    writer.set_position(PAGE_SIZE - 22);
    assert_eq!(page.write_header(&mut writer), Ok(()));
    assert_eq!(writer.position(), PAGE_SIZE);
}

#[test]
fn headers_that_end_at_the_lsn_fail_with_its_error() {
    let page = Page::empty_leaf(child(1));
    for start in PAGE_SIZE - 21..PAGE_SIZE + 3 {
        let mut writer = PageWriter::new();
        writer.set_position(start);
        let expected = if (4080..=4087).contains(&start) {
            PageError::LsnError(LsnError::IoError(IoError::WriteZero))
        } else {
            PageError::IoError(IoError::WriteZero)
        };
        assert_eq!(page.write_header(&mut writer), Err(expected));
    }
}

#[test]
fn overfull_pages_are_not_written() {
    let row = Row { fields: vec![RowValue::Integer(1), RowValue::String("x".repeat(1340))] };
    let records: Vec<Row> = (0..4).map(|_| row.clone()).collect();
    let page = Page::empty_page(
        child(1),
        PageBody::Leaf { records, next: None, prev: None },
    );
    assert_eq!(page.free_space(), None);
    assert!(!page.can_insert(&Row { fields: vec![RowValue::Null] }));
    assert_eq!(page.as_raw_page(), Err(PageError::PageOverFlow));
    let mut bytes = vec![];
    assert_eq!(page.serialize(&mut bytes), Err(PageError::PageOverFlow));
    assert!(bytes.is_empty());
}

#[test]
fn items_that_cannot_be_written_are_refused() {
    let long = "x".repeat(1400);
    let page = Page::empty_page(
        child(1),
        PageBody::Leaf {
            records: vec![Row { fields: vec![RowValue::String(long.clone())] }],
            next: None,
            prev: None,
        },
    );
    assert_eq!(
        page.as_raw_page(),
        Err(PageError::Value(RowValueError::FieldTooLong(1403)))
    );
    let page = Page::empty_page(
        child(1),
        PageBody::Internal { keys: vec![Key::String(long)], children: vec![child(1), child(2)] },
    );
    assert_eq!(
        page.as_raw_page(),
        Err(PageError::Key(KeyError::RowValue(RowValueError::FieldTooLong(1403))))
    );
}

#[test]
fn insertion_order_on_leaves() {
    let schema = Schema::try_from(vec![Column::string(), Column::nullable_float()]).unwrap();
    let mut dice = Dice(4);
    for _ in 0..20 {
        let mut page = Page::empty_leaf(child(3));
        let mut expected = BTreeMap::new();
        for _ in 0..250 {
            let row = Row {
                fields: vec![RowValue::String(dice.text()), RowValue::Null],
            };
            let validated_row = schema.validate_row(row.clone()).unwrap();
            let key = validated_row.primary_key();
            let is_duplicate = expected.contains_key(&key);
            let is_full = !page.can_insert(&row);
            let before = page.clone();
            let result = page.insert(validated_row);
            if is_duplicate {
                assert_eq!(result, Err(PageError::DuplicateKey));
                assert_unchanged(&before, &page);
            } else if is_full {
                assert_eq!(result, Err(PageError::PageFull));
                assert_unchanged(&before, &page);
            } else {
                assert!(result.is_ok());
                expected.insert(key, row);
            }
        }
        let expected_records: Vec<Row> = expected.into_values().collect();
        assert_eq!(&expected_records, records_of(&page));
        assert!(page.body.is_ordered());
    }
}

#[test]
fn insertion_order_does_not_matter() {
    let (schema, _) = leaf_schema();
    let mut up = Page::empty_leaf(child(1));
    let mut down = Page::empty_leaf(child(1));
    for i in 0..30 {
        up.insert(make_row(&schema, i, 3)).unwrap();
        down.insert(make_row(&schema, 29 - i, 3)).unwrap();
    }
    assert_eq!(up, down);
}

#[test]
fn page_insert_returns_page_full_when_full() {
    let (schema, max_payload) = leaf_schema();
    for sizes in size_mixes() {
        let mut page = fill_leaf(child(1), sizes);
        let before = page.clone();
        let row = make_row(&schema, 5, max_payload);
        if !page.can_insert(&Row::from(row.clone())) {
            assert_eq!(page.insert(row), Err(PageError::PageFull));
            assert_unchanged(&before, &page);
        }
    }
    let mut page = fill_leaf(child(1), vec![u16::MAX]);
    assert_eq!(
        page.insert(make_row(&schema, 5, max_payload)),
        Err(PageError::PageFull)
    );
    // a row that just fits: three slots and the header take 58 bytes
    let mut page = Page::empty_leaf(child(1));
    page.insert(make_row(&schema, 1, max_payload)).unwrap();
    page.insert(make_row(&schema, 2, max_payload)).unwrap();
    page.insert(make_row(&schema, 3, max_payload)).unwrap();
    assert_eq!(page.free_space(), Some(0));
}

#[test]
fn duplicate_keys_trigger_error_on_insert() {
    let (schema, _) = leaf_schema();
    let mut page = Page::empty_leaf(child(1));
    page.insert(make_row(&schema, 7, 1)).unwrap();
    assert_eq!(page.insert(make_row(&schema, 7, 2)), Err(PageError::DuplicateKey));
    // also when the page is full
    let mut page = fill_leaf(child(1), vec![u16::MAX]);
    assert_eq!(page.insert(make_row(&schema, 10, 1000)), Err(PageError::DuplicateKey));
    let mut page = fill_internal(child(1), vec![0]);
    let key = keys_of(&page)[3].clone();
    assert_eq!(page.internal_insert(key, child(0)), Err(PageError::DuplicateKey));
}

#[test]
fn inserting_into_the_wrong_kind_of_page_fails() {
    let (schema, _) = leaf_schema();
    let mut internal = fill_internal(child(1), vec![0]);
    assert_eq!(internal.insert(make_row(&schema, 7, 1)), Err(PageError::NotLeaf));
    let mut leaf = Page::empty_leaf(child(1));
    assert_eq!(
        leaf.internal_insert(Key::Integer(1), child(2)),
        Err(PageError::NotInternal)
    );
}

#[test]
fn internal_insert_keeps_keys_and_children_together() {
    let mut page = Page::empty_page(
        child(1),
        PageBody::Internal { keys: vec![], children: vec![child(100)] },
    );
    for i in [5, 1, 9, 3, 7] {
        page.internal_insert(Key::Integer(i), child(i as u32)).unwrap();
        assert_eq!(page.body.find_child(&Key::Integer(i)), Some(child(i as u32)));
    }
    assert_eq!(
        page.body,
        PageBody::Internal {
            keys: [1, 3, 5, 7, 9].iter().map(|i| Key::Integer(*i)).collect(),
            children: [100, 1, 3, 5, 7, 9].iter().map(|i| child(*i)).collect(),
        }
    );
    let mut page = fill_internal(child(1), vec![u16::MAX]);
    let before = page.clone();
    assert_eq!(
        page.internal_insert(padded_key(1, max_internal_len()), child(2)),
        Err(PageError::PageFull)
    );
    assert_unchanged(&before, &page);
}

#[test]
fn inserted_children_take_only_their_keys() {
    let page = internal_with(1, &[10, 20, 30]);
    for key in [5, 15, 25, 35] {
        let mut more = page.clone();
        more.internal_insert(Key::Integer(key), child(7)).unwrap();
        for k in 0..40 {
            let expected = if key <= k && (k < key + 5 || key == 35) {
                Some(child(7))
            } else {
                page.body.find_child(&Key::Integer(k))
            };
            assert_eq!(more.body.find_child(&Key::Integer(k)), expected);
        }
    }
}

#[test]
fn find_child_boundaries() {
    let body = PageBody::Internal {
        keys: vec![Key::Integer(10), Key::Integer(20)],
        children: vec![child(0), child(1), child(2)],
    };
    for (key, expected) in [(i64::MIN, 0), (9, 0), (10, 1), (19, 1), (20, 2), (i64::MAX, 2)] {
        assert_eq!(body.find_child(&Key::Integer(key)), Some(child(expected)));
    }
    assert_eq!(body.find_child(&Key::String(String::new())), Some(child(2)));
    assert_eq!(Page::empty_leaf(child(1)).body.find_child(&Key::Integer(1)), None);
    let body = PageBody::Internal { keys: vec![], children: vec![child(3)] };
    assert_eq!(body.find_child(&Key::Integer(1)), Some(child(3)));
    let body = PageBody::Internal { keys: vec![], children: vec![] };
    assert_eq!(body.find_child(&Key::Integer(1)), None);
}

fn pages_to_split() -> Vec<Page> {
    let mut dice = Dice(5);
    let mut pages: Vec<Page> = (0..100).map(|_| dice.page()).collect();
    for sizes in size_mixes() {
        pages.push(fill_leaf(child(9), sizes.clone()));
        pages.push(fill_internal(child(9), sizes));
    }
    pages
}

#[test]
fn split_page_roundtrip() {
    let mut splits = 0;
    for mut page in pages_to_split() {
        match page.split_page(new_id()) {
            Ok((_, new_page)) => {
                assert_roundtrip(&page);
                assert_roundtrip(&new_page);
                splits += 1;
            }
            Err(e) => assert_eq!(e, PageError::TooSmallToSplit(page.page_id)),
        }
    }
    assert!(splits > 50);
}

#[test]
fn split_page_key_in_right_spot() {
    for mut page in pages_to_split() {
        if let Ok((split_key, new_page)) = page.split_page(new_id()) {
            match &page.body {
                PageBody::Internal { keys, .. } => {
                    assert!(!keys.is_empty());
                    assert!(keys.iter().all(|k| k < &split_key));
                    let new_keys = keys_of(&new_page);
                    assert!(!new_keys.is_empty());
                    assert!(new_keys.iter().all(|k| k > &split_key));
                }
                PageBody::Leaf { records, .. } => {
                    assert!(!records.is_empty());
                    assert!(records.iter().all(|r| r.cmp_key(&split_key) == Ordering::Less));
                    let new_records = records_of(&new_page);
                    assert!(!new_records.is_empty());
                    assert!(new_records.iter().all(|r| r.cmp_key(&split_key) != Ordering::Less));
                }
            }
        }
    }
}

#[test]
fn sibling_and_parent_pointers_correct_after_split() {
    let mut dice = Dice(6);
    for mut page in pages_to_split() {
        page.parent = dice.link();
        let original_id = page.page_id;
        let before = page.clone();
        if let Ok((_, new_page)) = page.split_page(new_id()) {
            if let (
                PageBody::Leaf { next: old_next, prev: old_prev, .. },
                PageBody::Leaf { next, prev, .. },
                PageBody::Leaf { next: new_next, prev: new_prev, .. },
            ) = (&before.body, &page.body, &new_page.body)
            {
                assert_eq!(prev, old_prev, "original page prev pointer wasn't retained");
                assert_eq!(next, &Some(new_id()), "original page doesn't point to new page");
                assert_eq!(new_prev, &Some(original_id));
                assert_eq!(new_next, old_next);
            }
            assert_eq!(page.parent, before.parent);
            assert_eq!(new_page.parent, before.parent);
            assert_eq!(page.page_id, original_id);
            assert_eq!(new_page.page_id, new_id());
            assert_eq!(page.last_update, before.last_update);
            assert_eq!(new_page.last_update, PageLsn(None));
        }
    }
}

#[test]
fn no_rows_lost_in_split() {
    for mut page in pages_to_split() {
        let before = page.clone();
        if let Ok((split_key, new_page)) = page.split_page(new_id()) {
            match (&before.body, &page.body, &new_page.body) {
                (
                    PageBody::Internal { keys, children },
                    PageBody::Internal { keys: low, children: low_children },
                    PageBody::Internal { keys: high, children: high_children },
                ) => {
                    let mut combined = low.clone();
                    combined.push(split_key);
                    combined.extend(high.iter().cloned());
                    assert_eq!(keys, &combined);
                    let mut combined = low_children.clone();
                    combined.extend(high_children.iter().cloned());
                    assert_eq!(children, &combined);
                    assert_eq!(low.len() + 1, low_children.len());
                    assert_eq!(high.len() + 1, high_children.len());
                    assert_eq!(low.len(), keys.len() / 2);
                }
                (
                    PageBody::Leaf { records, .. },
                    PageBody::Leaf { records: low, .. },
                    PageBody::Leaf { records: high, .. },
                ) => {
                    let mut combined = low.clone();
                    combined.extend(high.iter().cloned());
                    assert_eq!(records, &combined);
                    assert_eq!(split_key, row_key(&high[0]));
                }
                _ => panic!("the kind of the page changed"),
            }
        } else {
            assert_eq!(page, before);
        }
    }
}

#[test]
fn leaves_are_split_by_bytes() {
    let (schema, _) = leaf_schema();
    let mut page = Page::empty_leaf(child(1));
    page.insert(make_row(&schema, 0, 1300)).unwrap();
    for i in 1..10 {
        page.insert(make_row(&schema, i, 1)).unwrap();
    }
    let (split_key, new_page) = page.split_page(new_id()).unwrap();
    assert_eq!(split_key, Key::Integer(1));
    assert_eq!(page.num_items(), 1);
    assert_eq!(new_page.num_items(), 9);
    // of two cuts that are equally good, the first
    let mut page = Page::empty_leaf(child(1));
    for i in 0..3 {
        page.insert(make_row(&schema, i, 100)).unwrap();
    }
    let (split_key, _) = page.split_page(new_id()).unwrap();
    assert_eq!(split_key, Key::Integer(1));
}

#[test]
fn small_pages_cannot_be_split() {
    let (schema, _) = leaf_schema();
    let mut page = Page::empty_leaf(child(7));
    assert_eq!(page.split_page(new_id()), Err(PageError::TooSmallToSplit(child(7))));
    page.insert(make_row(&schema, 0, 1300)).unwrap();
    assert_eq!(page.split_page(new_id()), Err(PageError::TooSmallToSplit(child(7))));
    page.insert(make_row(&schema, 1, 1300)).unwrap();
    assert!(page.split_page(new_id()).is_ok());
    let mut page = Page::empty_page(
        child(8),
        PageBody::Internal { keys: vec![], children: vec![child(0)] },
    );
    for i in 1..3 {
        page.internal_insert(Key::Integer(i), child(i as u32)).unwrap();
        assert_eq!(page.split_page(new_id()), Err(PageError::TooSmallToSplit(child(8))));
    }
    page.internal_insert(Key::Integer(3), child(3)).unwrap();
    assert_eq!(page.split_page(new_id()).unwrap().0, Key::Integer(2));
}

#[test]
fn retry_after_split_always_fits() {
    let (schema, max_payload) = leaf_schema();
    for sizes in size_mixes() {
        let full = fill_leaf(child(1), sizes.clone());
        for key in [-5, 5, 15, 1_000_000] {
            let mut page = full.clone();
            let row = make_row(&schema, key, max_payload);
            if page.insert(row.clone()) == Err(PageError::PageFull) {
                let (split_key, mut new_page) = page.split_page(new_id()).unwrap();
                if row.primary_key() < split_key {
                    page.insert(row).unwrap();
                } else {
                    new_page.insert(row).unwrap();
                }
                assert!(page.body.is_ordered() && new_page.body.is_ordered());
                assert!(records_of(&page).iter().all(|r| row_key(r) < split_key));
                assert!(records_of(&new_page).iter().all(|r| row_key(r) >= split_key));
            }
        }
        let full = fill_internal(child(1), sizes);
        for index in [1, 3, 5, 999_999] {
            let mut page = full.clone();
            let key = padded_key(index, max_internal_len());
            if page.internal_insert(key.clone(), child(77)) == Err(PageError::PageFull) {
                assert!(page.split_page(new_id()).is_ok());
            }
        }
    }
}

#[test]
fn split_then_route() {
    for sizes in size_mixes() {
        let whole = fill_leaf(child(1), sizes);
        let mut low = whole.clone();
        let (split_key, high) = low.split_page(child(2)).unwrap();
        let mut parent = Page::empty_page(
            child(3),
            PageBody::Internal { keys: vec![], children: vec![child(1)] },
        );
        parent.internal_insert(split_key, child(2)).unwrap();
        for row in records_of(&whole) {
            let found = parent.body.find_child(&row_key(row)).unwrap();
            let page = if found == child(1) { &low } else { &high };
            assert!(records_of(page).contains(row));
        }
    }
}

#[test]
fn merge_undoes_split() {
    for before in pages_to_split() {
        let mut page = before.clone();
        if let Ok((split_key, new_page)) = page.split_page(new_id()) {
            assert_eq!(page.merge_page(&split_key, &new_page), Ok(new_id()));
            assert_unchanged(&before, &page);
            assert_eq!(before, page);
        }
    }
}

fn leaf_with(id: u32, keys: &[i64], next: Option<PageId>, prev: Option<PageId>) -> Page {
    let records = keys
        .iter()
        .map(|k| Row { fields: vec![RowValue::Integer(*k)] })
        .collect();
    Page::empty_page(child(id), PageBody::Leaf { records, next, prev })
}

fn internal_with(id: u32, keys: &[i64]) -> Page {
    Page::empty_page(
        child(id),
        PageBody::Internal {
            keys: keys.iter().map(|k| Key::Integer(*k)).collect(),
            children: (0..keys.len() as u32 + 1).map(|i| child(id * 100 + i)).collect(),
        },
    )
}

#[test]
fn merged_pages_hold_everything() {
    let mut low = leaf_with(1, &[1, 2], Some(child(2)), Some(child(0)));
    let high = leaf_with(2, &[3, 4], Some(child(5)), Some(child(1)));
    assert_eq!(low.merge_page(&Key::Integer(3), &high), Ok(child(2)));
    assert_eq!(low, leaf_with(1, &[1, 2, 3, 4], Some(child(5)), Some(child(0))));
    let mut low = internal_with(1, &[1]);
    let high = internal_with(2, &[5, 6]);
    assert_eq!(low.merge_page(&Key::Integer(3), &high), Ok(child(2)));
    assert_eq!(keys_of(&low), &[1, 3, 5, 6].map(Key::Integer));
    assert!(low.body.is_ordered());
    assert_roundtrip(&low);
    assert_eq!(low.body.find_child(&Key::Integer(3)), Some(child(200)));
}

#[test]
fn invalid_merges_are_refused() {
    let refuse = |mut low: Page, separator: i64, high: Page| {
        let before = low.clone();
        assert_eq!(
            low.merge_page(&Key::Integer(separator), &high),
            Err(PageError::InvalidMerge)
        );
        assert_unchanged(&before, &low);
    };
    let low = || leaf_with(1, &[1, 2], Some(child(2)), None);
    let high = |keys: &[i64]| leaf_with(2, keys, None, Some(child(1)));
    // duplicate and unsorted keys
    refuse(low(), 2, high(&[2, 3]));
    refuse(low(), 0, high(&[0]));
    refuse(low(), 5, high(&[5, 4]));
    // pages that do not point at each other
    refuse(leaf_with(1, &[1], None, None), 3, high(&[3]));
    refuse(leaf_with(1, &[1], Some(child(9)), None), 3, high(&[3]));
    refuse(low(), 3, leaf_with(2, &[3], None, None));
    refuse(low(), 3, leaf_with(2, &[3], None, Some(child(9))));
    // pages of two kinds
    refuse(low(), 3, internal_with(2, &[5]));
    refuse(internal_with(2, &[5]), 3, low());
    // keys that the separator does not separate, and a child too few
    refuse(internal_with(1, &[1, 3]), 3, internal_with(2, &[5]));
    refuse(internal_with(1, &[1, 3]), 5, internal_with(2, &[5]));
    let mut short = internal_with(1, &[1]);
    if let PageBody::Internal { children, .. } = &mut short.body {
        children.pop();
    }
    refuse(short, 3, internal_with(2, &[5]));
}

#[test]
fn pages_that_are_too_full_are_not_merged() {
    let (schema, max_payload) = leaf_schema();
    let mut low = Page::empty_leaf(child(1));
    let mut high = Page::empty_leaf(child(2));
    for i in 0..2 {
        low.insert(make_row(&schema, i, max_payload)).unwrap();
        high.insert(make_row(&schema, i + 10, max_payload)).unwrap();
    }
    if let PageBody::Leaf { next, .. } = &mut low.body {
        *next = Some(child(2));
    }
    if let PageBody::Leaf { prev, .. } = &mut high.body {
        *prev = Some(child(1));
    }
    let before = low.clone();
    assert_eq!(low.merge_page(&Key::Integer(10), &high), Err(PageError::PageFull));
    assert_unchanged(&before, &low);
    let mut low = fill_internal(child(1), vec![0]);
    let mut high = fill_internal(child(2), vec![0]);
    if let PageBody::Internal { keys, .. } = &mut high.body {
        for (i, key) in keys.iter_mut().enumerate() {
            *key = padded_key(500_000 + i, 6);
        }
    }
    let before = low.clone();
    assert_eq!(low.merge_page(&padded_key(400_000, 6), &high), Err(PageError::PageFull));
    assert_unchanged(&before, &low);
}

#[test]
fn bad_tags_and_short_pages_are_refused() {
    let raw = fill_leaf(child(1), vec![10]).as_raw_page().unwrap();
    assert_eq!(
        read(&raw[..PAGE_SIZE - 1]),
        Err(PageError::IoError(IoError::UnexpectedEof))
    );
    for tag in [0u8, 3, 255] {
        let mut bad = raw;
        bad[0] = tag;
        assert_eq!(read(&bad), Err(PageError::InvalidTag(tag)));
    }
    // a bad tag in front of the parent
    let mut bad = raw;
    bad[17] = 2;
    assert_eq!(read(&bad), Err(PageError::IoError(IoError::InvalidData)));
}

#[test]
fn a_page_that_is_refused_is_taken_whole() {
    let good = fill_leaf(child(1), vec![10]);
    let mut bytes = good.as_raw_page().unwrap().to_vec();
    bytes[0] = 7;
    let unsorted = leaf_with(1, &[2, 1], None, None);
    bytes.extend_from_slice(&unsorted.as_raw_page().unwrap());
    bytes.extend_from_slice(&good.as_raw_page().unwrap());
    let mut reader = ByteReader::new(&bytes);
    assert_eq!(Page::deserialize(&mut reader), Err(PageError::InvalidTag(7)));
    assert_eq!(reader.rest().len(), 2 * PAGE_SIZE);
    assert_eq!(Page::deserialize(&mut reader), Err(PageError::Corrupt));
    assert_eq!(reader.rest().len(), PAGE_SIZE);
    assert_eq!(Page::deserialize(&mut reader), Ok(good));
    assert!(reader.rest().is_empty());
}

#[test]
fn bodies_are_written_up_to_what_is_refused() {
    let row = |n: i64| Row { fields: vec![RowValue::Integer(n)] };
    let too_long = Row { fields: vec![RowValue::String("x".repeat(5000))] };
    let leaf = |records: Vec<Row>| {
        Page::empty_page(child(1), PageBody::Leaf { records, next: None, prev: None })
    };
    let refused = Err(PageError::Value(RowValueError::FieldTooLong(5003)));

    let mut whole = PageWriter::new();
    assert_eq!(leaf(vec![row(1), row(2)]).write_body(&mut whole, 30), Ok((38, PAGE_SIZE - 20)));
    assert_eq!(whole.position(), 38);
    let mut part = PageWriter::new();
    let page = leaf(vec![row(1), row(2), too_long.clone(), row(3)]);
    assert_eq!(page.write_body(&mut part, 30), refused);
    assert_eq!(part.position(), 38);
    assert_eq!(part.into_inner(), whole.into_inner());

    // nothing in front of the refused row: nothing is written, wherever that were
    let mut none = PageWriter::new();
    none.set_position(11);
    assert_eq!(leaf(vec![too_long]).write_body(&mut none, 9999), refused);
    assert_eq!(none.position(), 11);
    assert_eq!(none.into_inner(), [0u8; PAGE_SIZE]);
    let mut none = PageWriter::new();
    assert_eq!(leaf(vec![]).write_body(&mut none, 9999), Ok((9999, PAGE_SIZE)));

    let mut writer = PageWriter::new();
    let page = Page::empty_page(
        child(1),
        PageBody::Internal {
            keys: vec![Key::String("x".repeat(5000))],
            children: vec![child(8), child(9)],
        },
    );
    assert_eq!(
        page.write_body(&mut writer, 20),
        Err(PageError::Key(KeyError::RowValue(RowValueError::FieldTooLong(5003))))
    );
    assert_eq!(writer.position(), 36);
    assert_eq!(writer.into_inner()[20..36], [0, 0, 0, 1, 0, 0, 0, 8, 0, 0, 0, 1, 0, 0, 0, 9]);
}

#[test]
fn rows_of_a_page_that_is_read_can_be_written() {
    // a row whose string is as long as the limit without its tag and length
    for (len, fits) in [(1347, true), (1348, false), (1350, false)] {
        let mut raw = leaf_with(1, &[1], None, None).as_raw_page().unwrap();
        let mut row = vec![1, 3, (len % 128 + 128) as u8, (len / 128) as u8];
        row.extend(vec![b'k'; len]);
        let at = PAGE_SIZE - row.len();
        raw[at..].copy_from_slice(&row);
        raw[22] = (at / 256) as u8;
        raw[23] = (at % 256) as u8;
        raw[24] = (row.len() / 256) as u8;
        raw[25] = (row.len() % 256) as u8;
        match read(&raw) {
            Ok(page) => {
                assert!(fits);
                assert_eq!(page.as_raw_page().unwrap(), raw);
            }
            Err(e) => {
                assert!(!fits);
                assert_eq!(e, PageError::Value(RowValueError::FieldTooLong(len)));
            }
        }
    }
}

#[test]
fn corrupt_leaves_are_refused() {
    let rows = |keys: &[i64]| leaf_with(1, keys, None, None).as_raw_page().unwrap();
    // unsorted keys
    assert_eq!(read(&rows(&[2, 1])), Err(PageError::Corrupt));
    assert!(read(&rows(&[1, 2])).is_ok());
    // a row without a key
    let mut bad = rows(&[1]);
    bad[PAGE_SIZE - 9] = 2;
    assert_eq!(read(&bad), Err(PageError::Corrupt));
    let mut bad = rows(&[1]);
    bad[PAGE_SIZE - 10] = 0;
    assert_eq!(read(&bad), Err(PageError::Corrupt));
    // a slot that points outside of the page; the header takes 22 bytes
    let mut bad = rows(&[1]);
    bad[25] = 11;
    assert_eq!(read(&bad), Err(PageError::Corrupt));
    // a slot that is too short for its row
    let mut bad = rows(&[1]);
    bad[25] = 9;
    assert_eq!(
        read(&bad),
        Err(PageError::Value(RowValueError::IoError(IoError::UnexpectedEof)))
    );
    // a value with an unknown tag
    let mut bad = rows(&[1]);
    bad[PAGE_SIZE - 9] = 9;
    assert_eq!(read(&bad), Err(PageError::Value(RowValueError::UnknownTag(9))));
}

#[test]
fn corrupt_internal_pages_are_refused() {
    let page = |keys: &[i64]| internal_with(1, keys).as_raw_page().unwrap();
    assert!(read(&page(&[1, 2])).is_ok());
    assert_eq!(read(&page(&[2, 1])), Err(PageError::Corrupt));
    assert_eq!(read(&page(&[1, 1])), Err(PageError::Corrupt));
    // a key that is none
    let mut bad = page(&[1]);
    bad[PAGE_SIZE - 9] = 2;
    assert_eq!(read(&bad), Err(PageError::Key(KeyError::NotOrderable)));
    // a slot that points outside of the page; header and children take 36 bytes
    let mut bad = page(&[1]);
    bad[39] = 10;
    assert_eq!(read(&bad), Err(PageError::Corrupt));
    // more items than a page has room for
    let mut bad = page(&[1]);
    bad[18] = 255;
    bad[19] = 255;
    assert_eq!(read(&bad), Err(PageError::IoError(IoError::UnexpectedEof)));
}

#[test]
fn page_lsns_are_kept() {
    let mut page = Page::empty_leaf(child(1));
    page.last_update = PageLsn(Some(Lsn::new(u64::MAX).unwrap()));
    assert_roundtrip(&page);
    let lsn_error = PageError::LsnError(LsnError::ZeroLsn);
    assert_ne!(lsn_error, PageError::Corrupt);
}

#[test]
fn mutated_pages_never_panic() {
    let mut dice = Dice(7);
    for _ in 0..300 {
        let mut raw = dice.page().as_raw_page().unwrap();
        for _ in 0..dice.below(20) + 1 {
            let at = if dice.coin() { dice.below(80) } else { dice.below(PAGE_SIZE) };
            raw[at] = dice.roll() as u8;
        }
        if let Ok(page) = read(&raw) {
            // whatever is read is in order
            assert!(page.body.is_ordered());
        }
    }
    let noise: Vec<u8> = (0..PAGE_SIZE).map(|_| dice.roll() as u8).collect();
    let _ = read(&noise);
}

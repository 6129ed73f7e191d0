use rust_db::bpm::{BufferPoolManagerBuilder, EvictionPolicy, Wal, BUFFER_SIZE};

#[test]
fn pools_start_empty() {
    let pool = BufferPoolManagerBuilder::new()
        .with_file_backing("table.db".to_string())
        .build(vec![1u8, 2]);
    assert_eq!(BUFFER_SIZE, 512);
    assert_eq!(pool.frames.len(), BUFFER_SIZE);
    assert!(pool.frames.iter().all(|frame| frame.is_none()));
    // without a log of its own it gets the default one
    assert_eq!(pool.wal, Some(Wal));
    assert!(matches!(pool.eviction_policy, EvictionPolicy::Clock));
    assert_eq!(pool.persistant_layer, [1, 2]);
}

#[test]
fn builders_keep_what_they_are_given() {
    let builder: BufferPoolManagerBuilder<String> = BufferPoolManagerBuilder::new();
    assert_eq!(builder.file_path(), None);
    let builder = builder
        .with_file_backing("first.db".to_string())
        .with_wal(Wal)
        .with_file_backing("second.db".to_string());
    assert_eq!(builder.file_path(), Some(&"second.db".to_string()));
    let pool = builder.build(());
    assert_eq!(pool.wal, Some(Wal));
}

//! Tests of the store: point operations, recovery, batches and merge.

use bitkv::batch::WriteBatchOptions;
use bitkv::db::Db;
use bitkv::file_handle::FileHandle;
use bitkv::merge::parse_merge_finished;
use bitkv::options::Opts;
use bitkv::Error;
use bitkv::IoKind;
use bitkv::Reason;

fn test_opts(dir: &str) -> Opts {
    Opts::new(256, 1024, false, true, dir.to_string(), 1024 * 1024)
}

/// The segments of a store, as a fresh run for a reopen, ascending by id.
fn snapshot_segments(db: &Db) -> Vec<FileHandle> {
    let mut files: Vec<FileHandle> = Vec::new();
    for f in db.inactive_files.iter() {
        files.push(FileHandle::new(f.get_file_id(), f.content_bytes().clone()));
    }
    files.push(FileHandle::new(
        db.active_file.get_file_id(),
        db.active_file.content_bytes().clone(),
    ));
    files.sort_by_key(|f| f.get_file_id());
    files
}

/// Closes a store and opens a fresh one over the same segment bytes.
fn reopen(db: &mut Db, opts: &Opts) -> Db {
    db.close().unwrap();
    let files = snapshot_segments(db);
    Db::open(opts, files, None).unwrap()
}

#[test]
fn test_open_db() {
    let opts = test_opts("/tmp/open_db");
    let db = Db::open(&opts, Vec::new(), None).unwrap();

    for i in 1..100 {
        let key = format!("key{}", i).into_bytes();
        let err = db.get(key.clone()).unwrap_err();
        assert_eq!(err.message(), "Db read error: Key not found");
    }

    for i in 101..100000 {
        let key = format!("key{}", i).into_bytes();
        let value = format!("value{}", i).into_bytes();
        match db.get(key.clone()) {
            Ok(read_value) => assert_eq!(value, read_value),
            Err(e) => {
                let _ = (key, e);
            },
        }
    }
}

#[test]
fn test_single_thread_put_and_read() {
    let opts = test_opts("/tmp/put_and_read");
    let mut db = Db::open(&opts, Vec::new(), None).unwrap();

    for i in 1..100000 {
        let key = format!("key{}", i).into_bytes();
        let value = format!("value{}", i).into_bytes();
        db.put(key.clone(), value.clone()).unwrap();
        assert_eq!(db.get(key.clone()).unwrap(), value);
    }
}

#[test]
fn test_delete() {
    let opts = test_opts("/tmp/delete");
    let mut db = Db::open(&opts, Vec::new(), None).unwrap();

    for i in 1..10000 {
        let key = format!("key{}", i).into_bytes();
        let value = format!("value{}", i).into_bytes();
        db.put(key, value).unwrap();
    }

    for i in 1..100 {
        let key = format!("key{}", i).into_bytes();
        db.delete(key.clone()).unwrap();
        let err = db.get(key.clone()).unwrap_err();
        assert_eq!(err.message(), "Db read error: Key not found");
    }

    for i in 1..100 {
        let key = format!("key{}", i).into_bytes();
        let err = db.get(key).unwrap_err();
        assert_eq!(err.message(), "Db read error: Key not found");
    }
}

#[test]
fn test_sync() {
    let opts = test_opts("/tmp/sync");
    let mut db = Db::open(&opts, Vec::new(), None).expect("failed to open engine");
    db.put(b"key".to_vec(), b"value".to_vec()).unwrap();
    let close_res = db.sync();
    assert!(close_res.is_ok());
}

#[test]
fn test_write_batch() {
    let opts = test_opts("/tmp/write_batch");
    let db = Db::open(&opts, Vec::new(), None).unwrap();
    for i in 0..10 {
        let key = format!("key{}", i).into_bytes();
        assert!(db.get(key).is_err());
    }
}

#[test]
fn test_merge() {
    let opts = test_opts("/tmp/test_merge");
    let mut db = Db::open(&opts, Vec::new(), None).unwrap();
    for i in 0..1000 {
        let key = format!("key{}", i).into_bytes();
        let value = format!("value{}", i).into_bytes();
        db.put(key, value).unwrap();
    }
    db.merge().unwrap();
}

#[test]
fn test_round_trip_and_tombstone_across_reopen() {
    let opts = test_opts("/tmp/round_trip");
    let mut db = Db::open(&opts, Vec::new(), None).unwrap();
    db.put(b"a".to_vec(), b"1".to_vec()).unwrap();
    db.put(b"b".to_vec(), b"2".to_vec()).unwrap();
    assert_eq!(db.get(b"a".to_vec()).unwrap(), b"1".to_vec());
    assert_eq!(db.get(b"b".to_vec()).unwrap(), b"2".to_vec());
    db.delete(b"a".to_vec()).unwrap();
    let err = db.get(b"a".to_vec()).unwrap_err();
    assert_eq!(err.message(), "Db read error: Key not found");

    let db2 = reopen(&mut db, &opts);
    let err = db2.get(b"a".to_vec()).unwrap_err();
    assert_eq!(err.message(), "Db read error: Key not found");
    assert_eq!(db2.get(b"b".to_vec()).unwrap(), b"2".to_vec());
}

#[test]
fn test_rotation_preserves_data() {
    let opts = Opts::new(256, 1024, false, true, "/tmp/rotation".to_string(), 64);
    let mut db = Db::open(&opts, Vec::new(), None).unwrap();
    for i in 0..100 {
        let key = format!("k{}", i).into_bytes();
        db.put(key, b"V".to_vec()).unwrap();
    }
    assert!(db.inactive_files.len() + 1 >= 20);
    for i in 0..100 {
        let key = format!("k{}", i).into_bytes();
        assert_eq!(db.get(key).unwrap(), b"V".to_vec());
    }
    let db2 = reopen(&mut db, &opts);
    for i in 0..100 {
        let key = format!("k{}", i).into_bytes();
        assert_eq!(db2.get(key).unwrap(), b"V".to_vec());
    }
}

#[test]
fn test_batch_commit_and_cap() {
    let opts = test_opts("/tmp/batch_commit");
    let mut db = Db::open(&opts, Vec::new(), None).unwrap();
    let batch_opts = WriteBatchOptions { max_batch_num: 3, sync_writes: true };
    let mut batch = db.new_write_batch(batch_opts).unwrap();
    batch.put(b"x".to_vec(), b"1".to_vec()).unwrap();
    batch.put(b"y".to_vec(), b"2".to_vec()).unwrap();
    batch.put(b"z".to_vec(), b"3".to_vec()).unwrap();
    batch.commit(&mut db).unwrap();

    let db2 = reopen(&mut db, &opts);
    assert_eq!(db2.get(b"x".to_vec()).unwrap(), b"1".to_vec());
    assert_eq!(db2.get(b"y".to_vec()).unwrap(), b"2".to_vec());
    assert_eq!(db2.get(b"z".to_vec()).unwrap(), b"3".to_vec());

    let mut db3 = db2;
    let batch_opts2 = WriteBatchOptions { max_batch_num: 3, sync_writes: true };
    let mut big = db3.new_write_batch(batch_opts2).unwrap();
    big.put(b"p".to_vec(), b"1".to_vec()).unwrap();
    big.put(b"q".to_vec(), b"2".to_vec()).unwrap();
    big.put(b"r".to_vec(), b"3".to_vec()).unwrap();
    big.put(b"s".to_vec(), b"4".to_vec()).unwrap();
    let err = big.commit(&mut db3).unwrap_err();
    assert_eq!(err, Error::Unsupported(Reason::BatchTooLarge));
    assert_eq!(err.message(), "Exceeds max batch number");
    for k in [b"p".to_vec(), b"q".to_vec(), b"r".to_vec(), b"s".to_vec()] {
        assert!(db3.get(k).is_err());
    }
}

#[test]
fn test_uncommitted_batch_invisible_after_reopen() {
    let opts = test_opts("/tmp/batch_crash");
    let mut db = Db::open(&opts, Vec::new(), None).unwrap();
    db.put(b"k".to_vec(), b"old".to_vec()).unwrap();
    let batch_opts = WriteBatchOptions { max_batch_num: 10, sync_writes: true };
    let mut batch = db.new_write_batch(batch_opts).unwrap();
    batch.put(b"k".to_vec(), b"new".to_vec()).unwrap();
    batch.commit(&mut db).unwrap();
    assert_eq!(db.get(b"k".to_vec()).unwrap(), b"new".to_vec());

    // Simulate a crash before the marker became durable: drop the last
    // record (the marker) from the disk image before reopening.
    db.close().unwrap();
    let mut files = snapshot_segments(&db);
    let last = files.len() - 1;
    let mut bytes = files[last].content_bytes().clone();
    // The active segment holds: put("k","old"), the batch's record, marker.
    // Cut the marker: its encoded form is the tail after the batch record.
    let marker_len = {
        let full = bytes.len();
        // Re-scan to find the offset of the last record.
        let handle = FileHandle::new(0, bytes.clone());
        let mut off = 0u64;
        let mut last_size = 0usize;
        while let Ok((_, size)) = handle.extract_data_entry(off) {
            last_size = size;
            off += size as u64;
        }
        assert_eq!(off as usize, full);
        last_size
    };
    bytes.truncate(bytes.len() - marker_len);
    let fid = files[last].get_file_id();
    files[last] = FileHandle::new(fid, bytes);
    let db2 = Db::open(&opts, files, None).unwrap();
    // The batch never committed: the old value is back.
    assert_eq!(db2.get(b"k".to_vec()).unwrap(), b"old".to_vec());
}

#[test]
fn test_merge_compacts_and_reopens() {
    let opts = test_opts("/tmp/merge_reopen");
    let mut db = Db::open(&opts, Vec::new(), None).unwrap();
    for i in 0..1000 {
        let key = format!("key{}", i).into_bytes();
        let value = format!("value{}", i).into_bytes();
        db.put(key, value).unwrap();
    }
    for i in 0..100 {
        let key = format!("key{}", i).into_bytes();
        db.delete(key).unwrap();
    }
    let out = db.merge().unwrap();
    assert_eq!(
        parse_merge_finished(&out.finished),
        Some(out.unmerged_file_id)
    );

    // Install the merge as a reopen would: the compacted segments plus the
    // post-snapshot active segment, with the hint seeding the index.
    let mut files = snapshot_segments(&out.merge_db);
    assert!(files.iter().all(|f| f.get_file_id() < out.unmerged_file_id));
    files.push(FileHandle::new(
        db.active_file.get_file_id(),
        db.active_file.content_bytes().clone(),
    ));
    let hint = out.hint.file.content_bytes().clone();
    let db2 = Db::open(&opts, files, Some(hint)).unwrap();
    for i in 0..100 {
        let key = format!("key{}", i).into_bytes();
        let err = db2.get(key).unwrap_err();
        assert_eq!(err.message(), "Db read error: Key not found");
    }
    for i in 100..1000 {
        let key = format!("key{}", i).into_bytes();
        let value = format!("value{}", i).into_bytes();
        assert_eq!(db2.get(key).unwrap(), value);
    }
}

#[test]
fn test_corrupted_record_fails_read_after_reopen() {
    let opts = test_opts("/tmp/crc_detect");
    let mut db = Db::open(&opts, Vec::new(), None).unwrap();
    db.put(b"k".to_vec(), b"v".to_vec()).unwrap();
    db.close().unwrap();
    let mut files = snapshot_segments(&db);
    let last = files.len() - 1;
    let mut bytes = files[last].content_bytes().clone();
    // Overwrite the record's checksum bytes on disk.
    let n = bytes.len();
    bytes[n - 1] ^= 0xff;
    let fid = files[last].get_file_id();
    files[last] = FileHandle::new(fid, bytes);
    let db2 = Db::open(&opts, files, None).unwrap();
    let err = db2.get(b"k".to_vec()).unwrap_err();
    assert_eq!(err, Error::Unsupported(Reason::CrcMismatch));
    assert_eq!(err.message(), "CRC check failed");
}

#[test]
fn test_sequence_numbers_grow_across_opens() {
    let opts = test_opts("/tmp/seq_grow");
    let mut db = Db::open(&opts, Vec::new(), None).unwrap();
    assert_eq!(db.sequence_number, 1);
    let batch_opts = WriteBatchOptions { max_batch_num: 10, sync_writes: true };
    let mut batch = db.new_write_batch(batch_opts).unwrap();
    batch.put(b"a".to_vec(), b"1".to_vec()).unwrap();
    batch.commit(&mut db).unwrap();
    assert_eq!(db.sequence_number, 2);

    let db2 = reopen(&mut db, &opts);
    // The log holds records with sequence number one; the next strictly
    // exceeds them.
    assert_eq!(db2.sequence_number, 2);
}

#[test]
fn test_validation_errors() {
    let bad_key = Opts::new(0, 1024, false, true, "/tmp/x".to_string(), 1024);
    assert_eq!(
        Db::open(&bad_key, Vec::new(), None).err().unwrap(),
        Error::Unsupported(Reason::BadMaxKeySize)
    );
    let bad_value = Opts::new(256, 0, false, true, "/tmp/x".to_string(), 1024);
    assert_eq!(
        Db::open(&bad_value, Vec::new(), None).err().unwrap(),
        Error::Unsupported(Reason::BadMaxValueSize)
    );
    let bad_size = Opts::new(256, 1024, false, true, "/tmp/x".to_string(), 0);
    assert_eq!(
        Db::open(&bad_size, Vec::new(), None).err().unwrap(),
        Error::Unsupported(Reason::BadDataFileSize)
    );
    let bad_dir = Opts::new(256, 1024, false, true, String::new(), 1024);
    assert_eq!(
        Db::open(&bad_dir, Vec::new(), None).err().unwrap(),
        Error::Unsupported(Reason::BadDirPath)
    );
}

#[test]
fn test_operation_errors() {
    let opts = test_opts("/tmp/op_errors");
    let mut db = Db::open(&opts, Vec::new(), None).unwrap();
    // Oversized and empty keys.
    let long_key = vec![7u8; 257];
    assert_eq!(
        db.put(long_key.clone(), b"v".to_vec()).unwrap_err(),
        Error::Unsupported(Reason::KeyTooLarge)
    );
    assert_eq!(
        db.put(Vec::new(), b"v".to_vec()).unwrap_err(),
        Error::Unsupported(Reason::KeyTooLarge)
    );
    assert_eq!(
        db.get(long_key.clone()).unwrap_err(),
        Error::Unsupported(Reason::KeyTooLarge)
    );
    assert_eq!(
        db.delete(Vec::new()).unwrap_err(),
        Error::Unsupported(Reason::KeyRequired)
    );
    assert_eq!(
        db.delete(long_key).unwrap_err(),
        Error::Unsupported(Reason::KeyTooLarge)
    );
    // Oversized value.
    let long_value = vec![7u8; 1025];
    assert_eq!(
        db.put(b"k".to_vec(), long_value).unwrap_err(),
        Error::Unsupported(Reason::ValueTooLarge)
    );
    // Deleting an unknown key is a no-op.
    assert!(db.delete(b"missing".to_vec()).is_ok());
    // Merging an empty store is refused.
    assert_eq!(
        db.merge().err().unwrap(),
        Error::Unsupported(Reason::MergeEmpty)
    );
    assert_eq!(db.merge().err().unwrap().message(), "Merge when db is empty");
}

#[test]
fn test_read_only_store_refuses_writes() {
    let opts = Opts::new(256, 1024, true, true, "/tmp/read_only".to_string(), 1024 * 1024);
    let mut db = Db::open(&opts, Vec::new(), None).unwrap();
    assert_eq!(
        db.put(b"k".to_vec(), b"v".to_vec()).unwrap_err(),
        Error::Unsupported(Reason::ReadOnly)
    );
    assert_eq!(
        db.delete(b"k".to_vec()).unwrap_err(),
        Error::Unsupported(Reason::ReadOnly)
    );
}

#[test]
fn test_batch_delete_semantics() {
    let opts = test_opts("/tmp/batch_delete");
    let mut db = Db::open(&opts, Vec::new(), None).unwrap();
    db.put(b"stored".to_vec(), b"v".to_vec()).unwrap();
    let batch_opts = WriteBatchOptions { max_batch_num: 10, sync_writes: true };
    let mut batch = db.new_write_batch(batch_opts).unwrap();
    // Pending-only key: delete just unbuffers it.
    batch.put(b"pending".to_vec(), b"1".to_vec()).unwrap();
    batch.delete(&db, b"pending".to_vec()).unwrap();
    // Stored key: delete buffers a tombstone.
    batch.delete(&db, b"stored".to_vec()).unwrap();
    // Unknown key: a no-op.
    batch.delete(&db, b"unknown".to_vec()).unwrap();
    batch.commit(&mut db).unwrap();
    assert!(db.get(b"pending".to_vec()).is_err());
    assert!(db.get(b"unknown".to_vec()).is_err());
    let err = db.get(b"stored".to_vec()).unwrap_err();
    assert_eq!(err.message(), "Db read error: Key not found");

    let db2 = reopen(&mut db, &opts);
    let err = db2.get(b"stored".to_vec()).unwrap_err();
    assert_eq!(err.message(), "Db read error: Key not found");
}

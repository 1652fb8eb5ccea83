use pg_search::atomic::Slot;
use pg_search::channel::{
    filter_ctids, ChannelRequest, ChannelRequestHandler, ChannelResponse, HandlerStep,
};
use pg_search::codec::{decode_handle, encode_handle};
use pg_search::ctid::{item_pointer_to_u64, u64_to_item_pointer};
use pg_search::directory::{BlockingDirectory, BlockingLock};
use pg_search::error::DirectoryError;
use pg_search::page::{
    BlockStore, PageKind, StoreError, INDEX_WRITER_LOCK_BLOCKNO, MANAGED_LOCK_BLOCKNO,
    MAX_ITEM_SIZE, META_LOCK_BLOCKNO, RESERVED_BLOCKS, SEGMENT_HANDLE_BLOCKNO,
};
use pg_search::segment_handle::SegmentHandle;

fn bytes(n: usize, seed: u8) -> Vec<u8> {
    (0..n).map(|i| (i as u8).wrapping_mul(31).wrapping_add(seed)).collect()
}

fn write_segment(dir: &mut BlockingDirectory, path: &[u8], data: &[u8]) {
    let mut writer = dir.open_write(path).unwrap();
    writer.write(data);
    dir.terminate_write(&writer).unwrap();
}

fn read_all(dir: &BlockingDirectory, path: &[u8]) -> Vec<u8> {
    let reader = dir.get_file_handle(path).unwrap();
    reader.read_bytes(&dir.store, 0, reader.len()).unwrap()
}

#[test]
fn slot_round_trip_across_sizes() {
    let mut store = BlockStore::create_index();
    for (n, seed) in [(1usize, 1u8), (MAX_ITEM_SIZE, 2), (MAX_ITEM_SIZE + 1, 3), (20000, 4), (5, 5), (0, 6)] {
        let data = bytes(n, seed);
        store.write_slot(Slot::Meta, &data).unwrap();
        assert_eq!(store.read_slot(Slot::Meta), data);
    }
}

#[test]
fn slot_shrinking_value_frees_continuation_pages() {
    let mut store = BlockStore::create_index();
    store.write_slot(Slot::Managed, &bytes(3 * MAX_ITEM_SIZE, 9)).unwrap();
    assert_eq!(store.pages.len(), RESERVED_BLOCKS as usize + 2);
    store.write_slot(Slot::Managed, b"short").unwrap();
    assert_eq!(store.read_slot(Slot::Managed), b"short".to_vec());
    assert_eq!(store.free.len(), 2);
    assert_eq!(store.read_slot(Slot::Meta), Vec::<u8>::new());
}

#[test]
fn atomic_paths_dispatch_to_slots() {
    let mut dir = BlockingDirectory::new(BlockStore::create_index());
    assert_eq!(dir.atomic_read(b"meta.json"), Err(DirectoryError::FileDoesNotExist));
    dir.atomic_write(b"meta.json", b"{\"segments\":[]}").unwrap();
    dir.atomic_write(b".managed.json", b"[\"meta.json\"]").unwrap();
    assert_eq!(dir.atomic_read(b"meta.json").unwrap(), b"{\"segments\":[]}".to_vec());
    assert_eq!(dir.atomic_read(b".managed.json").unwrap(), b"[\"meta.json\"]".to_vec());
    assert_eq!(dir.atomic_read(b"other.json"), Err(DirectoryError::FileDoesNotExist));
    assert_eq!(dir.atomic_write(b"other.json", b"x"), Err(DirectoryError::UnexpectedPath));
}

#[test]
fn segment_round_trip_across_sizes() {
    let mut dir = BlockingDirectory::new(BlockStore::create_index());
    let sizes = [1usize, 100, MAX_ITEM_SIZE, MAX_ITEM_SIZE + 1, 3 * MAX_ITEM_SIZE, 30000];
    for (i, n) in sizes.iter().enumerate() {
        let path = format!("seg{}.store", i).into_bytes();
        let data = bytes(*n, i as u8);
        write_segment(&mut dir, &path, &data);
        assert_eq!(read_all(&dir, &path), data);
        assert_eq!(dir.get_file_handle(&path).unwrap().len(), *n);
    }
}

#[test]
fn empty_segment_has_no_pages_and_no_readable_range() {
    let mut dir = BlockingDirectory::new(BlockStore::create_index());
    write_segment(&mut dir, b"empty.idx", b"");
    let reader = dir.get_file_handle(b"empty.idx").unwrap();
    assert_eq!(reader.len(), 0);
    assert!(reader.handle.blocks.is_empty());
    assert_eq!(reader.read_bytes(&dir.store, 0, 10), Err(DirectoryError::InvalidRange));
}

#[test]
fn missing_segment_is_not_found() {
    let dir = BlockingDirectory::new(BlockStore::create_index());
    assert_eq!(dir.get_file_handle(b"nope.pos"), Err(DirectoryError::FileDoesNotExist));
}

#[test]
fn catalog_distinct_paths_keep_their_entries() {
    let mut store = BlockStore::create_index();
    SegmentHandle::create(&mut store, b"a.term", &[10, 11], 9000, 5).unwrap();
    SegmentHandle::create(&mut store, b"b.term", &[12], 7, 6).unwrap();
    let a = SegmentHandle::open(&store, b"a.term").unwrap().unwrap();
    let b = SegmentHandle::open(&store, b"b.term").unwrap().unwrap();
    assert_eq!(
        a,
        SegmentHandle { path: b"a.term".to_vec(), blocks: vec![10, 11], total_bytes: 9000, stamp: 5 }
    );
    assert_eq!(b, SegmentHandle { path: b"b.term".to_vec(), blocks: vec![12], total_bytes: 7, stamp: 6 });
    assert_eq!(SegmentHandle::open(&store, b"c.term").unwrap(), None);
}

#[test]
fn catalog_chain_overflow_keeps_every_entry() {
    let mut store = BlockStore::create_index();
    let count = 400u32;
    for i in 0..count {
        let path = format!("{:032x}.fast", i).into_bytes();
        SegmentHandle::create(&mut store, &path, &[i, i + 1, i + 2], i as usize * 3, i as u64).unwrap();
    }
    assert_ne!(store.insert_blockno, SEGMENT_HANDLE_BLOCKNO);
    for i in 0..count {
        let path = format!("{:032x}.fast", i).into_bytes();
        let h = SegmentHandle::open(&store, &path).unwrap().unwrap();
        assert_eq!(h.blocks, vec![i, i + 1, i + 2]);
        assert_eq!(h.total_bytes, i as usize * 3);
        assert_eq!(h.stamp, i as u64);
    }
}

#[test]
fn catalog_entry_too_large_for_a_page() {
    let mut store = BlockStore::create_index();
    let path = vec![b'x'; 9000];
    assert_eq!(SegmentHandle::create(&mut store, &path, &[], 0, 1), Err(StoreError::ItemTooLarge));
}

#[test]
fn delete_frees_pages_that_are_reused_first() {
    let mut dir = BlockingDirectory::new(BlockStore::create_index());
    write_segment(&mut dir, b"gone.store", &bytes(3 * MAX_ITEM_SIZE, 1));
    let blocks = dir.get_file_handle(b"gone.store").unwrap().handle.blocks.clone();
    let len_before = dir.store.pages.len();
    assert_eq!(dir.delete_with_stats(b"gone.store"), Ok(3));
    let mut got = Vec::new();
    for _ in 0..3 {
        got.push(dir.store.new_buffer(PageKind::Data).unwrap());
    }
    got.reverse();
    assert_eq!(got, blocks);
    assert_eq!(dir.store.pages.len(), len_before);
    assert_eq!(dir.store.new_buffer(PageKind::Data), Ok(len_before as u32));
}

#[test]
fn delete_twice_reclaims_nothing_more_and_unknown_path_is_zero() {
    let mut dir = BlockingDirectory::new(BlockStore::create_index());
    write_segment(&mut dir, b"x.store", &bytes(10, 1));
    assert_eq!(dir.delete_with_stats(b"x.store"), Ok(1));
    assert_eq!(dir.delete_with_stats(b"x.store"), Ok(0));
    assert_eq!(dir.delete_with_stats(b"y.store"), Ok(0));
    assert_eq!(dir.delete(b"y.store"), Ok(()));
}

#[test]
fn partial_range_reads_match_the_content() {
    let mut dir = BlockingDirectory::new(BlockStore::create_index());
    let data = bytes(2 * MAX_ITEM_SIZE + 500, 7);
    write_segment(&mut dir, b"r.store", &data);
    let reader = dir.get_file_handle(b"r.store").unwrap();
    let l = data.len();
    let ranges = [
        (0, 1),
        (5, 100),
        (MAX_ITEM_SIZE - 3, MAX_ITEM_SIZE + 3),
        (MAX_ITEM_SIZE, 2 * MAX_ITEM_SIZE),
        (10, l),
        (l - 1, l),
        (0, l),
    ];
    for (s, e) in ranges {
        let got = reader.read_bytes(&dir.store, s, e).unwrap();
        assert_eq!(got.len(), e - s);
        assert_eq!(got, data[s..e].to_vec());
    }
    assert_eq!(reader.read_bytes(&dir.store, 100, l + 50).unwrap(), data[100..].to_vec());
    assert_eq!(reader.read_bytes(&dir.store, 7, 7), Err(DirectoryError::InvalidRange));
    assert_eq!(reader.read_bytes(&dir.store, l, l + 10), Err(DirectoryError::InvalidRange));
    assert_eq!(reader.read_bytes(&dir.store, 9, 3), Err(DirectoryError::InvalidRange));
}

#[test]
fn locks_map_to_their_pages() {
    let mut dir = BlockingDirectory::new(BlockStore::create_index());
    let meta = dir.acquire_blocking_lock(b".tantivy-meta.lock").unwrap();
    assert_eq!(meta, BlockingLock { blockno: META_LOCK_BLOCKNO });
    assert_eq!(dir.acquire_blocking_lock(b".tantivy-meta.lock"), Err(DirectoryError::LockBusy));
    let writer = dir.acquire_blocking_lock(b".tantivy-writer.lock").unwrap();
    assert_eq!(writer.blockno, INDEX_WRITER_LOCK_BLOCKNO);
    let managed = dir.acquire_blocking_lock(b".tantivy-managed.lock").unwrap();
    assert_eq!(managed.blockno, MANAGED_LOCK_BLOCKNO);
    dir.release_lock(meta);
    assert!(dir.acquire_blocking_lock(b".tantivy-meta.lock").is_ok());
    assert_eq!(dir.acquire_blocking_lock(b"other.lock"), Err(DirectoryError::UnexpectedLock));
}

#[test]
fn lock_files_are_not_written() {
    let dir = BlockingDirectory::new(BlockStore::create_index());
    assert_eq!(dir.open_write(b".tantivy-writer.lock"), Err(DirectoryError::UnexpectedPath));
    assert!(dir.open_write(b"abc.store").is_ok());
}

#[test]
fn unsupported_operations_report_so() {
    let dir = BlockingDirectory::new(BlockStore::create_index());
    assert_eq!(dir.path_exists(b"meta.json"), Err(DirectoryError::Unsupported));
    assert_eq!(dir.watch(), Err(DirectoryError::Unsupported));
    assert_eq!(dir.sync_directory(), Ok(()));
}

#[test]
fn handle_record_round_trip_and_garbage() {
    let rec = encode_handle(b"p.idx", &[1, 70000, 4_000_000_000], 123456789, u64::MAX);
    assert_eq!(rec.len(), 24 + 5 + 12);
    let h = decode_handle(&rec).unwrap();
    assert_eq!(h.path, b"p.idx".to_vec());
    assert_eq!(h.blocks, vec![1, 70000, 4_000_000_000]);
    assert_eq!(h.total_bytes, 123456789);
    assert_eq!(h.stamp, u64::MAX);
    assert_eq!(decode_handle(&vec![1, 2, 3]), None);
    let mut longer = rec.clone();
    longer.push(0);
    assert_eq!(decode_handle(&longer), None);
}

fn run_bridged(handler: &mut ChannelRequestHandler, requests: Vec<ChannelRequest>) -> Vec<HandlerStep> {
    requests.into_iter().map(|r| handler.handle(r, &Some(|c: u64| c % 2 == 0))).collect()
}

#[test]
fn bridge_matches_direct_directory() {
    let data = bytes(MAX_ITEM_SIZE + 10, 3);
    let requests = vec![
        ChannelRequest::AtomicWrite(b"meta.json".to_vec(), b"m1".to_vec()),
        ChannelRequest::SegmentWrite(b"s.store".to_vec(), data.clone()),
        ChannelRequest::GetSegmentHandle(b"s.store".to_vec()),
        ChannelRequest::AcquireLock(b".tantivy-writer.lock".to_vec()),
        ChannelRequest::AtomicRead(b"meta.json".to_vec()),
        ChannelRequest::ReleaseBlockingLock(BlockingLock { blockno: INDEX_WRITER_LOCK_BLOCKNO }),
        ChannelRequest::SegmentDelete(b"s.store".to_vec()),
        ChannelRequest::ShouldDeleteCtids(vec![1, 2, 3, 4]),
        ChannelRequest::Terminate,
    ];
    let mut handler = ChannelRequestHandler::open(BlockingDirectory::new(BlockStore::create_index()));
    let replies = run_bridged(&mut handler, requests);

    let mut direct = BlockingDirectory::new(BlockStore::create_index());
    direct.atomic_write(b"meta.json", b"m1").unwrap();
    write_segment(&mut direct, b"s.store", &data);
    let handle = SegmentHandle::open(&direct.store, b"s.store").unwrap();
    let lock = direct.acquire_blocking_lock(b".tantivy-writer.lock").unwrap();
    let meta = direct.atomic_read(b"meta.json").unwrap();
    direct.release_lock(lock);
    let deleted = direct.delete_with_stats(b"s.store").unwrap();

    assert_eq!(replies[0], HandlerStep::Reply(ChannelResponse::AtomicWriteAck));
    assert_eq!(replies[1], HandlerStep::Reply(ChannelResponse::SegmentWriteAck));
    assert_eq!(replies[2], HandlerStep::Reply(ChannelResponse::SegmentHandle(handle)));
    assert_eq!(
        replies[3],
        HandlerStep::Reply(ChannelResponse::AcquiredLock(BlockingLock {
            blockno: INDEX_WRITER_LOCK_BLOCKNO
        }))
    );
    assert_eq!(replies[4], HandlerStep::Reply(ChannelResponse::Bytes(meta)));
    assert_eq!(replies[5], HandlerStep::Continue);
    assert_eq!(replies[6], HandlerStep::Reply(ChannelResponse::SegmentDeleteAck));
    assert_eq!(replies[7], HandlerStep::Reply(ChannelResponse::ShouldDeleteCtids(vec![2, 4])));
    assert_eq!(replies[8], HandlerStep::Stop);
    assert_eq!(handler.stats.pages_deleted, deleted);
    assert_eq!(handler.directory.store.pages, direct.store.pages);
    assert_eq!(handler.directory.store.free, direct.store.free);
    assert_eq!(handler.directory.store.locks, direct.store.locks);
}

#[test]
fn bridge_segment_read_and_no_predicate() {
    let mut handler = ChannelRequestHandler::open(BlockingDirectory::new(BlockStore::create_index()));
    let data = bytes(50, 1);
    assert_eq!(
        handler.handle(ChannelRequest::SegmentWrite(b"q.store".to_vec(), data.clone()), &None::<fn(u64) -> bool>),
        HandlerStep::Reply(ChannelResponse::SegmentWriteAck)
    );
    let h = SegmentHandle::open(&handler.directory.store, b"q.store").unwrap().unwrap();
    let reply = handler.handle(ChannelRequest::SegmentRead(10, 20, h.clone()), &None::<fn(u64) -> bool>);
    assert_eq!(reply, HandlerStep::Reply(ChannelResponse::Bytes(data[10..20].to_vec())));
    let reply = handler.handle(ChannelRequest::ShouldDeleteCtids(vec![1, 2]), &None::<fn(u64) -> bool>);
    assert_eq!(reply, HandlerStep::Reply(ChannelResponse::ShouldDeleteCtids(vec![])));
    assert_eq!(
        handler.handle(ChannelRequest::AtomicRead(b"meta.json".to_vec()), &None::<fn(u64) -> bool>),
        HandlerStep::Reply(ChannelResponse::Error(DirectoryError::FileDoesNotExist))
    );
    assert_eq!(
        handler.handle(ChannelRequest::SegmentRead(30, 30, h), &None::<fn(u64) -> bool>),
        HandlerStep::Reply(ChannelResponse::Error(DirectoryError::InvalidRange))
    );
    assert_eq!(
        handler.handle(ChannelRequest::SegmentDelete(b"none.store".to_vec()), &None::<fn(u64) -> bool>),
        HandlerStep::Reply(ChannelResponse::SegmentDeleteAck)
    );
    assert_eq!(handler.stats.pages_deleted, 0);
    assert_eq!(
        handler.handle(ChannelRequest::Terminate, &None::<fn(u64) -> bool>),
        HandlerStep::Stop
    );
}

#[test]
fn responses_unpack_or_report_desync() {
    assert_eq!(ChannelResponse::Bytes(vec![1]).into_bytes(), Ok(vec![1]));
    assert_eq!(ChannelResponse::AtomicWriteAck.into_bytes(), Err(DirectoryError::UnexpectedResponse));
    assert_eq!(ChannelResponse::SegmentHandle(None).into_segment_handle(), Ok(None));
    assert_eq!(ChannelResponse::Bytes(vec![]).into_lock(), Err(DirectoryError::UnexpectedResponse));
    assert_eq!(ChannelResponse::ShouldDeleteCtids(vec![5]).into_ctids(), Ok(vec![5]));
    let req = ChannelRequest::SegmentDelete(b"a".to_vec());
    assert_eq!(ChannelResponse::SegmentDeleteAck.into_ack(&req), Ok(()));
    assert_eq!(ChannelResponse::AtomicWriteAck.into_ack(&req), Err(DirectoryError::UnexpectedResponse));
    assert_eq!(
        ChannelResponse::Error(DirectoryError::LockBusy).into_ack(&req),
        Err(DirectoryError::LockBusy)
    );
    assert_eq!(
        ChannelResponse::Error(DirectoryError::FileDoesNotExist).into_bytes(),
        Err(DirectoryError::FileDoesNotExist)
    );
}

#[test]
fn ctid_filter_keeps_order() {
    assert_eq!(filter_ctids(&vec![9, 4, 7, 10], &|c: u64| c > 5), vec![9, 7, 10]);
    assert_eq!(filter_ctids(&vec![], &|_c: u64| true), Vec::<u64>::new());
}

#[test]
fn end_to_end_commit_and_reopen() {
    let mut dir = BlockingDirectory::new(BlockStore::create_index());
    let mut names = Vec::new();
    let mut total = 0usize;
    let mut i = 0u8;
    while total <= MAX_ITEM_SIZE {
        let name = format!("00000000-0000-0000-0000-{:012}.store", i).into_bytes();
        let data = bytes(3000 + i as usize * 17, i);
        total += data.len();
        write_segment(&mut dir, &name, &data);
        names.push(name);
        i += 1;
    }
    let mut meta = b"{\"segments\":[".to_vec();
    for (k, n) in names.iter().enumerate() {
        if k > 0 {
            meta.push(b',');
        }
        meta.extend_from_slice(n);
    }
    meta.extend_from_slice(b"]}");
    let managed = b"[\"meta.json\"]".to_vec();
    dir.atomic_write(b"meta.json", &meta).unwrap();
    dir.atomic_write(b".managed.json", &managed).unwrap();

    let reopened = BlockingDirectory::new(dir.into_store());
    assert_eq!(reopened.atomic_read(b"meta.json").unwrap(), meta);
    assert_eq!(reopened.atomic_read(b".managed.json").unwrap(), managed);
    for n in &names {
        let reader = reopened.get_file_handle(n).unwrap();
        let handle = SegmentHandle::open(&reopened.store, n).unwrap().unwrap();
        assert_eq!(reader.len(), handle.total_bytes);
        assert_eq!(read_all(&reopened, n).len(), handle.total_bytes);
    }
}

#[test]
fn allocation_fails_only_when_the_relation_is_full() {
    let mut store = BlockStore::create_index();
    assert_eq!(store.new_buffer(PageKind::Data), Ok(RESERVED_BLOCKS));
    assert!(store.reclaim_data_page(RESERVED_BLOCKS));
    assert!(!store.reclaim_data_page(RESERVED_BLOCKS));
    assert!(!store.reclaim_data_page(0));
    assert_eq!(store.new_buffer(PageKind::Data), Ok(RESERVED_BLOCKS));
}

#[test]
fn item_pointers_pack_and_unpack() {
    assert_eq!(item_pointer_to_u64(3, 7), (3u64 << 16) | 7);
    assert_eq!(item_pointer_to_u64(u32::MAX, u16::MAX), (u64::from(u32::MAX) << 16) | 0xFFFF);
    assert_eq!(u64_to_item_pointer(item_pointer_to_u64(123456, 42)), (123456, 42));
    assert_eq!(u64_to_item_pointer(0), (0, 0));
}

#[test]
fn meta_and_managed_slots_by_name() {
    let mut store = BlockStore::create_index();
    store.write_meta(b"meta-bytes").unwrap();
    store.write_managed(b"managed-bytes").unwrap();
    assert_eq!(store.read_meta(), b"meta-bytes".to_vec());
    assert_eq!(store.read_managed(), b"managed-bytes".to_vec());
}

#[test]
fn stale_handle_after_reuse_is_rejected() {
    let mut dir = BlockingDirectory::new(BlockStore::create_index());
    write_segment(&mut dir, b"old.store", &bytes(100, 1));
    let stale = dir.get_file_handle(b"old.store").unwrap();
    assert_eq!(dir.delete_with_stats(b"old.store"), Ok(1));
    assert_eq!(stale.read_bytes(&dir.store, 0, 10), Err(DirectoryError::Store(StoreError::Corrupted)));
    write_segment(&mut dir, b"new.store", &bytes(100, 2));
    let fresh = dir.get_file_handle(b"new.store").unwrap();
    assert_eq!(fresh.handle.blocks, stale.handle.blocks);
    assert_ne!(fresh.handle.stamp, stale.handle.stamp);
    assert_eq!(stale.read_bytes(&dir.store, 0, 10), Err(DirectoryError::Store(StoreError::Corrupted)));
    let reopened = dir.get_file_handle(b"old.store").unwrap();
    assert_eq!(reopened.read_bytes(&dir.store, 0, 10), Err(DirectoryError::Store(StoreError::Corrupted)));
    assert_eq!(fresh.read_bytes(&dir.store, 0, 100).unwrap(), bytes(100, 2));
}

#[test]
fn segment_writes_stop_when_stamps_run_out() {
    let mut dir = BlockingDirectory::new(BlockStore::create_index());
    dir.store.next_stamp = u64::MAX;
    let mut writer = dir.open_write(b"z.store").unwrap();
    writer.write(b"abc");
    assert_eq!(dir.terminate_write(&writer), Err(DirectoryError::Store(StoreError::OutOfStamps)));
}

#[test]
fn slot_rewrite_reuses_its_chain_in_order() {
    let mut store = BlockStore::create_index();
    store.write_slot(Slot::Meta, &bytes(3 * MAX_ITEM_SIZE, 1)).unwrap();
    let before = store.slot_blocks(Slot::Meta);
    assert_eq!(before.len(), 3);
    store.write_slot(Slot::Meta, &bytes(2 * MAX_ITEM_SIZE + 1, 2)).unwrap();
    assert_eq!(store.slot_blocks(Slot::Meta), before);
    let data = bytes(2 * MAX_ITEM_SIZE + 1, 2);
    for (i, b) in before.iter().enumerate() {
        let page = &store.pages[*b as usize];
        assert_eq!(page.items.len(), 1);
        let end = ((i + 1) * MAX_ITEM_SIZE).min(data.len());
        assert_eq!(page.items[0], data[i * MAX_ITEM_SIZE..end].to_vec());
    }
    store.write_slot(Slot::Meta, b"x").unwrap();
    assert_eq!(store.slot_blocks(Slot::Meta), vec![before[0]]);
    assert_eq!(store.read_slot(Slot::Meta), b"x".to_vec());
}

#[test]
fn segment_too_large_for_the_catalog_changes_nothing() {
    let mut dir = BlockingDirectory::new(BlockStore::create_index());
    let pages_before = dir.store.pages.len();
    let mut writer = dir.open_write(&vec![b'p'; 8200]).unwrap();
    writer.write(b"abc");
    assert_eq!(dir.terminate_write(&writer), Err(DirectoryError::Store(StoreError::ItemTooLarge)));
    assert_eq!(dir.store.pages.len(), pages_before);
    assert_eq!(dir.store.next_stamp, 1);
}

#[test]
fn delete_count_is_the_segment_block_count() {
    let mut dir = BlockingDirectory::new(BlockStore::create_index());
    write_segment(&mut dir, b"five.store", &bytes(4 * MAX_ITEM_SIZE + 3, 4));
    let n = dir.get_file_handle(b"five.store").unwrap().handle.blocks.len();
    assert_eq!(n, 5);
    assert_eq!(dir.delete_with_stats(b"five.store"), Ok(5));
}

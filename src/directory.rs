//! The directory adapter: the file operations the search engine issues,
//! carried out on the relation's pages.

use vstd::prelude::*;

use crate::atomic::{slot_pages, Slot};
use crate::error::DirectoryError;
use crate::page::{
    BlockStore, PageKind, StoreError, INDEX_WRITER_LOCK_BLOCKNO,
    MANAGED_LOCK_BLOCKNO, META_LOCK_BLOCKNO,
};
use crate::segment::{segment_bytes, segment_intact, SegmentHandleReader, SegmentHandleWriter};
use crate::segment_handle::{bytes_eq, catalog_lookup, handle_matches, SegmentHandle};

verus! {

/// "meta.json": the engine's meta file.
pub open spec fn meta_path() -> Seq<u8> {
    seq![109u8, 101, 116, 97, 46, 106, 115, 111, 110]
}

/// ".managed.json": the engine's list of managed files.
pub open spec fn managed_path() -> Seq<u8> {
    seq![46u8, 109, 97, 110, 97, 103, 101, 100, 46, 106, 115, 111, 110]
}

/// ".tantivy-meta.lock": file path of the engine's meta lock.
pub open spec fn meta_lock_path() -> Seq<u8> {
    seq![46u8, 116, 97, 110, 116, 105, 118, 121, 45, 109, 101, 116, 97, 46, 108, 111, 99, 107]
}

/// ".tantivy-writer.lock": file path of the engine's writer lock.
pub open spec fn writer_lock_path() -> Seq<u8> {
    seq![
        46u8, 116, 97, 110, 116, 105, 118, 121, 45, 119, 114, 105, 116, 101, 114, 46, 108, 111, 99,
        107,
    ]
}

/// ".tantivy-managed.lock": file path of the lock on the managed-file list.
pub open spec fn managed_lock_path() -> Seq<u8> {
    seq![
        46u8, 116, 97, 110, 116, 105, 118, 121, 45, 109, 97, 110, 97, 103, 101, 100, 46, 108, 111,
        99, 107,
    ]
}

/// ".lock": the suffix of lock files, which are never written.
pub open spec fn lock_suffix() -> Seq<u8> {
    seq![46u8, 108, 111, 99, 107]
}

/// The slot a path names, if any.
pub open spec fn slot_of(path: Seq<u8>) -> Option<Slot> {
    if path == meta_path() {
        Some(Slot::Meta)
    } else if path == managed_path() {
        Some(Slot::Managed)
    } else {
        None
    }
}

/// The page whose lock stands for the lock file `path`, if any.
pub open spec fn lock_block_of(path: Seq<u8>) -> Option<u32> {
    if path == meta_lock_path() {
        Some(META_LOCK_BLOCKNO)
    } else if path == managed_lock_path() {
        Some(MANAGED_LOCK_BLOCKNO)
    } else if path == writer_lock_path() {
        Some(INDEX_WRITER_LOCK_BLOCKNO)
    } else {
        None
    }
}

pub open spec fn is_lock_file(path: Seq<u8>) -> bool {
    path.len() >= 5 && path.subrange(path.len() - 5, path.len() as int) == lock_suffix()
}

/// Relies on tantivy::directory::META_LOCK, whose file path is
/// ".tantivy-meta.lock".
#[verifier::external_body]
fn tantivy_meta_lock_path() -> (r: Vec<u8>)
    ensures
        r@ == meta_lock_path(),
{
    tantivy::directory::META_LOCK.filepath.as_os_str().as_encoded_bytes().to_vec()
}

/// Relies on tantivy::directory::INDEX_WRITER_LOCK, whose file path is
/// ".tantivy-writer.lock".
#[verifier::external_body]
fn tantivy_writer_lock_path() -> (r: Vec<u8>)
    ensures
        r@ == writer_lock_path(),
{
    tantivy::directory::INDEX_WRITER_LOCK.filepath.as_os_str().as_encoded_bytes().to_vec()
}

fn meta_path_bytes() -> (r: Vec<u8>)
    ensures
        r@ == meta_path(),
{
    let r: Vec<u8> = vec![109u8, 101, 116, 97, 46, 106, 115, 111, 110];
    assert(r@ =~= meta_path());
    r
}

fn managed_path_bytes() -> (r: Vec<u8>)
    ensures
        r@ == managed_path(),
{
    let r: Vec<u8> = vec![46u8, 109, 97, 110, 97, 103, 101, 100, 46, 106, 115, 111, 110];
    assert(r@ =~= managed_path());
    r
}

fn managed_lock_path_bytes() -> (r: Vec<u8>)
    ensures
        r@ == managed_lock_path(),
{
    let r: Vec<u8> = vec![
        46u8, 116, 97, 110, 116, 105, 118, 121, 45, 109, 97, 110, 97, 103, 101, 100, 46, 108, 111,
        99, 107,
    ];
    assert(r@ =~= managed_lock_path());
    r
}

/// The slot `path` names, if any.
pub fn slot_for_path(path: &[u8]) -> (r: Option<Slot>)
    ensures
        r == slot_of(path@),
{
    let meta = meta_path_bytes();
    if bytes_eq(path, meta.as_slice()) {
        return Some(Slot::Meta);
    }
    let managed = managed_path_bytes();
    if bytes_eq(path, managed.as_slice()) {
        return Some(Slot::Managed);
    }
    None
}

/// The lock page for the lock file `path`, if any.
pub fn lock_block_for_path(path: &[u8]) -> (r: Option<u32>)
    ensures
        r == lock_block_of(path@),
{
    let meta = tantivy_meta_lock_path();
    if bytes_eq(path, meta.as_slice()) {
        return Some(META_LOCK_BLOCKNO);
    }
    let managed = managed_lock_path_bytes();
    if bytes_eq(path, managed.as_slice()) {
        return Some(MANAGED_LOCK_BLOCKNO);
    }
    let writer = tantivy_writer_lock_path();
    if bytes_eq(path, writer.as_slice()) {
        return Some(INDEX_WRITER_LOCK_BLOCKNO);
    }
    None
}

/// Whether `path` ends in ".lock".
pub fn is_lock_file_path(path: &[u8]) -> (r: bool)
    ensures
        r == is_lock_file(path@),
{
    let n = path.len();
    if n < 5 {
        return false;
    }
    let suffix: Vec<u8> = vec![46u8, 108, 111, 99, 107];
    let mut i: usize = 0;
    while i < 5
        invariant
            n == path@.len(),
            n >= 5,
            suffix@ == lock_suffix(),
            i <= 5,
            forall|k: int| 0 <= k < i ==> path@[n - 5 + k] == suffix@[k],
        decreases 5 - i,
    {
        if path[n - 5 + i] != suffix[i] {
            assert(path@.subrange(n - 5, n as int)[i as int] != lock_suffix()[i as int]);
            return false;
        }
        i = i + 1;
    }
    assert(path@.subrange(n - 5, n as int) =~= lock_suffix());
    true
}

} // verus!

verus! {

/// The pages of a segment that a delete recorded as free: exactly its data
/// pages, now emptied; every other page is as it was.
pub open spec fn reclaimed(old: &BlockStore, new: &BlockStore, blocks: Seq<u32>, count: int) -> bool {
    let added = new.free@.subrange(old.free@.len() as int, new.free@.len() as int);
    &&& new.free@.len() == old.free@.len() + count
    &&& new.free@.subrange(0, old.free@.len() as int) == old.free@
    &&& forall|x: u32|
        #[trigger] added.contains(x) <==> (blocks.contains(x) && (x as int) < old.len() && old.page(
            x,
        ).kind == PageKind::Data)
    &&& new.len() == old.len()
    &&& forall|x: u32|
        (x as int) < old.len() ==> if added.contains(x) {
            crate::page::is_empty_page(#[trigger] new.page(x), PageKind::Free)
        } else {
            new.page(x) == old.page(x)
        }
    &&& new.locks@ == old.locks@
    &&& new.insert_blockno == old.insert_blockno
    &&& new.catalog_chain@ == old.catalog_chain@
    &&& new.meta_chain@ == old.meta_chain@
    &&& new.managed_chain@ == old.managed_chain@
}

/// `blocks` are distinct data pages of `store`, as a segment write leaves them.
pub open spec fn all_data_pages(store: &BlockStore, blocks: Seq<u32>) -> bool {
    crate::page::distinct(blocks) && forall|i: int|
        0 <= i < blocks.len() ==> (#[trigger] blocks[i] as int) < store.len() && store.page(
            blocks[i],
        ).kind == PageKind::Data
}

/// A page lock held on behalf of the engine.
#[derive(Debug, PartialEq, Eq, Structural)]
pub struct BlockingLock {
    pub blockno: u32,
}

/// The engine's storage contract carried out directly on the pages of one
/// relation.
pub struct BlockingDirectory {
    pub store: BlockStore,
}

impl BlockingDirectory {
    pub open spec fn wf(&self) -> bool {
        self.store.wf()
    }

    /// A directory on the relation whose pages are `store`.
    pub fn new(store: BlockStore) -> (r: BlockingDirectory)
        ensures
            r.store == store,
    {
        BlockingDirectory { store }
    }

    /// Gives the relation's pages back.
    pub fn into_store(self) -> (r: BlockStore)
        ensures
            r == self.store,
    {
        self.store
    }

    /// Takes the page lock that stands for the lock file `path`.
    pub fn acquire_blocking_lock(&mut self, path: &[u8]) -> (r: Result<BlockingLock, DirectoryError>)
        requires
            old(self).wf(),
        ensures
            final(self).wf(),
            match lock_block_of(path@) {
                None => r == Err::<BlockingLock, DirectoryError>(DirectoryError::UnexpectedLock)
                    && final(self).store == old(self).store,
                Some(b) => if old(self).store.locks@.contains(b) {
                    r == Err::<BlockingLock, DirectoryError>(DirectoryError::LockBusy)
                        && final(self).store.locks@ == old(self).store.locks@
                } else {
                    r == Ok::<BlockingLock, DirectoryError>(BlockingLock { blockno: b })
                        && final(self).store.locks@ == old(self).store.locks@.push(b)
                },
            },
            final(self).store.pages@ == old(self).store.pages@,
            final(self).store.free@ == old(self).store.free@,
            final(self).store.insert_blockno == old(self).store.insert_blockno,
            final(self).store.catalog_chain@ == old(self).store.catalog_chain@,
            final(self).store.meta_chain@ == old(self).store.meta_chain@,
            final(self).store.managed_chain@ == old(self).store.managed_chain@,
    {
        match lock_block_for_path(path) {
            None => Err(DirectoryError::UnexpectedLock),
            Some(b) => {
                if self.store.lock_page(b) {
                    Ok(BlockingLock { blockno: b })
                } else {
                    Err(DirectoryError::LockBusy)
                }
            },
        }
    }

    /// Releases a lock taken by `acquire_blocking_lock`.
    pub fn release_lock(&mut self, lock: BlockingLock)
        requires
            old(self).wf(),
        ensures
            final(self).wf(),
            !final(self).store.locks@.contains(lock.blockno),
            forall|x: u32|
                x != lock.blockno ==> (#[trigger] final(self).store.locks@.contains(x) <==> old(
                    self,
                ).store.locks@.contains(x)),
            final(self).store.pages@ == old(self).store.pages@,
            final(self).store.free@ == old(self).store.free@,
            final(self).store.insert_blockno == old(self).store.insert_blockno,
            final(self).store.catalog_chain@ == old(self).store.catalog_chain@,
            final(self).store.meta_chain@ == old(self).store.meta_chain@,
            final(self).store.managed_chain@ == old(self).store.managed_chain@,
    {
        self.store.unlock_page(lock.blockno);
    }

    /// Frees the data pages of the segment `path` and returns how many were
    /// freed. The catalog entry stays.
    pub fn delete_with_stats(&mut self, path: &[u8]) -> (r: Result<usize, DirectoryError>)
        requires
            old(self).wf(),
        ensures
            final(self).wf(),
            match catalog_lookup(&old(self).store, path@) {
                Err(_) => r == Err::<usize, DirectoryError>(
                    DirectoryError::Store(StoreError::Corrupted),
                ) && final(self).store == old(self).store,
                Ok(None) => r == Ok::<usize, DirectoryError>(0) && final(self).store == old(
                    self,
                ).store,
                Ok(Some(e)) => r is Ok && reclaimed(
                    &old(self).store,
                    &final(self).store,
                    e.1,
                    r->Ok_0 as int,
                ) && (all_data_pages(&old(self).store, e.1) ==> r->Ok_0 == e.1.len()),
            },
    {
        let handle = match SegmentHandle::open(&self.store, path) {
            Err(_) => {
                return Err(DirectoryError::Store(StoreError::Corrupted));
            },
            Ok(None) => {
                return Ok(0);
            },
            Ok(Some(h)) => h,
        };
        let ghost old_store = self.store;
        let ghost n0 = old_store.free@.len() as int;
        let blocks = &handle.blocks;
        let mut count: usize = 0;
        let mut i: usize = 0;
        assert(old_store.free@.subrange(n0, n0) =~= Seq::<u32>::empty());
        assert(old_store.free@.subrange(0, n0) =~= old_store.free@);
        while i < blocks.len()
            invariant
                self.store.wf(),
                old_store.wf(),
                n0 == old_store.free@.len(),
                i <= blocks@.len(),
                count <= i,
                reclaimed(&old_store, &self.store, blocks@.subrange(0, i as int), count as int),
                blocks@ == handle.blocks@,
                all_data_pages(&old_store, blocks@) ==> count == i,
            decreases blocks@.len() - i,
        {
            let b = blocks[i];
            let ghost before = self.store;
            let ghost prefix = blocks@.subrange(0, i as int);
            let ghost next = blocks@.subrange(0, i + 1);
            assert(next =~= prefix.push(b));
            let ghost added_before = before.free@.subrange(n0, before.free@.len() as int);
            proof {
                if all_data_pages(&old_store, blocks@) {
                    assert(!prefix.contains(b)) by {
                        if prefix.contains(b) {
                            let k = choose|k: int| 0 <= k < prefix.len() && prefix[k] == b;
                            assert(blocks@[k] == blocks@[i as int]);
                        }
                    }
                    assert(!added_before.contains(b));
                    assert(before.page(b) == old_store.page(b));
                    assert(old_store.page(b).kind == PageKind::Data);
                }
            }
            let freed = self.store.reclaim_data_page(b);
            proof {
                let added = self.store.free@.subrange(n0, self.store.free@.len() as int);
                assert forall|x: u32| #[trigger] next.contains(x) <==> (prefix.contains(x) || x == b) by {
                    if next.contains(x) {
                        let k = choose|k: int| 0 <= k < next.len() && next[k] == x;
                        if k < prefix.len() {
                            assert(prefix[k] == x);
                        }
                    }
                    if prefix.contains(x) {
                        let k = choose|k: int| 0 <= k < prefix.len() && prefix[k] == x;
                        assert(next[k] == x);
                    }
                    if x == b {
                        assert(next[i as int] == x);
                    }
                }
                if freed {
                    assert(added =~= added_before.push(b));
                    assert(!added_before.contains(b)) by {
                        if added_before.contains(b) {
                            assert(before.page(b).kind == PageKind::Free);
                        }
                    }
                    assert(old_store.page(b) == before.page(b));
                    assert(added.contains(b)) by {
                        assert(added[added.len() - 1] == b);
                    }
                    assert forall|x: u32| x != b implies (#[trigger] added.contains(x)
                        <==> added_before.contains(x)) by {
                        if added.contains(x) {
                            let k = choose|k: int| 0 <= k < added.len() && added[k] == x;
                            assert(k < added_before.len());
                            assert(added_before[k] == x);
                        }
                        if added_before.contains(x) {
                            let k = choose|k: int| 0 <= k < added_before.len() && added_before[k] == x;
                            assert(added[k] == x);
                        }
                    }
                    assert forall|x: u32| #[trigger] added.contains(x) <==> (next.contains(x)
                        && (x as int) < old_store.len() && old_store.page(x).kind
                        == PageKind::Data) by {
                        if x != b {
                            assert(added.contains(x) <==> added_before.contains(x));
                            assert(next.contains(x) <==> prefix.contains(x));
                        } else {
                            assert(next.contains(x));
                        }
                    }
                    assert forall|x: u32| (x as int) < old_store.len() implies if added.contains(x) {
                        crate::page::is_empty_page(#[trigger] self.store.page(x), PageKind::Free)
                    } else {
                        self.store.page(x) == old_store.page(x)
                    } by {
                        if x != b {
                            assert(added.contains(x) <==> added_before.contains(x));
                            assert(self.store.pages@[x as int] == before.pages@[x as int]);
                            assert(if added_before.contains(x) {
                                crate::page::is_empty_page(before.page(x), PageKind::Free)
                            } else {
                                before.page(x) == old_store.page(x)
                            });
                        }
                    }
                    assert(self.store.free@.subrange(0, n0) =~= old_store.free@);
                } else {
                    assert(added =~= added_before);
                    assert forall|x: u32| #[trigger] added.contains(x) <==> (next.contains(x)
                        && (x as int) < old_store.len() && old_store.page(x).kind
                        == PageKind::Data) by {
                        assert(next.contains(x) <==> (prefix.contains(x) || x == b));
                        if x == b && (x as int) < old_store.len() && old_store.page(x).kind
                            == PageKind::Data {
                            if !added_before.contains(b) {
                                assert(old_store.page(b) == before.page(b));
                            }
                        }
                    }
                }
            }
            if freed {
                count = count + 1;
            }
            i = i + 1;
        }
        assert(blocks@.subrange(0, i as int) =~= blocks@);
        Ok(count)
    }
}

} // verus!

verus! {

impl BlockingDirectory {
    /// A reader for the segment `path`, as the catalog records it.
    pub fn get_file_handle(&self, path: &[u8]) -> (r: Result<SegmentHandleReader, DirectoryError>)
        requires
            self.wf(),
        ensures
            match catalog_lookup(&self.store, path@) {
                Err(_) => r == Err::<SegmentHandleReader, DirectoryError>(
                    DirectoryError::Store(StoreError::Corrupted),
                ),
                Ok(None) => r == Err::<SegmentHandleReader, DirectoryError>(
                    DirectoryError::FileDoesNotExist,
                ),
                Ok(Some(e)) => r is Ok && handle_matches(r->Ok_0.handle, e),
            },
    {
        match SegmentHandle::open(&self.store, path) {
            Err(_) => Err(DirectoryError::Store(StoreError::Corrupted)),
            Ok(None) => Err(DirectoryError::FileDoesNotExist),
            Ok(Some(h)) => Ok(SegmentHandleReader::new(h)),
        }
    }

    /// A writer for the segment `path`; lock files are refused.
    pub fn open_write(&self, path: &[u8]) -> (r: Result<SegmentHandleWriter, DirectoryError>)
        ensures
            is_lock_file(path@) ==> r == Err::<SegmentHandleWriter, DirectoryError>(
                DirectoryError::UnexpectedPath,
            ),
            !is_lock_file(path@) ==> r is Ok && r->Ok_0.path@ == path@ && r->Ok_0.data@.len()
                == 0,
    {
        if is_lock_file_path(path) {
            return Err(DirectoryError::UnexpectedPath);
        }
        Ok(SegmentHandleWriter::new(path))
    }

    /// Finishes a segment file: lays its bytes out on pages and registers it.
    pub fn terminate_write(&mut self, writer: &SegmentHandleWriter) -> (r: Result<(), DirectoryError>)
        requires
            old(self).wf(),
        ensures
            final(self).wf(),
            r is Ok ==> exists|blocks: Seq<u32>, stamp: u64|
                #[trigger] segment_intact(&final(self).store, blocks, writer.data@.len() as int, stamp)
                    && segment_bytes(&final(self).store, blocks) == writer.data@
                    && crate::segment_handle::catalog_records(&final(self).store)
                    == crate::segment_handle::catalog_records(&old(self).store).push(
                    crate::codec::record_bytes(writer.path@, blocks, writer.data@.len() as nat, stamp as nat),
                ),
            r is Err ==> final(self).store == old(self).store && (r == Err::<(), DirectoryError>(
                DirectoryError::Store(StoreError::RelationFull),
            ) || r == Err::<(), DirectoryError>(DirectoryError::Store(StoreError::ItemTooLarge))
                || r == Err::<(), DirectoryError>(DirectoryError::Store(StoreError::OutOfStamps))),
            r is Ok <==> old(self).store.next_stamp < u64::MAX && crate::segment::entry_len(
                writer.path@,
                writer.data@.len() as int,
            ) + crate::page::ITEM_ID_SIZE <= crate::page::PAGE_SPACE && crate::segment::pages_needed(
                &old(self).store,
                writer.path@,
                writer.data@.len() as int,
            ) <= old(self).store.spare(),
    {
        match writer.terminate(&mut self.store) {
            Ok(h) => {
                assert(segment_intact(&self.store, h.blocks@, writer.data@.len() as int, h.stamp));
                Ok(())
            },
            Err(e) => Err(DirectoryError::Store(e)),
        }
    }

    /// The value of the meta file or of the managed-file list. An empty
    /// value means the file was never written.
    pub fn atomic_read(&self, path: &[u8]) -> (r: Result<Vec<u8>, DirectoryError>)
        requires
            self.wf(),
        ensures
            match slot_of(path@) {
                None => r == Err::<Vec<u8>, DirectoryError>(DirectoryError::FileDoesNotExist),
                Some(slot) => if self.store.slot_content(slot).len() == 0 {
                    r == Err::<Vec<u8>, DirectoryError>(DirectoryError::FileDoesNotExist)
                } else {
                    r is Ok && r->Ok_0@ == self.store.slot_content(slot)
                },
            },
    {
        match slot_for_path(path) {
            None => Err(DirectoryError::FileDoesNotExist),
            Some(slot) => {
                let data = self.store.read_slot(slot);
                if data.len() == 0 {
                    Err(DirectoryError::FileDoesNotExist)
                } else {
                    Ok(data)
                }
            },
        }
    }

    /// Overwrites the meta file or the managed-file list with `data`.
    pub fn atomic_write(&mut self, path: &[u8], data: &[u8]) -> (r: Result<(), DirectoryError>)
        requires
            old(self).wf(),
        ensures
            final(self).wf(),
            match slot_of(path@) {
                None => r == Err::<(), DirectoryError>(DirectoryError::UnexpectedPath)
                    && final(self).store == old(self).store,
                Some(slot) => (r is Ok <==> slot_pages(data@.len() as int) <= old(
                    self,
                ).store.spare() + old(self).store.slot_chain(slot).len()) && (r is Ok
                    ==> final(self).store.slot_content(slot) == data@ && crate::atomic::slot_layout(
                    &final(self).store,
                    final(self).store.slot_chain(slot),
                    data@,
                )) && (r is Err ==> r == Err::<(), DirectoryError>(
                    DirectoryError::Store(StoreError::RelationFull),
                ) && final(self).store == old(self).store) && BlockStore::slot_frame(
                    &old(self).store,
                    &final(self).store,
                    slot,
                ),
            },
    {
        match slot_for_path(path) {
            None => Err(DirectoryError::UnexpectedPath),
            Some(slot) => match self.store.write_slot(slot, data) {
                Ok(()) => Ok(()),
                Err(e) => Err(DirectoryError::Store(e)),
            },
        }
    }

    /// Frees the data pages of the segment `path`.
    pub fn delete(&mut self, path: &[u8]) -> (r: Result<(), DirectoryError>)
        requires
            old(self).wf(),
        ensures
            final(self).wf(),
            match catalog_lookup(&old(self).store, path@) {
                Err(_) => r == Err::<(), DirectoryError>(
                    DirectoryError::Store(StoreError::Corrupted),
                ) && final(self).store == old(self).store,
                Ok(None) => r is Ok && final(self).store == old(self).store,
                Ok(Some(e)) => r is Ok && exists|n: int|
                    reclaimed(&old(self).store, &final(self).store, e.1, n),
            },
    {
        match self.delete_with_stats(path) {
            Ok(n) => {
                Ok(())
            },
            Err(e) => Err(e),
        }
    }

    /// Not supported by block storage.
    pub fn path_exists(&self, path: &[u8]) -> (r: Result<bool, DirectoryError>)
        ensures
            r == Err::<bool, DirectoryError>(DirectoryError::Unsupported),
    {
        Err(DirectoryError::Unsupported)
    }

    /// Not supported by block storage: change notification needs a reload
    /// policy this storage does not offer.
    pub fn watch(&self) -> (r: Result<(), DirectoryError>)
        ensures
            r == Err::<(), DirectoryError>(DirectoryError::Unsupported),
    {
        Err(DirectoryError::Unsupported)
    }

    /// Every page write already goes through the host's durability path.
    pub fn sync_directory(&self) -> (r: Result<(), DirectoryError>)
        ensures
            r is Ok,
    {
        Ok(())
    }
}

} // verus!

//! The request/response protocol that lets a worker thread drive block
//! storage owned by the thread that holds the relation: the worker sends one
//! request per storage operation and blocks until its response arrives; the
//! owning thread answers each request by performing the operation directly.

use vstd::prelude::*;

use crate::atomic::slot_pages;
use crate::codec::record_bytes;
use crate::directory::{
    all_data_pages, lock_block_of, reclaimed, slot_of, BlockingDirectory, BlockingLock,
};
use crate::error::DirectoryError;
use crate::page::StoreError;
use crate::segment::{
    entry_len, pages_needed, segment_bytes, segment_intact, SegmentHandleReader,
    SegmentHandleWriter,
};
use crate::segment_handle::{catalog_lookup, catalog_records, handle_matches, SegmentHandle};

verus! {

/// One storage operation asked for by the worker.
#[derive(Debug, PartialEq, Eq)]
pub enum ChannelRequest {
    AcquireLock(Vec<u8>),
    AtomicRead(Vec<u8>),
    AtomicWrite(Vec<u8>, Vec<u8>),
    ReleaseBlockingLock(BlockingLock),
    SegmentRead(usize, usize, SegmentHandle),
    SegmentWrite(Vec<u8>, Vec<u8>),
    SegmentDelete(Vec<u8>),
    GetSegmentHandle(Vec<u8>),
    ShouldDeleteCtids(Vec<u64>),
    Terminate,
}

/// The answer to one request.
#[derive(Debug, PartialEq, Eq)]
pub enum ChannelResponse {
    AtomicWriteAck,
    SegmentWriteAck,
    SegmentDeleteAck,
    AcquiredLock(BlockingLock),
    Bytes(Vec<u8>),
    SegmentHandle(Option<SegmentHandle>),
    ShouldDeleteCtids(Vec<u64>),
    /// The request failed on the owning thread with this error.
    Error(DirectoryError),
}

/// What the handling thread does after one request.
#[derive(Debug, PartialEq, Eq)]
pub enum HandlerStep {
    /// Send this response back.
    Reply(ChannelResponse),
    /// Nothing to send back.
    Continue,
    /// The worker is done: leave the receive loop.
    Stop,
}

/// What the handling thread reports once the worker is done.
#[derive(Clone, Copy, Debug, PartialEq, Eq, Structural)]
pub struct ChannelRequestStats {
    pub pages_deleted: usize,
}

/// The items of `ctids` whose decision in `keep` is true, in order.
pub open spec fn select(ctids: Seq<u64>, keep: Seq<bool>) -> Seq<u64>
    decreases ctids.len(),
{
    if ctids.len() == 0 {
        Seq::empty()
    } else {
        let rest = select(ctids.drop_last(), keep.subrange(0, keep.len() - 1));
        if keep.last() {
            rest.push(ctids.last())
        } else {
            rest
        }
    }
}

/// The ids of `ctids` for which `should_delete` says yes.
pub fn filter_ctids<F: Fn(u64) -> bool>(ctids: &Vec<u64>, should_delete: &F) -> (r: Vec<u64>)
    requires
        forall|c: u64| should_delete.requires((c,)),
    ensures
        exists|keep: Seq<bool>|
            keep.len() == ctids@.len() && (forall|i: int|
                0 <= i < ctids@.len() ==> should_delete.ensures((ctids@[i],), #[trigger] keep[i]))
                && r@ == select(ctids@, keep),
{
    let mut out: Vec<u64> = Vec::new();
    let ghost mut keep: Seq<bool> = Seq::empty();
    let mut i: usize = 0;
    while i < ctids.len()
        invariant
            forall|c: u64| should_delete.requires((c,)),
            i <= ctids@.len(),
            keep.len() == i,
            forall|k: int| 0 <= k < i ==> should_delete.ensures((ctids@[k],), #[trigger] keep[k]),
            out@ == select(ctids@.subrange(0, i as int), keep),
        decreases ctids@.len() - i,
    {
        let c = ctids[i];
        let yes = should_delete(c);
        let ghost prefix = ctids@.subrange(0, i + 1);
        let ghost old_keep = keep;
        proof {
            keep = keep.push(yes);
            assert(prefix.drop_last() =~= ctids@.subrange(0, i as int));
            assert(keep.subrange(0, keep.len() - 1) =~= old_keep);
            assert(prefix.last() == c);
        }
        if yes {
            out.push(c);
        }
        i = i + 1;
    }
    assert(ctids@.subrange(0, i as int) =~= ctids@);
    out
}

} // verus!

verus! {

/// Answers the worker's requests on the thread that owns the relation.
pub struct ChannelRequestHandler {
    pub directory: BlockingDirectory,
    pub stats: ChannelRequestStats,
}

pub open spec fn is_bytes_reply(r: HandlerStep, v: Seq<u8>) -> bool {
    r matches HandlerStep::Reply(ChannelResponse::Bytes(b)) && b@ == v
}

pub open spec fn error_reply(e: DirectoryError) -> HandlerStep {
    HandlerStep::Reply(ChannelResponse::Error(e))
}

impl ChannelRequestHandler {
    pub fn open(directory: BlockingDirectory) -> (r: ChannelRequestHandler)
        ensures
            r.directory == directory,
            r.stats.pages_deleted == 0,
    {
        ChannelRequestHandler { directory, stats: ChannelRequestStats { pages_deleted: 0 } }
    }

    /// Performs one request on the directory and says what to send back.
    /// Each request has the effect, and gets the answer, that the direct
    /// call on the directory has and gives; an error of the direct call is
    /// sent back as an `Error` reply, so the worker sees it.
    pub fn handle<F: Fn(u64) -> bool>(
        &mut self,
        request: ChannelRequest,
        should_delete: &Option<F>,
    ) -> (r: HandlerStep)
        requires
            old(self).directory.wf(),
            should_delete matches Some(f) ==> forall|c: u64| f.requires((c,)),
        ensures
            final(self).directory.wf(),
            ({
                let old_store = old(self).directory.store;
                let new_store = final(self).directory.store;
                match request {
                    ChannelRequest::AcquireLock(p) => match lock_block_of(p@) {
                        None => r == error_reply(DirectoryError::UnexpectedLock) && new_store
                            == old_store,
                        Some(b) => if old_store.locks@.contains(b) {
                            r == error_reply(DirectoryError::LockBusy) && new_store.locks@
                                == old_store.locks@ && new_store.pages@ == old_store.pages@
                        } else {
                            r == HandlerStep::Reply(
                                ChannelResponse::AcquiredLock(BlockingLock { blockno: b }),
                            ) && new_store.locks@ == old_store.locks@.push(b) && new_store.pages@
                                == old_store.pages@
                        },
                    },
                    ChannelRequest::AtomicRead(p) => new_store == old_store && match slot_of(p@) {
                        None => r == error_reply(DirectoryError::FileDoesNotExist),
                        Some(slot) => if old_store.slot_content(slot).len() == 0 {
                            r == error_reply(DirectoryError::FileDoesNotExist)
                        } else {
                            is_bytes_reply(r, old_store.slot_content(slot))
                        },
                    },
                    ChannelRequest::AtomicWrite(p, d) => match slot_of(p@) {
                        None => r == error_reply(DirectoryError::UnexpectedPath) && new_store
                            == old_store,
                        Some(slot) => (r == HandlerStep::Reply(ChannelResponse::AtomicWriteAck)
                            <==> slot_pages(d@.len() as int) <= old_store.spare()
                            + old_store.slot_chain(slot).len()) && (r == HandlerStep::Reply(
                            ChannelResponse::AtomicWriteAck,
                        ) ==> new_store.slot_content(slot) == d@) && (r != HandlerStep::Reply(
                            ChannelResponse::AtomicWriteAck,
                        ) ==> r == error_reply(DirectoryError::Store(StoreError::RelationFull))
                            && new_store == old_store) && crate::page::BlockStore::slot_frame(
                            &old_store,
                            &new_store,
                            slot,
                        ),
                    },
                    ChannelRequest::ReleaseBlockingLock(l) => r == HandlerStep::Continue
                        && !new_store.locks@.contains(l.blockno) && (forall|x: u32|
                        x != l.blockno ==> (#[trigger] new_store.locks@.contains(x)
                            <==> old_store.locks@.contains(x))) && new_store.pages@
                        == old_store.pages@,
                    ChannelRequest::SegmentRead(s, e, h) => new_store == old_store && ({
                        let total = h.total_bytes as int;
                        let stop = if e < total { e as int } else { total };
                        &&& (r == error_reply(DirectoryError::InvalidRange) <==> s >= stop)
                        &&& (r matches HandlerStep::Reply(ChannelResponse::Bytes(_)) || r
                            == error_reply(DirectoryError::InvalidRange) || r == error_reply(
                            DirectoryError::Store(StoreError::Corrupted),
                        ))
                        &&& (segment_intact(&old_store, h.blocks@, total, h.stamp) && s < stop
                            ==> is_bytes_reply(
                            r,
                            segment_bytes(&old_store, h.blocks@).subrange(s as int, stop),
                        ))
                    }),
                    ChannelRequest::SegmentWrite(p, d) => (r == HandlerStep::Reply(
                        ChannelResponse::SegmentWriteAck,
                    ) ==> exists|blocks: Seq<u32>, stamp: u64|
                        #[trigger] segment_intact(&new_store, blocks, d@.len() as int, stamp)
                            && segment_bytes(&new_store, blocks) == d@ && catalog_records(
                            &new_store,
                        ) == catalog_records(&old_store).push(
                            record_bytes(p@, blocks, d@.len() as nat, stamp as nat),
                        )) && (r != HandlerStep::Reply(ChannelResponse::SegmentWriteAck)
                        ==> new_store == old_store && r matches HandlerStep::Reply(
                        ChannelResponse::Error(_),
                    )) && (r == HandlerStep::Reply(ChannelResponse::SegmentWriteAck)
                        <==> old_store.next_stamp < u64::MAX && entry_len(p@, d@.len() as int)
                        + crate::page::ITEM_ID_SIZE <= crate::page::PAGE_SPACE && pages_needed(
                        &old_store,
                        p@,
                        d@.len() as int,
                    ) <= old_store.spare()),
                    ChannelRequest::SegmentDelete(p) => match catalog_lookup(&old_store, p@) {
                        Err(_) => r == error_reply(DirectoryError::Store(StoreError::Corrupted))
                            && new_store == old_store && final(self).stats == old(self).stats,
                        Ok(None) => r == HandlerStep::Reply(ChannelResponse::SegmentDeleteAck)
                            && new_store == old_store && final(self).stats == old(self).stats,
                        Ok(Some(e)) => r == HandlerStep::Reply(ChannelResponse::SegmentDeleteAck)
                            && exists|n: int|
                            reclaimed(&old_store, &new_store, e.1, n)
                                && (all_data_pages(&old_store, e.1) ==> n == e.1.len())
                                && final(self).stats.pages_deleted == if old(self).stats.pages_deleted + n > usize::MAX {
                                usize::MAX as int
                            } else {
                                old(self).stats.pages_deleted + n
                            },
                    },
                    ChannelRequest::GetSegmentHandle(p) => new_store == old_store && match catalog_lookup(
                        &old_store,
                        p@,
                    ) {
                        Err(_) => r == error_reply(DirectoryError::Store(StoreError::Corrupted)),
                        Ok(None) => r matches HandlerStep::Reply(
                            ChannelResponse::SegmentHandle(None),
                        ),
                        Ok(Some(e)) => r matches HandlerStep::Reply(
                            ChannelResponse::SegmentHandle(Some(h)),
                        ) && handle_matches(h, e),
                    },
                    ChannelRequest::ShouldDeleteCtids(c) => new_store == old_store && match should_delete {
                        None => r matches HandlerStep::Reply(
                            ChannelResponse::ShouldDeleteCtids(v),
                        ) && v@.len() == 0,
                        Some(f) => r matches HandlerStep::Reply(
                            ChannelResponse::ShouldDeleteCtids(v),
                        ) && exists|keep: Seq<bool>|
                            keep.len() == c@.len() && (forall|i: int|
                                0 <= i < c@.len() ==> f.ensures((c@[i],), #[trigger] keep[i]))
                                && v@ == select(c@, keep),
                    },
                    ChannelRequest::Terminate => r == HandlerStep::Stop && new_store == old_store,
                }
            }),
            !(request is SegmentDelete) ==> final(self).stats == old(self).stats,
    {
        match request {
            ChannelRequest::AcquireLock(path) => {
                match self.directory.acquire_blocking_lock(path.as_slice()) {
                    Ok(lock) => HandlerStep::Reply(ChannelResponse::AcquiredLock(lock)),
                    Err(e) => HandlerStep::Reply(ChannelResponse::Error(e)),
                }
            },
            ChannelRequest::AtomicRead(path) => {
                match self.directory.atomic_read(path.as_slice()) {
                    Ok(data) => HandlerStep::Reply(ChannelResponse::Bytes(data)),
                    Err(e) => HandlerStep::Reply(ChannelResponse::Error(e)),
                }
            },
            ChannelRequest::AtomicWrite(path, data) => {
                match self.directory.atomic_write(path.as_slice(), data.as_slice()) {
                    Ok(()) => HandlerStep::Reply(ChannelResponse::AtomicWriteAck),
                    Err(e) => HandlerStep::Reply(ChannelResponse::Error(e)),
                }
            },
            ChannelRequest::ReleaseBlockingLock(lock) => {
                self.directory.release_lock(lock);
                HandlerStep::Continue
            },
            ChannelRequest::SegmentRead(start, end, handle) => {
                let reader = SegmentHandleReader::new(handle);
                match reader.read_bytes(&self.directory.store, start, end) {
                    Ok(data) => HandlerStep::Reply(ChannelResponse::Bytes(data)),
                    Err(e) => HandlerStep::Reply(ChannelResponse::Error(e)),
                }
            },
            ChannelRequest::SegmentWrite(path, data) => {
                let mut writer = SegmentHandleWriter::new(path.as_slice());
                writer.write(data.as_slice());
                assert(writer.data@ =~= data@);
                match self.directory.terminate_write(&writer) {
                    Ok(()) => HandlerStep::Reply(ChannelResponse::SegmentWriteAck),
                    Err(e) => HandlerStep::Reply(ChannelResponse::Error(e)),
                }
            },
            ChannelRequest::SegmentDelete(path) => {
                match self.directory.delete_with_stats(path.as_slice()) {
                    Ok(n) => {
                        self.stats.pages_deleted = self.stats.pages_deleted.saturating_add(n);
                        HandlerStep::Reply(ChannelResponse::SegmentDeleteAck)
                    },
                    Err(e) => HandlerStep::Reply(ChannelResponse::Error(e)),
                }
            },
            ChannelRequest::GetSegmentHandle(path) => {
                match SegmentHandle::open(&self.directory.store, path.as_slice()) {
                    Ok(h) => HandlerStep::Reply(ChannelResponse::SegmentHandle(h)),
                    Err(e) => HandlerStep::Reply(ChannelResponse::Error(DirectoryError::Store(e))),
                }
            },
            ChannelRequest::ShouldDeleteCtids(ctids) => {
                match should_delete {
                    Some(f) => {
                        let kept = filter_ctids(&ctids, f);
                        HandlerStep::Reply(ChannelResponse::ShouldDeleteCtids(kept))
                    },
                    None => HandlerStep::Reply(ChannelResponse::ShouldDeleteCtids(Vec::new())),
                }
            },
            ChannelRequest::Terminate => HandlerStep::Stop,
        }
    }
}

} // verus!

verus! {

impl ChannelResponse {
    /// The bytes of a `Bytes` response; any other response breaks the
    /// protocol.
    pub fn into_bytes(self) -> (r: Result<Vec<u8>, DirectoryError>)
        ensures
            match self {
                ChannelResponse::Bytes(b) => r == Ok::<Vec<u8>, DirectoryError>(b),
                ChannelResponse::Error(e) => r == Err::<Vec<u8>, DirectoryError>(e),
                _ => r == Err::<Vec<u8>, DirectoryError>(DirectoryError::UnexpectedResponse),
            },
    {
        match self {
            ChannelResponse::Bytes(b) => Ok(b),
            ChannelResponse::Error(e) => Err(e),
            _ => Err(DirectoryError::UnexpectedResponse),
        }
    }

    /// The handle of a `SegmentHandle` response.
    pub fn into_segment_handle(self) -> (r: Result<Option<SegmentHandle>, DirectoryError>)
        ensures
            match self {
                ChannelResponse::SegmentHandle(h) => r == Ok::<
                    Option<SegmentHandle>,
                    DirectoryError,
                >(h),
                ChannelResponse::Error(e) => r == Err::<Option<SegmentHandle>, DirectoryError>(e),
                _ => r == Err::<Option<SegmentHandle>, DirectoryError>(
                    DirectoryError::UnexpectedResponse,
                ),
            },
    {
        match self {
            ChannelResponse::SegmentHandle(h) => Ok(h),
            ChannelResponse::Error(e) => Err(e),
            _ => Err(DirectoryError::UnexpectedResponse),
        }
    }

    /// The lock of an `AcquiredLock` response.
    pub fn into_lock(self) -> (r: Result<BlockingLock, DirectoryError>)
        ensures
            match self {
                ChannelResponse::AcquiredLock(l) => r == Ok::<BlockingLock, DirectoryError>(l),
                ChannelResponse::Error(e) => r == Err::<BlockingLock, DirectoryError>(e),
                _ => r == Err::<BlockingLock, DirectoryError>(DirectoryError::UnexpectedResponse),
            },
    {
        match self {
            ChannelResponse::AcquiredLock(l) => Ok(l),
            ChannelResponse::Error(e) => Err(e),
            _ => Err(DirectoryError::UnexpectedResponse),
        }
    }

    /// The ids of a `ShouldDeleteCtids` response.
    pub fn into_ctids(self) -> (r: Result<Vec<u64>, DirectoryError>)
        ensures
            match self {
                ChannelResponse::ShouldDeleteCtids(v) => r == Ok::<Vec<u64>, DirectoryError>(v),
                ChannelResponse::Error(e) => r == Err::<Vec<u64>, DirectoryError>(e),
                _ => r == Err::<Vec<u64>, DirectoryError>(DirectoryError::UnexpectedResponse),
            },
    {
        match self {
            ChannelResponse::ShouldDeleteCtids(v) => Ok(v),
            ChannelResponse::Error(e) => Err(e),
            _ => Err(DirectoryError::UnexpectedResponse),
        }
    }

    /// `Ok` when this is the acknowledgement that the write `request`
    /// expects, the carried error for an `Error` reply, and
    /// `UnexpectedResponse` for anything else, which breaks the protocol.
    pub fn into_ack(self, request: &ChannelRequest) -> (r: Result<(), DirectoryError>)
        ensures
            match (self, request) {
                (ChannelResponse::AtomicWriteAck, ChannelRequest::AtomicWrite(_, _)) => r is Ok,
                (ChannelResponse::SegmentWriteAck, ChannelRequest::SegmentWrite(_, _)) => r is Ok,
                (ChannelResponse::SegmentDeleteAck, ChannelRequest::SegmentDelete(_)) => r is Ok,
                (ChannelResponse::Error(e), _) => r == Err::<(), DirectoryError>(e),
                _ => r == Err::<(), DirectoryError>(DirectoryError::UnexpectedResponse),
            },
    {
        match (self, request) {
            (ChannelResponse::AtomicWriteAck, ChannelRequest::AtomicWrite(_, _)) => Ok(()),
            (ChannelResponse::SegmentWriteAck, ChannelRequest::SegmentWrite(_, _)) => Ok(()),
            (ChannelResponse::SegmentDeleteAck, ChannelRequest::SegmentDelete(_)) => Ok(()),
            (ChannelResponse::Error(e), _) => Err(e),
            _ => Err(DirectoryError::UnexpectedResponse),
        }
    }
}

} // verus!

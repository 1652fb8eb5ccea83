//! Segment files on pages: a writer buffers what the engine writes and, when
//! the file is finished, lays it out one chunk per page and registers it in
//! the catalog; a reader maps a byte range onto those pages.

use vstd::prelude::*;

use crate::atomic::first_chunk;
use crate::codec::{append_range, copy_range, record_bytes, record_fits, record_len};
use crate::error::DirectoryError;
use crate::page::{
    distinct, used_space, BlockStore, PageKind, StoreError, ITEM_ID_SIZE, MAX_BLOCKS,
    MAX_ITEM_SIZE, PAGE_SPACE,
};
use crate::segment_handle::{
    catalog_lookup, catalog_records, lemma_lookup_push, lemma_lookup_single, lemma_records_frame,
    page_used_space, SegmentHandle,
};

verus! {

/// Number of pages a segment of `len` bytes takes.
pub open spec fn chunk_count(len: int) -> int {
    (len + MAX_ITEM_SIZE - 1) / MAX_ITEM_SIZE as int
}

/// Length of the `i`-th of `n` chunks of a segment of `total` bytes.
pub open spec fn chunk_len(total: int, n: int, i: int) -> int {
    if i < n - 1 {
        MAX_ITEM_SIZE as int
    } else {
        total - MAX_ITEM_SIZE * (n - 1)
    }
}

/// The pages `blocks` hold a segment of `total` bytes written with `stamp`:
/// one full chunk per page, the last one holding the rest, each page still
/// carrying the stamp.
pub open spec fn segment_intact(store: &BlockStore, blocks: Seq<u32>, total: int, stamp: u64) -> bool {
    &&& blocks.len() == chunk_count(total)
    &&& distinct(blocks)
    &&& forall|i: int|
        0 <= i < blocks.len() ==> (#[trigger] blocks[i] as int) < store.len() && store.page(
            blocks[i],
        ).items@.len() >= 1 && first_chunk(store.page(blocks[i])).len() == chunk_len(
            total,
            blocks.len() as int,
            i,
        ) && store.page(blocks[i]).owner == stamp && store.page(blocks[i]).kind == PageKind::Data
}

/// Length of the catalog entry of a segment of `len` bytes under `path`.
pub open spec fn entry_len(path: Seq<u8>, len: int) -> int {
    24 + path.len() + 4 * chunk_count(len)
}

/// The catalog's last page can take an entry of `rec_len` bytes.
pub open spec fn tail_has_room(store: &BlockStore, rec_len: int) -> bool {
    used_space(store.page(store.insert_blockno).items@) + rec_len + ITEM_ID_SIZE <= PAGE_SPACE
}

/// Pages that finishing a segment of `len` bytes under `path` allocates:
/// one per chunk, and one for the catalog when its last page is full.
pub open spec fn pages_needed(store: &BlockStore, path: Seq<u8>, len: int) -> int {
    chunk_count(len) + if tail_has_room(store, entry_len(path, len)) {
        0int
    } else {
        1int
    }
}

/// The bytes of the pages `blocks[i..]`, concatenated.
pub open spec fn segment_from(store: &BlockStore, blocks: Seq<u32>, i: int) -> Seq<u8>
    decreases blocks.len() - i,
{
    if i < 0 || i >= blocks.len() {
        Seq::empty()
    } else {
        first_chunk(store.page(blocks[i])) + segment_from(store, blocks, i + 1)
    }
}

/// The content of the segment stored on `blocks`.
pub open spec fn segment_bytes(store: &BlockStore, blocks: Seq<u32>) -> Seq<u8> {
    segment_from(store, blocks, 0)
}

/// Writes to a segment file, buffered until the file is finished.
#[derive(Clone, Debug, PartialEq, Eq)]
pub struct SegmentHandleWriter {
    pub path: Vec<u8>,
    pub data: Vec<u8>,
}

impl SegmentHandleWriter {
    /// A writer for `path`.
    pub fn new(path: &[u8]) -> (r: SegmentHandleWriter)
        ensures
            r.path@ == path@,
            r.data@.len() == 0,
    {
        SegmentHandleWriter { path: copy_range(path, 0, path.len()), data: Vec::new() }
    }

    /// Buffers `bytes`; returns how many were taken: all of them.
    pub fn write(&mut self, bytes: &[u8]) -> (r: usize)
        ensures
            final(self).data@ == old(self).data@ + bytes@,
            final(self).path == old(self).path,
            r == bytes@.len(),
    {
        append_range(&mut self.data, bytes, 0, bytes.len());
        assert(bytes@.subrange(0, bytes@.len() as int) =~= bytes@);
        bytes.len()
    }

    /// Nothing reaches the pages before the file is finished.
    pub fn flush(&self) {
    }
}

pub proof fn lemma_chunk_count(len: int, k: int)
    requires
        k >= 0,
        len >= 0,
        (k == 0 && len == 0) || ((k - 1) * MAX_ITEM_SIZE < len <= k * MAX_ITEM_SIZE),
    ensures
        chunk_count(len) == k,
{
    if k > 0 {
        assert((len + 8156 - 1) / 8156 == k) by (nonlinear_arith)
            requires
                (k - 1) * 8156 < len <= k * 8156,
        ;
    }
}

/// The bytes of pages laid out from `data` are `data` again.
proof fn lemma_segment_from_data(store: &BlockStore, blocks: Seq<u32>, data: Seq<u8>, j: int)
    requires
        0 <= j <= blocks.len(),
        forall|i: int|
            0 <= i < blocks.len() ==> first_chunk(store.page(#[trigger] blocks[i])) == data.subrange(
                i * MAX_ITEM_SIZE,
                if (i + 1) * MAX_ITEM_SIZE < data.len() {
                    (i + 1) * MAX_ITEM_SIZE
                } else {
                    data.len() as int
                },
            ),
        blocks.len() == 0 || (blocks.len() - 1) * MAX_ITEM_SIZE < data.len(),
        data.len() <= blocks.len() * MAX_ITEM_SIZE,
    ensures
        segment_from(store, blocks, j) == data.subrange(
            if j * MAX_ITEM_SIZE < data.len() {
                j * MAX_ITEM_SIZE
            } else {
                data.len() as int
            },
            data.len() as int,
        ),
    decreases blocks.len() - j,
{
    if j == blocks.len() {
        assert(data.subrange(data.len() as int, data.len() as int) =~= Seq::<u8>::empty());
    } else {
        lemma_segment_from_data(store, blocks, data, j + 1);
        assert(j * MAX_ITEM_SIZE < data.len()) by (nonlinear_arith)
            requires
                j <= blocks.len() - 1,
                (blocks.len() - 1) * MAX_ITEM_SIZE < data.len(),
        ;
        assert(segment_from(store, blocks, j) =~= data.subrange(
            j * MAX_ITEM_SIZE,
            data.len() as int,
        ));
    }
}

/// `segment_from` reads only the pages on `blocks`.
proof fn lemma_segment_from_frame(old: &BlockStore, new: &BlockStore, blocks: Seq<u32>, j: int)
    requires
        0 <= j <= blocks.len(),
        forall|i: int|
            0 <= i < blocks.len() ==> new.page(#[trigger] blocks[i]) == old.page(blocks[i]),
    ensures
        segment_from(new, blocks, j) == segment_from(old, blocks, j),
    decreases blocks.len() - j,
{
    if j < blocks.len() {
        lemma_segment_from_frame(old, new, blocks, j + 1);
        assert(new.page(blocks[j]) == old.page(blocks[j]));
    }
}

impl SegmentHandleWriter {
    /// Lays the buffered bytes out one chunk per newly allocated data page
    /// and registers the file in the catalog. The record must fit a catalog
    /// page and the relation must have room for every page first, so a
    /// failed write changes nothing.
    #[verifier::rlimit(60)]
    pub fn terminate(&self, store: &mut BlockStore) -> (r: Result<SegmentHandle, StoreError>)
        requires
            old(store).wf(),
        ensures
            final(store).wf(),
            match r {
                Ok(h) => h.path@ == self.path@ && h.total_bytes as int == self.data@.len()
                    && h.stamp == old(store).next_stamp && record_fits(h.path@, h.blocks@)
                    && (forall|i: int|
                    0 <= i < h.blocks@.len() ==> (#[trigger] h.blocks@[i] as int) >= old(store).len()
                        || old(store).page(h.blocks@[i]).kind == PageKind::Free)
                    && segment_intact(final(store), h.blocks@, self.data@.len() as int, h.stamp)
                    && segment_bytes(final(store), h.blocks@) == self.data@ && catalog_records(
                    final(store),
                ) == catalog_records(old(store)).push(
                    record_bytes(h.path@, h.blocks@, h.total_bytes as nat, h.stamp as nat),
                ),
                Err(e) => *final(store) == *old(store) && (e == StoreError::OutOfStamps
                    <==> old(store).next_stamp == u64::MAX) && (e == StoreError::ItemTooLarge
                    <==> old(store).next_stamp < u64::MAX && entry_len(
                    self.path@,
                    self.data@.len() as int,
                ) + ITEM_ID_SIZE > PAGE_SPACE) && (e == StoreError::OutOfStamps || e
                    == StoreError::ItemTooLarge || e == StoreError::RelationFull),
            },
            r is Ok <==> old(store).next_stamp < u64::MAX && entry_len(
                self.path@,
                self.data@.len() as int,
            ) + ITEM_ID_SIZE <= PAGE_SPACE && pages_needed(
                old(store),
                self.path@,
                self.data@.len() as int,
            ) <= old(store).spare(),
            final(store).len() >= old(store).len(),
            forall|x: int|
                0 <= x < old(store).len() && (#[trigger] old(store).pages@[x]).kind
                    != PageKind::Catalog && old(store).pages@[x].kind != PageKind::Free
                    ==> final(store).pages@[x] == old(store).pages@[x],
            final(store).locks@ == old(store).locks@,
            final(store).meta_chain@ == old(store).meta_chain@,
            final(store).managed_chain@ == old(store).managed_chain@,
    {
        if store.next_stamp == u64::MAX {
            return Err(StoreError::OutOfStamps);
        }
        let len = self.data.len();
        let k: usize = len / MAX_ITEM_SIZE + if len % MAX_ITEM_SIZE == 0 {
            0
        } else {
            1
        };
        proof {
            lemma_chunk_count_exec(len as int);
        }
        if self.path.len() > PAGE_SPACE || k > PAGE_SPACE || 24 + self.path.len() + 4 * k
            + ITEM_ID_SIZE > PAGE_SPACE {
            return Err(StoreError::ItemTooLarge);
        }
        let rec_len = 24 + self.path.len() + 4 * k;
        proof {
            let cc = store.catalog_chain@;
            assert(cc[cc.len() - 1] == store.insert_blockno);
            assert((cc[cc.len() - 1] as int) < store.len());
        }
        let used = page_used_space(&store.pages[store.insert_blockno as usize]);
        let needed: usize = if used + rec_len + ITEM_ID_SIZE <= PAGE_SPACE {
            k
        } else {
            k + 1
        };
        let ext = MAX_BLOCKS - store.pages.len();
        if needed > ext && needed - ext > store.free.len() {
            return Err(StoreError::RelationFull);
        }
        let stamp = store.next_stamp;
        store.next_stamp = stamp + 1;
        let mut off: usize = 0;
        let mut blocks: Vec<u32> = Vec::new();
        let ghost s0 = store.spare();
        while off < len
            invariant
                store.wf(),
                len == self.data@.len(),
                off <= len,
                off == if blocks@.len() * MAX_ITEM_SIZE < len {
                    blocks@.len() * MAX_ITEM_SIZE
                } else {
                    len as int
                },
                blocks@.len() == 0 || (blocks@.len() - 1) * MAX_ITEM_SIZE < len,
                forall|i: int|
                    0 <= i < blocks@.len() ==> (#[trigger] blocks@[i] as int) < store.len()
                        && store.page(blocks@[i]).kind == PageKind::Data && store.page(blocks@[i]).owner == stamp && store.page(
                        blocks@[i],
                    ).items@.len() == 1 && first_chunk(store.page(blocks@[i]))
                        == self.data@.subrange(
                        i * MAX_ITEM_SIZE,
                        if (i + 1) * MAX_ITEM_SIZE < len {
                            (i + 1) * MAX_ITEM_SIZE
                        } else {
                            len as int
                        },
                    ),
                store.spare() == s0 - blocks@.len(),
                s0 == old(store).spare(),
                stamp == old(store).next_stamp,
                k == chunk_count(len as int),
                needed == pages_needed(old(store), self.path@, len as int),
                needed <= s0,
                distinct(blocks@),
                forall|i: int|
                    0 <= i < blocks@.len() ==> (#[trigger] blocks@[i] as int) >= old(store).len()
                        || old(store).page(blocks@[i]).kind == PageKind::Free,
                store.len() >= old(store).len(),
                forall|x: int|
                    0 <= x < old(store).len() && (#[trigger] old(store).pages@[x]).kind
                        != PageKind::Free ==> store.pages@[x] == old(store).pages@[x],
                store.locks@ == old(store).locks@,
                store.catalog_chain@ == old(store).catalog_chain@,
                store.insert_blockno == old(store).insert_blockno,
                store.meta_chain@ == old(store).meta_chain@,
                store.managed_chain@ == old(store).managed_chain@,
            decreases len - off,
        {
            let end: usize = if len - off < MAX_ITEM_SIZE {
                len
            } else {
                off + MAX_ITEM_SIZE
            };
            let ghost before = *store;
            let b = match store.new_buffer(PageKind::Data) {
                Ok(b) => b,
                Err(e) => {
                    proof {
                        assert(off == blocks@.len() * MAX_ITEM_SIZE);
                        lemma_more_chunks(len as int, blocks@.len() as int);
                        assert(store.spare() > 0);
                        assert(false);
                    }
                    return Err(e);
                },
            };
            let ghost after_alloc = *store;
            let chunk = copy_range(self.data.as_slice(), off, end);
            store.add_item(b, chunk);
            store.stamp_page(b, stamp);
            proof {
                assert forall|i: int| 0 <= i < blocks@.len() implies blocks@[i] != b by {
                    assert(before.page(blocks@[i]).kind == PageKind::Data);
                }
                if (b as int) < old(store).len() && old(store).page(b).kind != PageKind::Free {
                    assert(before.pages@[b as int] == old(store).pages@[b as int]);
                    assert(before.free@[before.free@.len() - 1] == b);
                }
            }
            let ghost kb = blocks@.len() as int;
            blocks.push(b);
            proof {
                assert(off == kb * MAX_ITEM_SIZE);
                assert((kb + 1) * MAX_ITEM_SIZE == kb * MAX_ITEM_SIZE + MAX_ITEM_SIZE) by (nonlinear_arith);
                assert forall|i: int|
                    0 <= i < blocks@.len() implies (#[trigger] blocks@[i] as int) < store.len()
                    && store.page(blocks@[i]).kind == PageKind::Data && store.page(blocks@[i]).owner == stamp && store.page(
                    blocks@[i],
                ).items@.len() == 1 && first_chunk(store.page(blocks@[i])) == self.data@.subrange(
                    i * MAX_ITEM_SIZE,
                    if (i + 1) * MAX_ITEM_SIZE < len {
                        (i + 1) * MAX_ITEM_SIZE
                    } else {
                        len as int
                    },
                ) by {
                    if i < kb {
                        assert(blocks@[i] != b);
                        assert(store.page(blocks@[i]) == before.page(blocks@[i]));
                    }
                }
                assert forall|x: int|
                    0 <= x < old(store).len() && (#[trigger] old(store).pages@[x]).kind
                        != PageKind::Free implies store.pages@[x] == old(store).pages@[x] by {
                    assert(before.pages@[x] == old(store).pages@[x]);
                    assert(x != b);
                }
            }
            off = end;
        }
        proof {
            let k = blocks@.len() as int;
            lemma_chunk_count(len as int, k);
            assert(k * MAX_ITEM_SIZE >= len);
        }
        let ghost laid_out = *store;
        proof {
            let cc = store.catalog_chain@;
            assert forall|k: int| 0 <= k < cc.len() implies store.page(#[trigger] cc[k]) == old(
                store,
            ).page(cc[k]) by {
                assert(old(store).page(cc[k]).kind == PageKind::Catalog);
            }
            lemma_records_frame(old(store), store, cc, 0);
        }
        match SegmentHandle::create(store, self.path.as_slice(), blocks.as_slice(), len, stamp) {
            Ok(()) => {},
            Err(e) => {
                proof {
                    let tail = old(store).insert_blockno;
                    assert(old(store).page(tail).kind == PageKind::Catalog) by {
                        let cc = old(store).catalog_chain@;
                        assert(cc[cc.len() - 1] == tail);
                    }
                    assert(laid_out.page(tail) == old(store).page(tail));
                    assert(record_len(self.path@, blocks@) == entry_len(self.path@, len as int));
                    if e == StoreError::RelationFull {
                        assert(laid_out.spare() == s0 - k);
                        assert(laid_out.spare() > 0);
                    }
                    assert(false);
                    assert(blocks@.len() == chunk_count(len as int));
                    assert(record_len(self.path@, blocks@) == record_len(
                        self.path@,
                        Seq::new(chunk_count(len as int) as nat, |i: int| 0u32),
                    ));
                    if e == StoreError::RelationFull {
                        assert(laid_out.alloc_target() is None);
                        assert(laid_out.spare() == 0);
                        assert(old(store).spare() == blocks@.len());
                    } else {
                        assert(e == StoreError::ItemTooLarge);
                    }
                }
                return Err(e);
            },
        }
        proof {
            let bl = blocks@;
            assert forall|i: int| 0 <= i < bl.len() implies store.page(#[trigger] bl[i])
                == laid_out.page(bl[i]) by {
                assert(laid_out.pages@[bl[i] as int].kind == PageKind::Data);
            }
            lemma_segment_from_frame(&laid_out, store, bl, 0);
            lemma_segment_from_data(&laid_out, bl, self.data@, 0);
            assert(self.data@.subrange(0, len as int) =~= self.data@);
            assert forall|i: int| 0 <= i < bl.len() implies (#[trigger] bl[i] as int) < store.len()
                && store.page(bl[i]).items@.len() >= 1 && first_chunk(store.page(bl[i])).len()
                == chunk_len(len as int, bl.len() as int, i) && store.page(bl[i]).owner == stamp by {
                assert(store.page(bl[i]) == laid_out.page(bl[i]));
                if i < bl.len() - 1 {
                    assert((i + 1) * MAX_ITEM_SIZE < len) by (nonlinear_arith)
                        requires
                            i + 1 <= bl.len() - 1,
                            (bl.len() - 1) * MAX_ITEM_SIZE < len,
                    ;
                    assert((i + 1) * MAX_ITEM_SIZE == i * MAX_ITEM_SIZE + MAX_ITEM_SIZE) by (nonlinear_arith);
                } else {
                    assert(i * MAX_ITEM_SIZE == MAX_ITEM_SIZE * (bl.len() - 1));
                    assert((i + 1) * MAX_ITEM_SIZE >= len);
                }
            }
            assert forall|x: int|
                0 <= x < old(store).len() && (#[trigger] old(store).pages@[x]).kind
                    != PageKind::Catalog && old(store).pages@[x].kind != PageKind::Free
                    implies store.pages@[x] == old(store).pages@[x] by {
                assert(laid_out.pages@[x] == old(store).pages@[x]);
            }
        }
        let path = copy_range(self.path.as_slice(), 0, self.path.len());
        assert(path@ =~= self.path@);
        assert(segment_intact(store, blocks@, len as int, stamp));
        assert(record_len(self.path@, blocks@) + ITEM_ID_SIZE <= PAGE_SPACE);
        assert(segment_bytes(store, blocks@) == self.data@);
        assert(catalog_records(store) == catalog_records(old(store)).push(
            record_bytes(self.path@, blocks@, len as nat, stamp as nat)));
        Ok(SegmentHandle { path, blocks, total_bytes: len, stamp })
    }
}

proof fn lemma_chunk_count_exec(len: int)
    requires
        len >= 0,
    ensures
        chunk_count(len) == len / MAX_ITEM_SIZE as int + if len % MAX_ITEM_SIZE as int == 0 {
            0int
        } else {
            1int
        },
{
    assert((len + 8156 - 1) / 8156 == len / 8156 + if len % 8156 == 0 {
        0int
    } else {
        1int
    }) by (nonlinear_arith)
        requires
            len >= 0,
    ;
}

proof fn lemma_more_chunks(len: int, k: int)
    requires
        k >= 0,
        k * MAX_ITEM_SIZE < len,
    ensures
        chunk_count(len) > k,
{
    assert((len + 8156 - 1) / 8156 > k) by (nonlinear_arith)
        requires
            k * 8156 < len,
    ;
}

/// Where a byte of an intact segment lives: byte `t` of chunk `j2` is byte
/// `(j2 - j) * MAX_ITEM_SIZE + t` of `segment_from(.., j)`.
pub proof fn lemma_segment_index(
    store: &BlockStore,
    blocks: Seq<u32>,
    total: int,
    stamp: u64,
    j: int,
)
    requires
        segment_intact(store, blocks, total, stamp),
        0 <= j <= blocks.len(),
    ensures
        segment_from(store, blocks, j).len() == if j < blocks.len() {
            total - j * MAX_ITEM_SIZE
        } else {
            0
        },
        forall|j2: int, t: int|
            j <= j2 < blocks.len() && 0 <= t < chunk_len(total, blocks.len() as int, j2)
                ==> #[trigger] segment_from(store, blocks, j)[(j2 - j) * MAX_ITEM_SIZE + t]
                == #[trigger] first_chunk(store.page(blocks[j2]))[t],
    decreases blocks.len() - j,
{
    let n = blocks.len() as int;
    if j < n {
        lemma_segment_index(store, blocks, total, stamp, j + 1);
        let c = first_chunk(store.page(blocks[j]));
        assert(c.len() == chunk_len(total, n, j));
        assert forall|j2: int, t: int|
            j <= j2 < n && 0 <= t < chunk_len(total, n, j2) implies #[trigger] segment_from(
            store,
            blocks,
            j,
        )[(j2 - j) * MAX_ITEM_SIZE + t] == #[trigger] first_chunk(store.page(blocks[j2]))[t] by {
            if j2 > j {
                assert((j2 - j) * MAX_ITEM_SIZE + t == MAX_ITEM_SIZE + ((j2 - (j + 1))
                    * MAX_ITEM_SIZE + t)) by (nonlinear_arith);
                assert(c.len() == MAX_ITEM_SIZE);
            }
        }
    }
}

/// Reads byte ranges of one segment file.
#[derive(Clone, Debug, PartialEq, Eq)]
pub struct SegmentHandleReader {
    pub handle: SegmentHandle,
}

impl SegmentHandleReader {
    pub fn new(handle: SegmentHandle) -> (r: SegmentHandleReader)
        ensures
            r.handle == handle,
    {
        SegmentHandleReader { handle }
    }

    /// The file's length, as the catalog records it.
    pub fn len(&self) -> (r: usize)
        ensures
            r == self.handle.total_bytes,
    {
        self.handle.total_bytes
    }

    /// Bytes `start..end` of the file, `end` clamped to its length. An
    /// empty range is an error.
    pub fn read_bytes(&self, store: &BlockStore, start: usize, end: usize) -> (r: Result<
        Vec<u8>,
        DirectoryError,
    >)
        requires
            store.wf(),
        ensures
            ({
                let total = self.handle.total_bytes as int;
                let stop = if end < total { end as int } else { total };
                &&& (r == Err::<Vec<u8>, DirectoryError>(DirectoryError::InvalidRange) <==> start
                    >= stop)
                &&& (segment_intact(store, self.handle.blocks@, total, self.handle.stamp) && start < stop ==> r is Ok
                    && r->Ok_0@ == segment_bytes(store, self.handle.blocks@).subrange(
                    start as int,
                    stop,
                ) && r->Ok_0@.len() == stop - start)
                &&& (r is Err ==> r == Err::<Vec<u8>, DirectoryError>(DirectoryError::InvalidRange)
                    || (r == Err::<Vec<u8>, DirectoryError>(
                    DirectoryError::Store(StoreError::Corrupted),
                ) && !segment_intact(store, self.handle.blocks@, total, self.handle.stamp)))
            }),
    {
        let total = self.handle.total_bytes;
        let stop: usize = if end < total {
            end
        } else {
            total
        };
        if start >= stop {
            return Err(DirectoryError::InvalidRange);
        }
        let blocks = &self.handle.blocks;
        let ghost content = segment_bytes(store, blocks@);
        let ghost intact = segment_intact(store, blocks@, total as int, self.handle.stamp);
        let n = blocks.len();
        let sb = start / MAX_ITEM_SIZE;
        let eb = stop / MAX_ITEM_SIZE;
        proof {
            if intact {
                lemma_segment_index(store, blocks@, total as int, self.handle.stamp, 0);
                assert forall|j2: int, t: int|
                    0 <= j2 < n && 0 <= t < chunk_len(total as int, n as int, j2) implies #[trigger] content[j2
                        * MAX_ITEM_SIZE + t] == #[trigger] first_chunk(store.page(blocks@[j2]))[t] by {
                    assert((j2 - 0) * MAX_ITEM_SIZE + t == j2 * MAX_ITEM_SIZE + t);
                    assert(segment_from(store, blocks@, 0)[(j2 - 0) * MAX_ITEM_SIZE + t]
                        == first_chunk(store.page(blocks@[j2]))[t]);
                }
                if n > 0 {
                    assert(total <= n * MAX_ITEM_SIZE) by (nonlinear_arith)
                        requires
                            n == (total + 8156 - 1) / 8156,
                    ;
                }
            }
        }
        let mut data: Vec<u8> = Vec::new();
        let mut i: usize = sb;
        while i <= eb && i < n
            invariant
                store.wf(),
                blocks@ == self.handle.blocks@,
                n == blocks@.len(),
                sb == start / MAX_ITEM_SIZE,
                eb == stop / MAX_ITEM_SIZE,
                start < stop <= total,
                stop == if end < total { end } else { total },
                total == self.handle.total_bytes,
                content == segment_bytes(store, blocks@),
                intact == segment_intact(store, blocks@, total as int, self.handle.stamp),
                sb <= i <= eb + 1,
                intact ==> content.len() == total,
                intact ==> (n == 0 || total <= n * MAX_ITEM_SIZE),
                intact ==> forall|j2: int, t: int|
                    0 <= j2 < n && 0 <= t < chunk_len(total as int, n as int, j2)
                        ==> #[trigger] content[j2 * MAX_ITEM_SIZE + t] == #[trigger] first_chunk(
                        store.page(blocks@[j2]),
                    )[t],
                intact ==> data@ == content.subrange(
                    start as int,
                    if i == sb {
                        start as int
                    } else if i * MAX_ITEM_SIZE < stop {
                        i * MAX_ITEM_SIZE
                    } else {
                        stop as int
                    },
                ),
            decreases eb + 1 - i,
        {
            let b = blocks[i];
            proof {
                if intact {
                    assert((blocks@[i as int] as int) < store.len() && store.page(
                        blocks@[i as int],
                    ).items@.len() >= 1 && store.page(blocks@[i as int]).owner == self.handle.stamp);
                }
            }
            if b as usize >= store.pages.len() {
                return Err(DirectoryError::Store(StoreError::Corrupted));
            }
            let page = &store.pages[b as usize];
            if page.items.len() == 0 || page.owner != self.handle.stamp {
                return Err(DirectoryError::Store(StoreError::Corrupted));
            }
            let item = &page.items[0];
            let s: usize = if i == sb {
                start % MAX_ITEM_SIZE
            } else {
                0
            };
            let e: usize = if i == eb {
                stop % MAX_ITEM_SIZE
            } else {
                MAX_ITEM_SIZE
            };
            if e > item.len() || s > e {
                proof {
                    if intact {
                        assert(first_chunk(store.page(b)) == item@);
                        assert(item@.len() == chunk_len(total as int, n as int, i as int));
                        if i == eb {
                            assert(stop == eb * MAX_ITEM_SIZE + stop % MAX_ITEM_SIZE);
                            if i == n - 1 {
                            }
                        }
                        if i == sb {
                            assert(start == sb * MAX_ITEM_SIZE + start % MAX_ITEM_SIZE);
                            if i == eb {
                                assert(stop == eb * MAX_ITEM_SIZE + stop % MAX_ITEM_SIZE);
                            }
                        }
                    }
                }
                return Err(DirectoryError::Store(StoreError::Corrupted));
            }
            let ghost before = data@;
            append_range(&mut data, item.as_slice(), s, e);
            proof {
                if intact {
                    assert(first_chunk(store.page(b)) == item@);
                    assert(item@.len() == chunk_len(total as int, n as int, i as int));
                    let base = i * MAX_ITEM_SIZE;
                    assert(start == sb * MAX_ITEM_SIZE + start % MAX_ITEM_SIZE);
                    assert(stop == eb * MAX_ITEM_SIZE + stop % MAX_ITEM_SIZE);
                    assert(i * MAX_ITEM_SIZE <= eb * MAX_ITEM_SIZE) by (nonlinear_arith)
                        requires
                            i <= eb,
                    ;
                    assert((i + 1) * MAX_ITEM_SIZE == i * MAX_ITEM_SIZE + MAX_ITEM_SIZE) by (nonlinear_arith);
                    if i < eb {
                        assert((i + 1) * MAX_ITEM_SIZE <= eb * MAX_ITEM_SIZE) by (nonlinear_arith)
                            requires
                                i + 1 <= eb,
                        ;
                    }
                    if i > sb {
                        assert(sb * MAX_ITEM_SIZE < i * MAX_ITEM_SIZE) by (nonlinear_arith)
                            requires
                                sb < i,
                        ;
                    }
                    assert(content.subrange(base + s, base + e) =~= item@.subrange(
                        s as int,
                        e as int,
                    )) by {
                        assert forall|t: int| 0 <= t < e - s implies content.subrange(
                            base + s,
                            base + e,
                        )[t] == item@.subrange(s as int, e as int)[t] by {
                            assert(content[i * MAX_ITEM_SIZE + (s + t)] == first_chunk(
                                store.page(blocks@[i as int]),
                            )[s + t]);
                        }
                    }
                    assert(data@ =~= content.subrange(
                        start as int,
                        if i + 1 == sb {
                            start as int
                        } else if (i + 1) * MAX_ITEM_SIZE < stop {
                            (i + 1) * MAX_ITEM_SIZE
                        } else {
                            stop as int
                        },
                    ));
                }
            }
            i = i + 1;
        }
        proof {
            if intact {
                if i < eb + 1 {
                    assert(i == n);
                    assert(n * MAX_ITEM_SIZE >= stop);
                } else {
                    assert(stop == eb * MAX_ITEM_SIZE + stop % MAX_ITEM_SIZE);
                    assert((eb + 1) * MAX_ITEM_SIZE == eb * MAX_ITEM_SIZE + MAX_ITEM_SIZE) by (nonlinear_arith);
                }
            }
        }
        Ok(data)
    }
}

/// Round trip for segment files: once the bytes `data` of a path that the
/// catalog did not know are laid out on `blocks` and registered, the path
/// is found with those blocks and that length, and reading the whole range
/// gives `data` back.
pub proof fn lemma_segment_round_trip(
    s0: &BlockStore,
    s1: &BlockStore,
    path: Seq<u8>,
    blocks: Seq<u32>,
    data: Seq<u8>,
    stamp: u64,
)
    requires
        catalog_lookup(s0, path) == Ok::<Option<(Seq<u8>, Seq<u32>, nat, nat)>, ()>(None),
        record_fits(path, blocks),
        data.len() <= usize::MAX,
        catalog_records(s1) == catalog_records(s0).push(
            record_bytes(path, blocks, data.len() as nat, stamp as nat),
        ),
        segment_intact(s1, blocks, data.len() as int, stamp),
        segment_bytes(s1, blocks) == data,
    ensures
        catalog_lookup(s1, path) == Ok::<Option<(Seq<u8>, Seq<u32>, nat, nat)>, ()>(
            Some((path, blocks, data.len() as nat, stamp as nat)),
        ),
        segment_bytes(s1, blocks).subrange(0, data.len() as int) == data,
{
    lemma_lookup_push(
        catalog_records(s0),
        record_bytes(path, blocks, data.len() as nat, stamp as nat),
        path,
    );
    lemma_lookup_single(path, blocks, data.len() as nat, stamp as nat, path);
    assert(data.subrange(0, data.len() as int) =~= data);
}

} // verus!

//! The relation's pages: a page holds a list of items and a trailer word that
//! links it to the next page of a chain. Pages are handed out from a free list
//! before the relation is extended.

use vstd::prelude::*;

verus! {

/// Block number that stands for "no page" / "end of chain".
pub const INVALID_BLOCKNO: u32 = 0xFFFF_FFFF;

/// Holds the metadata of the whole index.
pub const METADATA_BLOCKNO: u32 = 0;

/// First page of the segment handle catalog.
pub const SEGMENT_HANDLE_BLOCKNO: u32 = 1;

/// Page locked for the engine's writer lock.
pub const INDEX_WRITER_LOCK_BLOCKNO: u32 = 2;

/// First page of the engine's meta file.
pub const TANTIVY_META_BLOCKNO: u32 = 3;

/// First page of the engine's managed-file list.
pub const TANTIVY_MANAGED_BLOCKNO: u32 = 4;

/// Page locked for the engine's meta lock.
pub const META_LOCK_BLOCKNO: u32 = 5;

/// Page locked for the managed-file lock.
pub const MANAGED_LOCK_BLOCKNO: u32 = 6;

/// Number of pages laid out when the index is created.
pub const RESERVED_BLOCKS: u32 = 7;

/// Bytes of a page available to items and their line pointers.
pub const PAGE_SPACE: usize = 8160;

/// Size of the line pointer that each item costs besides its bytes.
pub const ITEM_ID_SIZE: usize = 4;

/// Largest item that fits on an empty page; also the payload of one data page.
pub const MAX_ITEM_SIZE: usize = 8156;

/// Largest number of pages a relation can have.
pub const MAX_BLOCKS: usize = 0xFFFF_FFFE;

/// What a page is used for.
#[derive(Clone, Copy, Debug, PartialEq, Eq, Structural)]
pub enum PageKind {
    Meta,
    Catalog,
    Slot,
    Lock,
    Data,
    Free,
}

/// One page of the relation.
#[derive(Clone, Debug, PartialEq, Eq)]
pub struct Page {
    /// The page's items, at offsets 1, 2, ...
    pub items: Vec<Vec<u8>>,
    /// Trailer: the next page of the chain this page belongs to.
    pub next_blockno: u32,
    pub kind: PageKind,
    /// Trailer of a data page: the stamp of the segment write that filled it.
    pub owner: u64,
}

/// Errors of the storage layer.
#[derive(Clone, Copy, Debug, PartialEq, Eq, Structural)]
pub enum StoreError {
    /// The relation cannot be extended any further.
    RelationFull,
    /// An item is too large for a page.
    ItemTooLarge,
    /// Stored data does not have the shape this layer wrote.
    Corrupted,
    /// Every stamp for segment writes has been used.
    OutOfStamps,
}

/// Space that a list of items takes on a page.
pub open spec fn used_space(items: Seq<Vec<u8>>) -> nat
    decreases items.len(),
{
    if items.len() == 0 {
        0
    } else {
        (used_space(items.drop_last()) + items.last()@.len() + ITEM_ID_SIZE) as nat
    }
}

/// A page fresh from allocation: no items, no successor.
pub open spec fn is_empty_page(p: Page, kind: PageKind) -> bool {
    p.items@.len() == 0 && p.next_blockno == INVALID_BLOCKNO && p.kind == kind
}

pub open spec fn is_lock_block(b: u32) -> bool {
    b == INDEX_WRITER_LOCK_BLOCKNO || b == META_LOCK_BLOCKNO || b == MANAGED_LOCK_BLOCKNO
}

pub open spec fn distinct(s: Seq<u32>) -> bool {
    forall|i: int, j: int| 0 <= i < j < s.len() ==> s[i] != s[j]
}

/// The pages of the relation together with its free-page list and the page
/// locks that are held.
pub struct BlockStore {
    pub pages: Vec<Page>,
    /// Pages recorded as reusable; the last one is handed out first.
    pub free: Vec<u32>,
    /// Blocks whose page lock is held.
    pub locks: Vec<u32>,
    /// Trailer of the metadata page: the catalog page that takes new entries.
    pub insert_blockno: u32,
    /// Stamp that the next segment write gives its pages.
    pub next_stamp: u64,
    /// The pages of the catalog, in chain order.
    pub catalog_chain: Ghost<Seq<u32>>,
    /// The pages of the meta slot, in chain order.
    pub meta_chain: Ghost<Seq<u32>>,
    /// The pages of the managed slot, in chain order.
    pub managed_chain: Ghost<Seq<u32>>,
}

impl BlockStore {
    pub open spec fn len(&self) -> int {
        self.pages@.len() as int
    }

    pub open spec fn page(&self, b: u32) -> Page {
        self.pages@[b as int]
    }

    /// `chain` lists the pages reached from `head` by following trailers,
    /// each of kind `kind`, ending with a page whose trailer is invalid.
    pub open spec fn chain_ok(&self, chain: Seq<u32>, head: u32, kind: PageKind) -> bool {
        &&& chain.len() >= 1
        &&& chain[0] == head
        &&& distinct(chain)
        &&& forall|i: int|
            0 <= i < chain.len() ==> (#[trigger] chain[i] as int) < self.len() && self.page(
                chain[i],
            ).kind == kind
        &&& forall|i: int|
            0 <= i < chain.len() - 1 ==> #[trigger] self.page(chain[i]).next_blockno == chain[i
                + 1]
        &&& self.page(chain.last()).next_blockno == INVALID_BLOCKNO
    }

    pub open spec fn wf(&self) -> bool {
        &&& RESERVED_BLOCKS <= self.len() <= MAX_BLOCKS
        &&& forall|b: int|
            0 <= b < self.len() ==> used_space(#[trigger] self.pages@[b].items@) <= PAGE_SPACE
        &&& self.page(METADATA_BLOCKNO).kind == PageKind::Meta
        &&& self.page(INDEX_WRITER_LOCK_BLOCKNO).kind == PageKind::Lock
        &&& self.page(META_LOCK_BLOCKNO).kind == PageKind::Lock
        &&& self.page(MANAGED_LOCK_BLOCKNO).kind == PageKind::Lock
        &&& distinct(self.free@)
        &&& forall|i: int|
            0 <= i < self.free@.len() ==> RESERVED_BLOCKS <= #[trigger] self.free@[i]
                && (self.free@[i] as int) < self.len() && self.page(self.free@[i]).kind
                == PageKind::Free
        &&& distinct(self.locks@)
        &&& forall|i: int| 0 <= i < self.locks@.len() ==> is_lock_block(#[trigger] self.locks@[i])
        &&& self.chain_ok(self.catalog_chain@, SEGMENT_HANDLE_BLOCKNO, PageKind::Catalog)
        &&& self.insert_blockno == self.catalog_chain@.last()
        &&& self.chain_ok(self.meta_chain@, TANTIVY_META_BLOCKNO, PageKind::Slot)
        &&& self.chain_ok(self.managed_chain@, TANTIVY_MANAGED_BLOCKNO, PageKind::Slot)
        &&& forall|i: int, j: int|
            0 <= i < self.meta_chain@.len() && 0 <= j < self.managed_chain@.len()
                ==> #[trigger] self.meta_chain@[i] != #[trigger] self.managed_chain@[j]
        &&& forall|b: int|
            0 <= b < self.len() && #[trigger] self.pages@[b].kind == PageKind::Slot
                ==> self.pages@[b].items@.len() <= 1
    }

    /// The block the next allocation hands out, if any.
    pub open spec fn alloc_target(&self) -> Option<u32> {
        if self.free@.len() > 0 {
            Some(self.free@.last())
        } else if self.len() < MAX_BLOCKS {
            Some(self.len() as u32)
        } else {
            None
        }
    }

    /// Allocation leaves every other part of the store as it was.
    pub open spec fn allocated(old: &BlockStore, new: &BlockStore, b: u32, kind: PageKind) -> bool {
        &&& old.alloc_target() == Some(b)
        &&& new.len() == if b as int == old.len() { old.len() + 1 } else { old.len() }
        &&& is_empty_page(new.page(b), kind)
        &&& forall|x: int| 0 <= x < old.len() && x != b ==> new.pages@[x] == old.pages@[x]
        &&& new.free@ == if old.free@.len() > 0 { old.free@.drop_last() } else { old.free@ }
        &&& new.locks@ == old.locks@
        &&& new.insert_blockno == old.insert_blockno
        &&& new.next_stamp == old.next_stamp
        &&& new.catalog_chain@ == old.catalog_chain@
        &&& new.meta_chain@ == old.meta_chain@
        &&& new.managed_chain@ == old.managed_chain@
    }

    /// Lays out the pages of a new index: the metadata page, the first
    /// catalog page, the two slots and the three lock pages.
    pub fn create_index() -> (r: BlockStore)
        ensures
            r.wf(),
            r.len() == RESERVED_BLOCKS,
            r.free@.len() == 0,
            r.locks@.len() == 0,
            r.catalog_chain@ == seq![SEGMENT_HANDLE_BLOCKNO],
            r.meta_chain@ == seq![TANTIVY_META_BLOCKNO],
            r.managed_chain@ == seq![TANTIVY_MANAGED_BLOCKNO],
            forall|b: int| 0 <= b < r.len() ==> (#[trigger] r.pages@[b]).items@.len() == 0,
    {
        let mut pages: Vec<Page> = Vec::new();
        pages.push(Page::new_empty(PageKind::Meta));
        pages.push(Page::new_empty(PageKind::Catalog));
        pages.push(Page::new_empty(PageKind::Lock));
        pages.push(Page::new_empty(PageKind::Slot));
        pages.push(Page::new_empty(PageKind::Slot));
        pages.push(Page::new_empty(PageKind::Lock));
        pages.push(Page::new_empty(PageKind::Lock));
        let ghost cat = seq![SEGMENT_HANDLE_BLOCKNO];
        let ghost meta = seq![TANTIVY_META_BLOCKNO];
        let ghost managed = seq![TANTIVY_MANAGED_BLOCKNO];
        let r = BlockStore {
            pages,
            free: Vec::new(),
            locks: Vec::new(),
            insert_blockno: SEGMENT_HANDLE_BLOCKNO,
            next_stamp: 1,
            catalog_chain: Ghost(cat),
            meta_chain: Ghost(meta),
            managed_chain: Ghost(managed),
        };
        assert forall|b: int| 0 <= b < r.len() implies used_space(
            #[trigger] r.pages@[b].items@,
        ) <= PAGE_SPACE by {
            assert(r.pages@[b].items@.len() == 0);
        }
        r
    }

    /// Hands out a page for `kind`: the most recently freed page if there is
    /// one, else a new page at the end of the relation.
    pub fn new_buffer(&mut self, kind: PageKind) -> (r: Result<u32, StoreError>)
        requires
            old(self).wf(),
            kind != PageKind::Free,
        ensures
            final(self).wf(),
            match r {
                Ok(b) => BlockStore::allocated(old(self), final(self), b, kind),
                Err(e) => e == StoreError::RelationFull && old(self).alloc_target() is None
                    && *final(self) == *old(self),
            },
    {
        let ghost old_self = *self;
        if self.free.len() > 0 {
            let b = self.free.pop().unwrap();
            self.pages.set(b as usize, Page::new_empty(kind));
            proof {
                assert(self.free@ =~= old_self.free@.drop_last());
                assert(old_self.free@[old_self.free@.len() - 1] == b);
                assert(old_self.pages@[b as int].kind == PageKind::Free);
                self.lemma_chains_frame(&old_self);
                assert(self.wf()) by {
                    assert forall|i: int|
                        0 <= i < self.free@.len() implies RESERVED_BLOCKS
                        <= #[trigger] self.free@[i] && (self.free@[i] as int) < self.len()
                        && self.page(self.free@[i]).kind == PageKind::Free by {
                        assert(old_self.free@[i] == self.free@[i]);
                        assert(self.free@[i] != b);
                    }
                    assert forall|x: int| 0 <= x < self.len() implies used_space(
                        #[trigger] self.pages@[x].items@,
                    ) <= PAGE_SPACE by {
                        if x != b {
                            assert(self.pages@[x] == old_self.pages@[x]);
                        } else {
                            assert(self.pages@[x].items@.len() == 0);
                        }
                    }
                    assert forall|x: int|
                        0 <= x < self.len() && #[trigger] self.pages@[x].kind == PageKind::Slot
                        implies self.pages@[x].items@.len() <= 1 by {
                        if x != b {
                            assert(self.pages@[x] == old_self.pages@[x]);
                        }
                    }
                }
            }
            Ok(b)
        } else if self.pages.len() < MAX_BLOCKS {
            let b = self.pages.len() as u32;
            self.pages.push(Page::new_empty(kind));
            proof {
                self.lemma_chains_frame(&old_self);
                assert(self.wf()) by {
                    assert forall|x: int| 0 <= x < self.len() implies used_space(
                        #[trigger] self.pages@[x].items@,
                    ) <= PAGE_SPACE by {
                        if x != b {
                            assert(self.pages@[x] == old_self.pages@[x]);
                        } else {
                            assert(self.pages@[x].items@.len() == 0);
                        }
                    }
                    assert forall|x: int|
                        0 <= x < self.len() && #[trigger] self.pages@[x].kind == PageKind::Slot
                        implies self.pages@[x].items@.len() <= 1 by {
                        if x != b {
                            assert(self.pages@[x] == old_self.pages@[x]);
                        }
                    }
                }
            }
            Ok(b)
        } else {
            Err(StoreError::RelationFull)
        }
    }

    /// Adds `item` after the last item of page `b`.
    pub fn add_item(&mut self, b: u32, item: Vec<u8>)
        requires
            old(self).wf(),
            (b as int) < old(self).len(),
            used_space(old(self).page(b).items@) + item@.len() + ITEM_ID_SIZE <= PAGE_SPACE,
            old(self).page(b).kind == PageKind::Slot ==> old(self).page(b).items@.len() == 0,
        ensures
            final(self).wf(),
            final(self).len() == old(self).len(),
            final(self).page(b).items@ == old(self).page(b).items@.push(item),
            final(self).page(b).kind == old(self).page(b).kind,
            final(self).page(b).next_blockno == old(self).page(b).next_blockno,
            forall|x: int| 0 <= x < old(self).len() && x != b ==> final(self).pages@[x] == old(self).pages@[x],
            final(self).free@ == old(self).free@,
            final(self).locks@ == old(self).locks@,
            final(self).insert_blockno == old(self).insert_blockno,
            final(self).next_stamp == old(self).next_stamp,
            final(self).catalog_chain@ == old(self).catalog_chain@,
            final(self).meta_chain@ == old(self).meta_chain@,
            final(self).managed_chain@ == old(self).managed_chain@,
    {
        let ghost old_self = *self;
        self.pages[b as usize].items.push(item);
        proof {
            assert(self.page(b).items@.drop_last() =~= old_self.page(b).items@);
            self.lemma_chains_frame(&old_self);
            assert forall|x: int| 0 <= x < self.len() implies used_space(
                #[trigger] self.pages@[x].items@,
            ) <= PAGE_SPACE by {
                if x != b {
                    assert(self.pages@[x] == old_self.pages@[x]);
                }
            }
            assert forall|x: int|
                0 <= x < self.len() && #[trigger] self.pages@[x].kind == PageKind::Slot
                implies self.pages@[x].items@.len() <= 1 by {
                if x != b {
                    assert(self.pages@[x] == old_self.pages@[x]);
                }
            }
        }
    }

    /// Marks page `b` as filled by the segment write `stamp`.
    pub fn stamp_page(&mut self, b: u32, stamp: u64)
        requires
            old(self).wf(),
            (b as int) < old(self).len(),
        ensures
            final(self).wf(),
            final(self).len() == old(self).len(),
            final(self).page(b).items == old(self).page(b).items,
            final(self).page(b).kind == old(self).page(b).kind,
            final(self).page(b).next_blockno == old(self).page(b).next_blockno,
            final(self).page(b).owner == stamp,
            forall|x: int| 0 <= x < old(self).len() && x != b ==> final(self).pages@[x] == old(self).pages@[x],
            final(self).free@ == old(self).free@,
            final(self).locks@ == old(self).locks@,
            final(self).insert_blockno == old(self).insert_blockno,
            final(self).next_stamp == old(self).next_stamp,
            final(self).catalog_chain@ == old(self).catalog_chain@,
            final(self).meta_chain@ == old(self).meta_chain@,
            final(self).managed_chain@ == old(self).managed_chain@,
    {
        let ghost old_self = *self;
        self.pages[b as usize].owner = stamp;
        proof {
            self.lemma_chains_frame(&old_self);
            assert forall|x: int| 0 <= x < self.len() implies used_space(
                #[trigger] self.pages@[x].items@,
            ) <= PAGE_SPACE by {
                assert(self.pages@[x].items == old_self.pages@[x].items);
            }
            assert forall|x: int|
                0 <= x < self.len() && #[trigger] self.pages@[x].kind == PageKind::Slot
                implies self.pages@[x].items@.len() <= 1 by {
                assert(self.pages@[x].items == old_self.pages@[x].items);
            }
        }
    }

    /// The three chains stay valid when no catalog or slot page changed its
    /// kind or its trailer and the relation did not shrink.
    pub proof fn lemma_chains_frame(&self, old: &BlockStore)
        requires
            old.wf(),
            self.len() >= old.len(),
            forall|x: int|
                0 <= x < old.len() && ((#[trigger] old.pages@[x]).kind == PageKind::Catalog
                    || old.pages@[x].kind == PageKind::Slot) ==> self.pages@[x].kind
                    == old.pages@[x].kind && self.pages@[x].next_blockno
                    == old.pages@[x].next_blockno,
            self.catalog_chain@ == old.catalog_chain@,
            self.meta_chain@ == old.meta_chain@,
            self.managed_chain@ == old.managed_chain@,
        ensures
            self.chain_ok(self.catalog_chain@, SEGMENT_HANDLE_BLOCKNO, PageKind::Catalog),
            self.chain_ok(self.meta_chain@, TANTIVY_META_BLOCKNO, PageKind::Slot),
            self.chain_ok(self.managed_chain@, TANTIVY_MANAGED_BLOCKNO, PageKind::Slot),
    {
        old.lemma_chain_frame(self, old.catalog_chain@, SEGMENT_HANDLE_BLOCKNO, PageKind::Catalog);
        old.lemma_chain_frame(self, old.meta_chain@, TANTIVY_META_BLOCKNO, PageKind::Slot);
        old.lemma_chain_frame(self, old.managed_chain@, TANTIVY_MANAGED_BLOCKNO, PageKind::Slot);
    }

    /// A chain stays valid in `new` when no page of its kind changed its kind
    /// or its trailer and the relation did not shrink.
    pub proof fn lemma_chain_frame(
        &self,
        new: &BlockStore,
        chain: Seq<u32>,
        head: u32,
        kind: PageKind,
    )
        requires
            self.chain_ok(chain, head, kind),
            new.len() >= self.len(),
            forall|x: int|
                0 <= x < self.len() && (#[trigger] self.pages@[x]).kind == kind ==> new.pages@[x].kind
                    == kind && new.pages@[x].next_blockno == self.pages@[x].next_blockno,
        ensures
            new.chain_ok(chain, head, kind),
    {
        assert forall|i: int| 0 <= i < chain.len() implies new.pages@[chain[i] as int].kind
            == kind && new.pages@[chain[i] as int].next_blockno == self.pages@[chain[i] as int].next_blockno by {
            assert(self.pages@[chain[i] as int].kind == kind);
        }
        assert forall|i: int| 0 <= i < chain.len() - 1 implies #[trigger] new.page(
            chain[i],
        ).next_blockno == chain[i + 1] by {
            assert(self.pages@[chain[i] as int].kind == kind);
        }
        assert(self.pages@[chain.last() as int].kind == kind);
    }
}

impl BlockStore {
    /// Like `lemma_chain_frame`, looking only at the pages on the chain.
    pub proof fn lemma_chain_members_frame(
        &self,
        new: &BlockStore,
        chain: Seq<u32>,
        head: u32,
        kind: PageKind,
    )
        requires
            self.chain_ok(chain, head, kind),
            new.len() >= self.len(),
            forall|i: int|
                0 <= i < chain.len() ==> new.pages@[#[trigger] chain[i] as int].kind == kind
                    && new.pages@[chain[i] as int].next_blockno == self.pages@[chain[i] as int].next_blockno,
        ensures
            new.chain_ok(chain, head, kind),
    {
        assert forall|i: int| 0 <= i < chain.len() - 1 implies #[trigger] new.page(
            chain[i],
        ).next_blockno == chain[i + 1] by {
            assert(new.pages@[chain[i] as int].next_blockno == self.pages@[chain[i] as int].next_blockno);
        }
        assert(new.pages@[chain[chain.len() - 1] as int].next_blockno == self.pages@[chain[chain.len() - 1] as int].next_blockno);
    }

    /// Pages that allocation can still hand out: free pages and room to
    /// extend the relation.
    pub open spec fn spare(&self) -> int {
        self.free@.len() + MAX_BLOCKS - self.len()
    }
}

impl BlockStore {
    proof fn lemma_data_page_not_reserved(&self, b: u32)
        requires
            self.wf(),
            (b as int) < self.len(),
            self.page(b).kind == PageKind::Data,
        ensures
            RESERVED_BLOCKS <= b,
            !self.catalog_chain@.contains(b),
            !self.meta_chain@.contains(b),
            !self.managed_chain@.contains(b),
    {
        assert(self.catalog_chain@[0] == SEGMENT_HANDLE_BLOCKNO);
        assert(self.meta_chain@[0] == TANTIVY_META_BLOCKNO);
        assert(self.managed_chain@[0] == TANTIVY_MANAGED_BLOCKNO);
        if self.catalog_chain@.contains(b) {
            let k = choose|k: int| 0 <= k < self.catalog_chain@.len() && self.catalog_chain@[k] == b;
        }
        if self.meta_chain@.contains(b) {
            let k = choose|k: int| 0 <= k < self.meta_chain@.len() && self.meta_chain@[k] == b;
        }
        if self.managed_chain@.contains(b) {
            let k = choose|k: int| 0 <= k < self.managed_chain@.len() && self.managed_chain@[k] == b;
        }
    }

    /// Clears data page `b` and records it as free; returns whether `b` was
    /// a data page.
    pub fn reclaim_data_page(&mut self, b: u32) -> (r: bool)
        requires
            old(self).wf(),
        ensures
            final(self).wf(),
            r == ((b as int) < old(self).len() && old(self).page(b).kind == PageKind::Data),
            r ==> final(self).free@ == old(self).free@.push(b) && is_empty_page(
                final(self).page(b),
                PageKind::Free,
            ) && final(self).len() == old(self).len() && (forall|x: int|
                0 <= x < old(self).len() && x != b ==> final(self).pages@[x] == old(self).pages@[x])
                && final(self).locks@ == old(self).locks@ && final(self).insert_blockno == old(
                self,
            ).insert_blockno && final(self).catalog_chain@ == old(self).catalog_chain@
                && final(self).meta_chain@ == old(self).meta_chain@ && final(self).managed_chain@
                == old(self).managed_chain@,
            !r ==> *final(self) == *old(self),
    {
        if b as usize >= self.pages.len() || self.pages[b as usize].kind != PageKind::Data {
            return false;
        }
        let ghost old_self = *self;
        proof {
            self.lemma_data_page_not_reserved(b);
        }
        self.pages.set(b as usize, Page::new_empty(PageKind::Free));
        self.free.push(b);
        proof {
            assert forall|x: int|
                0 <= x < old_self.len() && ((#[trigger] old_self.pages@[x]).kind == PageKind::Catalog
                    || old_self.pages@[x].kind == PageKind::Slot) implies self.pages@[x].kind
                == old_self.pages@[x].kind && self.pages@[x].next_blockno
                == old_self.pages@[x].next_blockno by {
                assert(x != b);
            }
            self.lemma_chains_frame(&old_self);
            assert forall|i: int| 0 <= i < old_self.free@.len() implies old_self.free@[i] != b by {
                assert(old_self.page(old_self.free@[i]).kind == PageKind::Free);
            }
            assert forall|i: int|
                0 <= i < self.free@.len() implies RESERVED_BLOCKS <= #[trigger] self.free@[i]
                && (self.free@[i] as int) < self.len() && self.page(self.free@[i]).kind
                == PageKind::Free by {
                if i < old_self.free@.len() {
                    assert(self.free@[i] == old_self.free@[i]);
                    assert(old_self.free@[i] != b);
                }
            }
            assert forall|x: int| 0 <= x < self.len() implies used_space(
                #[trigger] self.pages@[x].items@,
            ) <= PAGE_SPACE by {
                if x != b {
                    assert(self.pages@[x] == old_self.pages@[x]);
                } else {
                    assert(self.pages@[x].items@.len() == 0);
                }
            }
            assert forall|x: int|
                0 <= x < self.len() && #[trigger] self.pages@[x].kind == PageKind::Slot
                implies self.pages@[x].items@.len() <= 1 by {
                if x != b {
                    assert(self.pages@[x] == old_self.pages@[x]);
                }
            }
        }
        true
    }

    /// Takes the page lock of block `b`; false when it is already held.
    pub fn lock_page(&mut self, b: u32) -> (r: bool)
        requires
            old(self).wf(),
            is_lock_block(b),
        ensures
            final(self).wf(),
            r == !old(self).locks@.contains(b),
            r ==> final(self).locks@ == old(self).locks@.push(b),
            !r ==> final(self).locks@ == old(self).locks@,
            final(self).pages@ == old(self).pages@,
            final(self).free@ == old(self).free@,
            final(self).insert_blockno == old(self).insert_blockno,
            final(self).next_stamp == old(self).next_stamp,
            final(self).catalog_chain@ == old(self).catalog_chain@,
            final(self).meta_chain@ == old(self).meta_chain@,
            final(self).managed_chain@ == old(self).managed_chain@,
    {
        match find_block(&self.locks, b) {
            Some(_) => false,
            None => {
                self.locks.push(b);
                true
            },
        }
    }

    /// Releases the page lock of block `b`, if held.
    pub fn unlock_page(&mut self, b: u32)
        requires
            old(self).wf(),
        ensures
            final(self).wf(),
            !final(self).locks@.contains(b),
            forall|x: u32|
                x != b ==> (#[trigger] final(self).locks@.contains(x) <==> old(self).locks@.contains(
                    x,
                )),
            final(self).pages@ == old(self).pages@,
            final(self).free@ == old(self).free@,
            final(self).insert_blockno == old(self).insert_blockno,
            final(self).next_stamp == old(self).next_stamp,
            final(self).catalog_chain@ == old(self).catalog_chain@,
            final(self).meta_chain@ == old(self).meta_chain@,
            final(self).managed_chain@ == old(self).managed_chain@,
    {
        match find_block(&self.locks, b) {
            None => {},
            Some(i) => {
                let ghost before = self.locks@;
                self.locks.remove(i);
                proof {
                    assert forall|x: u32| x != b implies (self.locks@.contains(x) <==> before.contains(x)) by {
                        if before.contains(x) {
                            let k = choose|k: int| 0 <= k < before.len() && before[k] == x;
                            if k < i {
                                assert(self.locks@[k] == x);
                            } else {
                                assert(k != i);
                                assert(self.locks@[k - 1] == x);
                            }
                        }
                        if self.locks@.contains(x) {
                            let k = choose|k: int| 0 <= k < self.locks@.len() && self.locks@[k] == x;
                            if k < i {
                                assert(before[k] == x);
                            } else {
                                assert(before[k + 1] == x);
                            }
                        }
                    }
                    if self.locks@.contains(b) {
                        let k = choose|k: int| 0 <= k < self.locks@.len() && self.locks@[k] == b;
                        let ka = if k < i { k } else { k + 1 };
                        assert(before[ka] == b);
                        assert(before[i as int] == b);
                    }
                    assert forall|p: int, q: int| 0 <= p < q < self.locks@.len() implies self.locks@[p] != self.locks@[q] by {
                        let pa = if p < i { p } else { p + 1 };
                        let qa = if q < i { q } else { q + 1 };
                        assert(before[pa] == self.locks@[p]);
                        assert(before[qa] == self.locks@[q]);
                    }
                    assert forall|k: int| 0 <= k < self.locks@.len() implies is_lock_block(#[trigger] self.locks@[k]) by {
                        let ka = if k < i { k } else { k + 1 };
                        assert(before[ka] == self.locks@[k]);
                    }
                }
            },
        }
    }
}

/// Position of `b` in `v`, if any.
pub fn find_block(v: &Vec<u32>, b: u32) -> (r: Option<usize>)
    ensures
        r is None <==> !v@.contains(b),
        r matches Some(i) ==> i < v@.len() && v@[i as int] == b,
{
    let mut i: usize = 0;
    while i < v.len()
        invariant
            i <= v@.len(),
            forall|k: int| 0 <= k < i ==> v@[k] != b,
        decreases v@.len() - i,
    {
        if v[i] == b {
            return Some(i);
        }
        i = i + 1;
    }
    None
}

impl Page {
    pub fn new_empty(kind: PageKind) -> (r: Page)
        ensures
            is_empty_page(r, kind),
    {
        Page { items: Vec::new(), next_blockno: INVALID_BLOCKNO, kind, owner: 0 }
    }
}

} // verus!

verus! {

proof fn lemma_free_page_reuse_step(
    stores: Seq<BlockStore>,
    got: Seq<u32>,
    kinds: Seq<PageKind>,
    f: Seq<u32>,
    r: Seq<u32>,
    k: int,
)
    requires
        stores.len() == r.len() + 1,
        got.len() == r.len(),
        kinds.len() == r.len(),
        stores[0].free@ == f + r,
        forall|i: int| 0 <= i <= r.len() ==> (#[trigger] stores[i]).wf(),
        forall|i: int|
            0 <= i < r.len() ==> BlockStore::allocated(
                &#[trigger] stores[i],
                &stores[i + 1],
                got[i],
                kinds[i],
            ),
        0 <= k <= r.len(),
    ensures
        stores[k].free@ == f + r.subrange(0, r.len() - k),
        stores[k].len() == stores[0].len(),
        forall|i: int|
            0 <= i < k ==> got[i] == r[r.len() - 1 - i] && (got[i] as int) < stores[i].len(),
    decreases k,
{
    if k == 0 {
        assert(r.subrange(0, r.len() as int) =~= r);
    } else {
        lemma_free_page_reuse_step(stores, got, kinds, f, r, k - 1);
        let prev = stores[k - 1];
        assert(BlockStore::allocated(&prev, &stores[k], got[k - 1], kinds[k - 1]));
        let fl = f + r.subrange(0, r.len() - (k - 1));
        assert(fl.len() > 0);
        assert(fl.last() == r[r.len() - k]);
        assert(prev.alloc_target() == Some(fl.last()));
        assert(prev.wf());
        assert(prev.free@[prev.free@.len() - 1] == got[k - 1]);
        assert((got[k - 1] as int) < prev.len());
        assert(fl.drop_last() =~= f + r.subrange(0, r.len() - k));
    }
}

/// Free-page reuse: when the free list is `f` followed by pages `r` that a
/// delete recorded, the next `r.len()` allocations hand out exactly the
/// pages of `r`, the last recorded first, and the relation is not extended.
pub proof fn lemma_free_page_reuse(
    stores: Seq<BlockStore>,
    got: Seq<u32>,
    kinds: Seq<PageKind>,
    f: Seq<u32>,
    r: Seq<u32>,
)
    requires
        stores.len() == r.len() + 1,
        got.len() == r.len(),
        kinds.len() == r.len(),
        stores[0].free@ == f + r,
        forall|i: int| 0 <= i <= r.len() ==> (#[trigger] stores[i]).wf(),
        forall|i: int|
            0 <= i < r.len() ==> BlockStore::allocated(
                &#[trigger] stores[i],
                &stores[i + 1],
                got[i],
                kinds[i],
            ),
    ensures
        forall|i: int| 0 <= i < r.len() ==> #[trigger] got[i] == r[r.len() - 1 - i],
        stores[r.len() as int].len() == stores[0].len(),
        stores[r.len() as int].free@ == f,
{
    lemma_free_page_reuse_step(stores, got, kinds, f, r, r.len() as int);
    assert(r.subrange(0, 0) =~= Seq::<u32>::empty());
    assert(f + r.subrange(0, 0) =~= f);
}

} // verus!

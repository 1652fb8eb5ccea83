//! The atomic slot store: the engine's meta file and managed-file list, each
//! one value kept in a chain of slot pages and overwritten in place.

use vstd::prelude::*;

use crate::codec::{append_range, copy_range};
use crate::page::{
    distinct, used_space, BlockStore, Page, MAX_BLOCKS, PageKind, StoreError, INVALID_BLOCKNO,
    MAX_ITEM_SIZE, PAGE_SPACE, RESERVED_BLOCKS, SEGMENT_HANDLE_BLOCKNO, TANTIVY_MANAGED_BLOCKNO,
    TANTIVY_META_BLOCKNO,
};

verus! {

/// The two well-known single-value files.
#[derive(Clone, Copy, Debug, PartialEq, Eq, Structural)]
pub enum Slot {
    /// The engine's meta file.
    Meta,
    /// The engine's managed-file list.
    Managed,
}

pub open spec fn slot_head(slot: Slot) -> u32 {
    match slot {
        Slot::Meta => TANTIVY_META_BLOCKNO,
        Slot::Managed => TANTIVY_MANAGED_BLOCKNO,
    }
}

/// The bytes a slot page holds: its first item, if any.
pub open spec fn first_chunk(p: Page) -> Seq<u8> {
    if p.items@.len() > 0 {
        p.items@[0]@
    } else {
        Seq::empty()
    }
}

/// Bytes of the pages `chain[i..]`, concatenated in chain order.
pub open spec fn chunks_from(store: &BlockStore, chain: Seq<u32>, i: int) -> Seq<u8>
    decreases chain.len() - i,
{
    if i < 0 || i >= chain.len() {
        Seq::empty()
    } else {
        first_chunk(store.page(chain[i])) + chunks_from(store, chain, i + 1)
    }
}

/// Number of pages a value of `len` bytes takes in a slot.
pub open spec fn slot_pages(len: int) -> int {
    if len <= MAX_ITEM_SIZE {
        1
    } else {
        (len + MAX_ITEM_SIZE - 1) / MAX_ITEM_SIZE as int
    }
}

impl BlockStore {
    pub open spec fn slot_chain(&self, slot: Slot) -> Seq<u32> {
        match slot {
            Slot::Meta => self.meta_chain@,
            Slot::Managed => self.managed_chain@,
        }
    }

    pub open spec fn other_chain(&self, slot: Slot) -> Seq<u32> {
        match slot {
            Slot::Meta => self.managed_chain@,
            Slot::Managed => self.meta_chain@,
        }
    }

    /// The value stored in `slot`.
    pub open spec fn slot_content(&self, slot: Slot) -> Seq<u8> {
        chunks_from(self, self.slot_chain(slot), 0)
    }

    /// Writing `slot` leaves the other slot and the catalog as they were.
    pub open spec fn slot_frame(old: &BlockStore, new: &BlockStore, slot: Slot) -> bool {
        &&& new.len() >= old.len()
        &&& new.catalog_chain@ == old.catalog_chain@
        &&& new.insert_blockno == old.insert_blockno
        &&& new.locks@ == old.locks@
        &&& new.other_chain(slot) == old.other_chain(slot)
        &&& forall|x: u32|
            #[trigger] new.slot_chain(slot).contains(x) ==> old.slot_chain(slot).contains(x) || x
                >= old.len() || old.page(x).kind == PageKind::Free
        &&& forall|x: int|
            0 <= x < old.len() && (#[trigger] old.pages@[x]).kind != PageKind::Free && !old.slot_chain(
                slot,
            ).contains(x as u32) ==> new.pages@[x] == old.pages@[x]
    }

    proof fn lemma_slot_chain_facts(&self, slot: Slot)
        requires
            self.wf(),
        ensures
            self.chain_ok(self.slot_chain(slot), slot_head(slot), PageKind::Slot),
            self.chain_ok(self.other_chain(slot), slot_head(other(slot)), PageKind::Slot),
            forall|i: int, j: int|
                0 <= i < self.slot_chain(slot).len() && 0 <= j < self.other_chain(slot).len()
                    ==> #[trigger] self.slot_chain(slot)[i] != #[trigger] self.other_chain(slot)[j],
            forall|i: int|
                1 <= i < self.slot_chain(slot).len() ==> RESERVED_BLOCKS <= #[trigger] self.slot_chain(
                    slot,
                )[i],
    {
        let c = self.slot_chain(slot);
        let o = self.other_chain(slot);
        assert forall|i: int| 1 <= i < c.len() implies RESERVED_BLOCKS <= #[trigger] c[i] by {
            assert(c[i] != c[0]);
            assert(c[i] != o[0]);
            assert(self.page(c[i]).kind == PageKind::Slot);
            assert(self.page(SEGMENT_HANDLE_BLOCKNO).kind == PageKind::Catalog) by {
                assert(self.catalog_chain@[0] == SEGMENT_HANDLE_BLOCKNO);
            }
        }
    }

    /// Follows the chain of `slot` and returns its blocks.
    pub fn slot_blocks(&self, slot: Slot) -> (r: Vec<u32>)
        requires
            self.wf(),
        ensures
            r@ == self.slot_chain(slot),
    {
        proof {
            self.lemma_slot_chain_facts(slot);
        }
        let ghost chain = self.slot_chain(slot);
        let mut out: Vec<u32> = Vec::new();
        let mut b: u32 = match slot {
            Slot::Meta => TANTIVY_META_BLOCKNO,
            Slot::Managed => TANTIVY_MANAGED_BLOCKNO,
        };
        while b != INVALID_BLOCKNO
            invariant
                self.wf(),
                chain == self.slot_chain(slot),
                self.chain_ok(chain, slot_head(slot), PageKind::Slot),
                out@.len() <= chain.len(),
                out@ == chain.subrange(0, out@.len() as int),
                out@.len() < chain.len() ==> b == chain[out@.len() as int],
                out@.len() == chain.len() ==> b == INVALID_BLOCKNO,
            decreases chain.len() - out@.len(),
        {
            let ghost i = out@.len() as int;
            out.push(b);
            assert(out@ =~= chain.subrange(0, i + 1));
            b = self.pages[b as usize].next_blockno;
        }
        assert(out@ =~= chain);
        out
    }

    /// Reads the value of `slot`, walking its chain and concatenating the
    /// bytes of each page.
    pub fn read_slot(&self, slot: Slot) -> (r: Vec<u8>)
        requires
            self.wf(),
        ensures
            r@ == self.slot_content(slot),
    {
        proof {
            self.lemma_slot_chain_facts(slot);
        }
        let ghost chain = self.slot_chain(slot);
        let mut data: Vec<u8> = Vec::new();
        let mut b: u32 = match slot {
            Slot::Meta => TANTIVY_META_BLOCKNO,
            Slot::Managed => TANTIVY_MANAGED_BLOCKNO,
        };
        let ghost mut i: int = 0;
        while b != INVALID_BLOCKNO
            invariant
                self.wf(),
                chain == self.slot_chain(slot),
                self.chain_ok(chain, slot_head(slot), PageKind::Slot),
                0 <= i <= chain.len(),
                i < chain.len() ==> b == chain[i],
                i == chain.len() ==> b == INVALID_BLOCKNO,
                data@ + chunks_from(self, chain, i) == self.slot_content(slot),
            decreases chain.len() - i,
        {
            let page = &self.pages[b as usize];
            if page.items.len() > 0 {
                append_range(&mut data, page.items[0].as_slice(), 0, page.items[0].len());
                assert(page.items@[0]@.subrange(0, page.items@[0]@.len() as int)
                    =~= page.items@[0]@);
            }
            assert(data@ + chunks_from(self, chain, i + 1) =~= self.slot_content(slot));
            b = page.next_blockno;
            proof {
                i = i + 1;
            }
        }
        assert(data@ =~= data@ + chunks_from(self, chain, i));
        data
    }
}

pub open spec fn other(slot: Slot) -> Slot {
    match slot {
        Slot::Meta => Slot::Managed,
        Slot::Managed => Slot::Meta,
    }
}

} // verus!

verus! {

impl BlockStore {
    /// `wf` holds again after a write of `slot` that gave it the chain
    /// `chain`, built from free pages and slot pages outside the other slot,
    /// and left every other page alone.
    proof fn lemma_slot_write_wf(&self, old: &BlockStore, slot: Slot, chain: Seq<u32>)
        requires
            old.wf(),
            self.len() >= old.len(),
            self.len() <= crate::page::MAX_BLOCKS,
            self.catalog_chain@ == old.catalog_chain@,
            self.insert_blockno == old.insert_blockno,
            self.locks@ == old.locks@,
            self.other_chain(slot) == old.other_chain(slot),
            self.slot_chain(slot) == chain,
            forall|x: int|
                0 <= x < old.len() && (#[trigger] old.pages@[x]).kind != PageKind::Free
                    && !old.slot_chain(slot).contains(x as u32) && !chain.contains(x as u32)
                    ==> self.pages@[x] == old.pages@[x],
            forall|i: int|
                0 <= i < chain.len() ==> (#[trigger] chain[i] as int) < old.len() && (old.page(
                    chain[i],
                ).kind == PageKind::Free || (old.page(chain[i]).kind == PageKind::Slot
                    && !old.other_chain(slot).contains(chain[i]))),
            self.chain_ok(chain, slot_head(slot), PageKind::Slot),
            forall|b: int|
                0 <= b < self.len() ==> used_space(#[trigger] self.pages@[b].items@) <= PAGE_SPACE,
            forall|b: int|
                0 <= b < self.len() && #[trigger] self.pages@[b].kind == PageKind::Slot
                    ==> self.pages@[b].items@.len() <= 1,
            distinct(self.free@),
            forall|i: int|
                0 <= i < self.free@.len() ==> RESERVED_BLOCKS <= #[trigger] self.free@[i]
                    && (self.free@[i] as int) < self.len() && self.page(self.free@[i]).kind
                    == PageKind::Free,
        ensures
            self.wf(),
    {
        old.lemma_slot_chain_facts(slot);
        let o = old.other_chain(slot);
        let c = old.slot_chain(slot);
        // a page of the old chain of `slot` or of the new chain is a free page
        // or a slot page outside the other slot
        assert forall|x: u32|
            (c.contains(x) || chain.contains(x)) implies (x as int) < old.len() && (old.page(x).kind
            == PageKind::Free || (old.page(x).kind == PageKind::Slot && !o.contains(x))) by {
            if c.contains(x) {
                let k = choose|k: int| 0 <= k < c.len() && c[k] == x;
                if o.contains(x) {
                    let j = choose|j: int| 0 <= j < o.len() && o[j] == x;
                    assert(c[k] != o[j]);
                }
            } else {
                let k = choose|k: int| 0 <= k < chain.len() && chain[k] == x;
                assert(chain[k] == x);
            }
        }
        assert forall|x: int|
            0 <= x < old.len() && (#[trigger] old.pages@[x]).kind != PageKind::Free
                && old.pages@[x].kind != PageKind::Slot implies self.pages@[x] == old.pages@[x] by {
            assert(!c.contains(x as u32) && !chain.contains(x as u32));
        }
        assert forall|j: int|
            0 <= j < o.len() implies self.pages@[#[trigger] o[j] as int].kind == PageKind::Slot
            && self.pages@[o[j] as int].next_blockno == old.pages@[o[j] as int].next_blockno by {
            assert(o.contains(o[j]));
            assert(old.page(o[j]).kind == PageKind::Slot);
            assert(!c.contains(o[j]) && !chain.contains(o[j]));
        }
        old.lemma_chain_members_frame(self, o, slot_head(other(slot)), PageKind::Slot);
        let cc = old.catalog_chain@;
        assert forall|j: int|
            0 <= j < cc.len() implies self.pages@[#[trigger] cc[j] as int].kind == PageKind::Catalog
            && self.pages@[cc[j] as int].next_blockno == old.pages@[cc[j] as int].next_blockno by {
            assert(old.page(cc[j]).kind == PageKind::Catalog);
        }
        old.lemma_chain_members_frame(self, cc, SEGMENT_HANDLE_BLOCKNO, PageKind::Catalog);
        assert forall|i: int, j: int|
            0 <= i < self.meta_chain@.len() && 0 <= j < self.managed_chain@.len()
            implies #[trigger] self.meta_chain@[i] != #[trigger] self.managed_chain@[j] by {
            match slot {
                Slot::Meta => {
                    assert(chain.contains(chain[i]));
                    assert(o.contains(o[j]));
                },
                Slot::Managed => {
                    assert(chain.contains(chain[j]));
                    assert(o.contains(o[i]));
                },
            }
        }
        assert(old.page(crate::page::INDEX_WRITER_LOCK_BLOCKNO).kind == PageKind::Lock);
        assert(old.page(crate::page::META_LOCK_BLOCKNO).kind == PageKind::Lock);
        assert(old.page(crate::page::MANAGED_LOCK_BLOCKNO).kind == PageKind::Lock);
        assert(old.page(0).kind == PageKind::Meta);
    }
}

impl BlockStore {
    fn set_slot_chain(&mut self, slot: Slot, chain: Ghost<Seq<u32>>)
        ensures
            final(self).slot_chain(slot) == chain@,
            final(self).other_chain(slot) == old(self).other_chain(slot),
            final(self).pages@ == old(self).pages@,
            final(self).free@ == old(self).free@,
            final(self).locks@ == old(self).locks@,
            final(self).insert_blockno == old(self).insert_blockno,
            final(self).catalog_chain@ == old(self).catalog_chain@,
    {
        match slot {
            Slot::Meta => {
                self.meta_chain = chain;
            },
            Slot::Managed => {
                self.managed_chain = chain;
            },
        }
    }

    /// Frees the last page of the chain of `slot`.
    fn unlink_last(&mut self, slot: Slot, prev: u32, last: u32)
        requires
            old(self).wf(),
            old(self).slot_chain(slot).len() >= 2,
            prev == old(self).slot_chain(slot)[old(self).slot_chain(slot).len() - 2],
            last == old(self).slot_chain(slot).last(),
        ensures
            final(self).wf(),
            final(self).slot_chain(slot) == old(self).slot_chain(slot).drop_last(),
            BlockStore::slot_frame(old(self), final(self), slot),
            final(self).len() == old(self).len(),
            final(self).spare() == old(self).spare() + 1,
    {
        let ghost old_self = *self;
        let ghost c = self.slot_chain(slot);
        let ghost nc = c.drop_last();
        proof {
            self.lemma_slot_chain_facts(slot);
        }
        self.pages[prev as usize].next_blockno = INVALID_BLOCKNO;
        self.pages.set(last as usize, Page::new_empty(PageKind::Free));
        self.free.push(last);
        self.set_slot_chain(slot, Ghost(nc));
        proof {
            assert(c[c.len() - 1] == last);
            assert(c[c.len() - 2] == prev);
            assert forall|i: int| 0 <= i < nc.len() implies nc[i] != last by {
                assert(c[i] == nc[i]);
            }
            assert forall|i: int| 0 <= i < old_self.free@.len() implies old_self.free@[i] != last by {
                assert(old_self.page(old_self.free@[i]).kind == PageKind::Free);
            }
            assert forall|i: int|
                0 <= i < nc.len() implies (#[trigger] nc[i] as int) < self.len() && self.page(nc[i]).kind
                    == PageKind::Slot by {
                assert(c[i] == nc[i]);
            }
            assert forall|i: int|
                0 <= i < nc.len() - 1 implies #[trigger] self.page(nc[i]).next_blockno == nc[i
                    + 1] by {
                assert(c[i] != prev);
                assert(old_self.page(c[i]).next_blockno == c[i + 1]);
            }
            assert(self.chain_ok(nc, slot_head(slot), PageKind::Slot));
            assert forall|i: int|
                0 <= i < nc.len() implies (#[trigger] nc[i] as int) < old_self.len() && (
                old_self.page(nc[i]).kind == PageKind::Free || (old_self.page(nc[i]).kind
                    == PageKind::Slot && !old_self.other_chain(slot).contains(nc[i]))) by {
                assert(c[i] == nc[i]);
                if old_self.other_chain(slot).contains(nc[i]) {
                    let j = choose|j: int|
                        0 <= j < old_self.other_chain(slot).len() && old_self.other_chain(
                            slot,
                        )[j] == nc[i];
                    assert(c[i] != old_self.other_chain(slot)[j]);
                }
            }
            assert forall|x: int|
                0 <= x < old_self.len() && (#[trigger] old_self.pages@[x]).kind
                    != PageKind::Free && !c.contains(x as u32) && !nc.contains(
                    x as u32,
                ) implies self.pages@[x] == old_self.pages@[x] by {
                assert(c.contains(c[c.len() - 1]));
                assert(c.contains(c[c.len() - 2]));
            }
            assert forall|x: int|
                0 <= x < old_self.len() && (#[trigger] old_self.pages@[x]).kind
                    != PageKind::Free && !c.contains(x as u32) implies self.pages@[x]
                == old_self.pages@[x] by {
                assert(c.contains(c[c.len() - 1]));
                assert(c.contains(c[c.len() - 2]));
            }
            assert forall|x: u32| #[trigger] nc.contains(x) implies c.contains(x) by {
                let k = choose|k: int| 0 <= k < nc.len() && nc[k] == x;
                assert(c[k] == x);
            }
            assert(RESERVED_BLOCKS <= last) by {
                assert(RESERVED_BLOCKS <= c[c.len() - 1]);
            }
            assert forall|x: int| 0 <= x < self.len() implies used_space(
                #[trigger] self.pages@[x].items@,
            ) <= PAGE_SPACE by {
                if x != last && x != prev {
                    assert(self.pages@[x] == old_self.pages@[x]);
                } else if x == prev {
                    assert(self.pages@[x].items == old_self.pages@[x].items);
                }
            }
            assert forall|x: int|
                0 <= x < self.len() && #[trigger] self.pages@[x].kind == PageKind::Slot
                implies self.pages@[x].items@.len() <= 1 by {
                if x != last && x != prev {
                    assert(self.pages@[x] == old_self.pages@[x]);
                } else if x == prev {
                    assert(self.pages@[x].items == old_self.pages@[x].items);
                }
            }
            assert forall|i: int|
                0 <= i < self.free@.len() implies RESERVED_BLOCKS <= #[trigger] self.free@[i]
                && (self.free@[i] as int) < self.len() && self.page(self.free@[i]).kind
                == PageKind::Free by {
                if i < old_self.free@.len() {
                    assert(self.free@[i] == old_self.free@[i]);
                    assert(old_self.free@[i] != prev) by {
                        assert(old_self.page(prev).kind == PageKind::Slot);
                    }
                }
            }
            self.lemma_slot_write_wf(&old_self, slot, nc);
        }
    }
}

pub proof fn lemma_chunks_append(
    old: &BlockStore,
    new: &BlockStore,
    chain: Seq<u32>,
    b: u32,
    i: int,
    chunk: Seq<u8>,
)
    requires
        0 <= i <= chain.len(),
        forall|k: int|
            0 <= k < chain.len() ==> first_chunk(new.page(#[trigger] chain[k])) == first_chunk(
                old.page(chain[k]),
            ),
        first_chunk(new.page(b)) == chunk,
    ensures
        chunks_from(new, chain.push(b), i) == chunks_from(old, chain, i) + chunk,
    decreases chain.len() - i,
{
    let c2 = chain.push(b);
    if i == chain.len() {
        assert(chunks_from(new, c2, i + 1) =~= Seq::<u8>::empty());
        assert(chunks_from(old, chain, i) =~= Seq::<u8>::empty());
        assert(chunks_from(new, c2, i) =~= chunk);
    } else {
        lemma_chunks_append(old, new, chain, b, i + 1, chunk);
        assert(c2[i] == chain[i]);
        assert(first_chunk(new.page(chain[i])) == first_chunk(old.page(chain[i])));
        assert(chunks_from(new, c2, i) =~= chunks_from(old, chain, i) + chunk);
    }
}

impl BlockStore {
    /// Makes `chunk` the only item of page `b`, the `i`-th page of the chain
    /// of `slot`; the item is overwritten in place.
    fn set_chunk(&mut self, slot: Slot, i: usize, b: u32, chunk: Vec<u8>)
        requires
            old(self).wf(),
            i < old(self).slot_chain(slot).len(),
            old(self).slot_chain(slot)[i as int] == b,
            chunk@.len() <= MAX_ITEM_SIZE,
        ensures
            final(self).wf(),
            final(self).slot_chain(slot) == old(self).slot_chain(slot),
            final(self).page(b).items@.len() == 1,
            final(self).page(b).items@[0]@ == chunk@,
            forall|x: int| 0 <= x < old(self).len() && x != b ==> final(self).pages@[x] == old(self).pages@[x],
            BlockStore::slot_frame(old(self), final(self), slot),
            final(self).len() == old(self).len(),
            final(self).spare() == old(self).spare(),
    {
        let ghost old_self = *self;
        let ghost c = self.slot_chain(slot);
        proof {
            self.lemma_slot_chain_facts(slot);
        }
        let ghost chunk_view = chunk@;
        let mut items: Vec<Vec<u8>> = Vec::new();
        items.push(chunk);
        self.pages[b as usize].items = items;
        proof {
            assert(self.page(b).items@.drop_last() =~= Seq::<Vec<u8>>::empty());
            assert(self.page(b).items@.len() == 1);
            assert(self.page(b).items@.last()@ == chunk_view);
            assert(used_space(self.page(b).items@.drop_last()) == 0);
            assert(used_space(self.page(b).items@) == chunk_view.len() + 4);
            assert(c.contains(b));
            assert forall|x: int| 0 <= x < self.len() implies used_space(
                #[trigger] self.pages@[x].items@,
            ) <= PAGE_SPACE by {
                if x != b {
                    assert(self.pages@[x] == old_self.pages@[x]);
                }
            }
            assert forall|x: int|
                0 <= x < self.len() && #[trigger] self.pages@[x].kind == PageKind::Slot
                implies self.pages@[x].items@.len() <= 1 by {
                if x != b {
                    assert(self.pages@[x] == old_self.pages@[x]);
                }
            }
            assert forall|k: int|
                0 <= k < c.len() implies (#[trigger] c[k] as int) < old_self.len() && (
                old_self.page(c[k]).kind == PageKind::Free || (old_self.page(c[k]).kind
                    == PageKind::Slot && !old_self.other_chain(slot).contains(c[k]))) by {
                if old_self.other_chain(slot).contains(c[k]) {
                    let j = choose|j: int|
                        0 <= j < old_self.other_chain(slot).len() && old_self.other_chain(
                            slot,
                        )[j] == c[k];
                    assert(c[k] != old_self.other_chain(slot)[j]);
                }
            }
            assert forall|k: int| 0 <= k < c.len() - 1 implies #[trigger] self.page(c[k]).next_blockno
                == c[k + 1] by {
                assert(old_self.page(c[k]).next_blockno == c[k + 1]);
            }
            assert(self.page(c[c.len() - 1]).next_blockno == old_self.page(c[c.len() - 1]).next_blockno);
            assert(self.chain_ok(c, slot_head(slot), PageKind::Slot));
            assert forall|k: int|
                0 <= k < self.free@.len() implies RESERVED_BLOCKS <= #[trigger] self.free@[k]
                && (self.free@[k] as int) < self.len() && self.page(self.free@[k]).kind
                == PageKind::Free by {
                assert(old_self.page(self.free@[k]).kind == PageKind::Free);
            }
            self.lemma_slot_write_wf(&old_self, slot, c);
            assert forall|x: u32| #[trigger] c.contains(x) implies c.contains(x) by {}
        }
    }

    /// Links a new page holding `chunk` after `last`, the last page of the
    /// chain of `slot`.
    fn append_slot_page(&mut self, slot: Slot, last: u32, chunk: Vec<u8>) -> (r: Result<
        u32,
        StoreError,
    >)
        requires
            old(self).wf(),
            last == old(self).slot_chain(slot).last(),
            chunk@.len() <= MAX_ITEM_SIZE,
        ensures
            final(self).wf(),
            match r {
                Ok(b) => final(self).slot_chain(slot) == old(self).slot_chain(slot).push(b)
                    && final(self).slot_content(slot) == old(self).slot_content(slot) + chunk@
                    && final(self).page(b).items@.len() == 1 && final(self).page(b).items@[0]@ == chunk@
                    && (forall|k: int| 0 <= k < old(self).slot_chain(slot).len() ==> final(self).page(
                        #[trigger] old(self).slot_chain(slot)[k]).items == old(self).page(old(self).slot_chain(slot)[k]).items)
                    && final(self).spare() == old(self).spare() - 1
                    && BlockStore::slot_frame(old(self), final(self), slot),
                Err(e) => e == StoreError::RelationFull && old(self).spare() == 0 && *final(self)
                    == *old(self),
            },
    {
        let ghost old_self = *self;
        let ghost c = self.slot_chain(slot);
        let ghost chunk_view = chunk@;
        proof {
            self.lemma_slot_chain_facts(slot);
        }
        let b = match self.new_buffer(PageKind::Slot) {
            Ok(b) => b,
            Err(e) => {
                return Err(e);
            },
        };
        assert(self.spare() == old_self.spare() - 1);
        self.add_item(b, chunk);
        let ghost after_add = *self;
        self.pages[last as usize].next_blockno = b;
        let ghost nc = c.push(b);
        self.set_slot_chain(slot, Ghost(nc));
        proof {
            let o = old_self.other_chain(slot);
            assert(c.contains(last));
            assert forall|x: u32| #[trigger] o.contains(x) implies x != b && (x as int)
                < old_self.len() && old_self.page(x).kind == PageKind::Slot by {
                let j = choose|j: int| 0 <= j < o.len() && o[j] == x;
            }
            assert forall|k: int| 0 <= k < c.len() implies c[k] != b && !o.contains(
                #[trigger] c[k],
            ) by {
                assert(old_self.page(c[k]).kind == PageKind::Slot);
                if o.contains(c[k]) {
                    let j = choose|j: int| 0 <= j < o.len() && o[j] == c[k];
                    assert(c[k] != o[j]);
                }
            }
            assert(distinct(nc));
            assert forall|i: int|
                0 <= i < nc.len() implies (#[trigger] nc[i] as int) < self.len() && self.page(
                nc[i],
            ).kind == PageKind::Slot by {
                if i < c.len() {
                    assert(nc[i] == c[i]);
                }
            }
            assert forall|i: int|
                0 <= i < nc.len() - 1 implies #[trigger] self.page(nc[i]).next_blockno == nc[i
                    + 1] by {
                assert(nc[i] == c[i]);
                if i < c.len() - 1 {
                    assert(c[i] != last);
                    assert(old_self.page(c[i]).next_blockno == c[i + 1]);
                }
            }
            assert(self.chain_ok(nc, slot_head(slot), PageKind::Slot));
            assert forall|i: int|
                0 <= i < nc.len() implies (#[trigger] nc[i] as int) < after_add.len() && (
                after_add.page(nc[i]).kind == PageKind::Free || (after_add.page(nc[i]).kind
                    == PageKind::Slot && !after_add.other_chain(slot).contains(nc[i]))) by {
                if i < c.len() {
                    assert(nc[i] == c[i]);
                }
            }
            assert forall|x: int|
                0 <= x < after_add.len() && (#[trigger] after_add.pages@[x]).kind
                    != PageKind::Free && !after_add.slot_chain(slot).contains(x as u32)
                    && !nc.contains(x as u32) implies self.pages@[x] == after_add.pages@[x] by {
                assert(x != last);
            }
            assert forall|x: int| 0 <= x < self.len() implies used_space(
                #[trigger] self.pages@[x].items@,
            ) <= PAGE_SPACE by {
                assert(self.pages@[x].items@ == after_add.pages@[x].items@);
            }
            assert forall|x: int|
                0 <= x < self.len() && #[trigger] self.pages@[x].kind == PageKind::Slot
                implies self.pages@[x].items@.len() <= 1 by {
                assert(self.pages@[x].items@ == after_add.pages@[x].items@);
                assert(self.pages@[x].kind == after_add.pages@[x].kind);
            }
            assert forall|i: int|
                0 <= i < self.free@.len() implies RESERVED_BLOCKS <= #[trigger] self.free@[i]
                && (self.free@[i] as int) < self.len() && self.page(self.free@[i]).kind
                == PageKind::Free by {
                assert(after_add.page(self.free@[i]).kind == PageKind::Free);
            }
            self.lemma_slot_write_wf(&after_add, slot, nc);
            assert forall|k: int| 0 <= k < c.len() implies first_chunk(
                self.page(#[trigger] c[k]),
            ) == first_chunk(old_self.page(c[k])) by {
                assert(self.page(c[k]).items == old_self.page(c[k]).items);
            }
            assert(self.page(b).items@.len() == 1 && self.page(b).items@[0]@ == chunk_view);
            assert(first_chunk(self.page(b)) == chunk_view);
            lemma_chunks_append(&old_self, self, c, b, 0, chunk_view);
            assert forall|x: u32| #[trigger] nc.contains(x) implies c.contains(x) || x
                >= old_self.len() || old_self.page(x).kind == PageKind::Free by {
                let k = choose|k: int| 0 <= k < nc.len() && nc[k] == x;
                if k < c.len() {
                    assert(c[k] == x);
                }
            }
            assert forall|x: int|
                0 <= x < old_self.len() && (#[trigger] old_self.pages@[x]).kind
                    != PageKind::Free && !old_self.slot_chain(slot).contains(
                    x as u32,
                ) implies self.pages@[x] == old_self.pages@[x] by {
                assert(x != last);
                assert(x != b);
            }
        }
        Ok(b)
    }
}

/// Chunk `i` of a slot value: `MAX_ITEM_SIZE` bytes from `i * MAX_ITEM_SIZE`,
/// fewer at the end.
pub open spec fn slot_chunk(data: Seq<u8>, i: int) -> Seq<u8> {
    data.subrange(
        if i * MAX_ITEM_SIZE < data.len() {
            i * MAX_ITEM_SIZE
        } else {
            data.len() as int
        },
        if (i + 1) * MAX_ITEM_SIZE < data.len() {
            (i + 1) * MAX_ITEM_SIZE
        } else {
            data.len() as int
        },
    )
}

/// The chain `chain` holds `data` laid out as chunks: as many pages as the
/// value needs, page `i` holding exactly chunk `i` as its only item.
pub open spec fn slot_layout(store: &BlockStore, chain: Seq<u32>, data: Seq<u8>) -> bool {
    &&& chain.len() == slot_pages(data.len() as int)
    &&& forall|i: int|
        0 <= i < chain.len() ==> #[trigger] store.page(chain[i]).items@.len() == 1 && store.page(
            chain[i],
        ).items@[0]@ == slot_chunk(data, i)
}

/// Bounds of chunk `i` of a value of `len` bytes.
fn chunk_bounds(len: usize, i: usize) -> (r: (usize, usize))
    requires
        i * MAX_ITEM_SIZE <= len || i == 0,
    ensures
        r.0 <= r.1 <= len,
        r.0 == (if i * MAX_ITEM_SIZE < len { i * MAX_ITEM_SIZE } else { len as int }),
        r.1 == (if (i + 1) * MAX_ITEM_SIZE < len { (i + 1) * MAX_ITEM_SIZE } else { len as int }),
{
    let from: usize = if i == 0 { 0 } else { i * MAX_ITEM_SIZE };
    let from: usize = if from < len { from } else { len };
    let to: usize = if len - from < MAX_ITEM_SIZE { len } else { from + MAX_ITEM_SIZE };
    assert((i + 1) * MAX_ITEM_SIZE == i * MAX_ITEM_SIZE + MAX_ITEM_SIZE) by (nonlinear_arith);
    (from, to)
}

proof fn lemma_slot_pages_exec(len: int)
    requires
        len >= 0,
    ensures
        slot_pages(len) == if len <= MAX_ITEM_SIZE {
            1int
        } else {
            len / MAX_ITEM_SIZE as int + if len % MAX_ITEM_SIZE as int == 0 {
                0int
            } else {
                1int
            }
        },
        slot_pages(len) >= 1,
        (slot_pages(len) - 1) * MAX_ITEM_SIZE < len || slot_pages(len) == 1,
        slot_pages(len) * MAX_ITEM_SIZE >= len,
{
    if len > MAX_ITEM_SIZE {
        assert((len + 8156 - 1) / 8156 == len / 8156 + if len % 8156 == 0 {
            0int
        } else {
            1int
        }) by (nonlinear_arith)
            requires
                len >= 0,
        ;
        let k = (len + 8156 - 1) / 8156;
        assert((k - 1) * 8156 < len && k * 8156 >= len && k >= 1) by (nonlinear_arith)
            requires
                k == (len + 8156 - 1) / 8156,
                len > 8156,
        ;
    }
}

/// A chain laid out chunk by chunk holds the value.
proof fn lemma_chunks_from_data(store: &BlockStore, chain: Seq<u32>, data: Seq<u8>, j: int)
    requires
        0 <= j <= chain.len(),
        chain.len() == slot_pages(data.len() as int),
        forall|i: int|
            0 <= i < chain.len() ==> first_chunk(store.page(#[trigger] chain[i])) == slot_chunk(
                data,
                i,
            ),
    ensures
        chunks_from(store, chain, j) == data.subrange(
            if j * MAX_ITEM_SIZE < data.len() {
                j * MAX_ITEM_SIZE
            } else {
                data.len() as int
            },
            data.len() as int,
        ),
    decreases chain.len() - j,
{
    lemma_slot_pages_exec(data.len() as int);
    if j == chain.len() {
        assert(j * MAX_ITEM_SIZE >= data.len());
        assert(data.subrange(data.len() as int, data.len() as int) =~= Seq::<u8>::empty());
    } else {
        lemma_chunks_from_data(store, chain, data, j + 1);
        assert((j + 1) * MAX_ITEM_SIZE == j * MAX_ITEM_SIZE + MAX_ITEM_SIZE) by (nonlinear_arith);
        assert(chunks_from(store, chain, j) =~= data.subrange(
            if j * MAX_ITEM_SIZE < data.len() {
                j * MAX_ITEM_SIZE
            } else {
                data.len() as int
            },
            data.len() as int,
        ));
    }
}

pub proof fn lemma_slot_pages_exact(len: int, k: int)
    requires
        k >= 1,
        (k == 1 && len <= MAX_ITEM_SIZE) || ((k - 1) * MAX_ITEM_SIZE < len <= k * MAX_ITEM_SIZE),
    ensures
        slot_pages(len) == k,
{
    if len > MAX_ITEM_SIZE {
        if k == 1 {
            assert(false);
        }
        assert((len + 8156 - 1) / 8156 == k) by (nonlinear_arith)
            requires
                (k - 1) * 8156 < len <= k * 8156,
        ;
    }
}

pub proof fn lemma_slot_pages_more(len: int, k: int)
    requires
        k >= 1,
        k * MAX_ITEM_SIZE < len,
    ensures
        slot_pages(len) > k,
{
    assert(len > MAX_ITEM_SIZE) by (nonlinear_arith)
        requires
            k >= 1,
            k * 8156 < len,
    ;
    assert((len + 8156 - 1) / 8156 > k) by (nonlinear_arith)
        requires
            k * 8156 < len,
    ;
}

impl BlockStore {
    pub proof fn lemma_slot_frame_trans(a: &BlockStore, b: &BlockStore, c: &BlockStore, slot: Slot)
        requires
            a.len() <= crate::page::MAX_BLOCKS,
            BlockStore::slot_frame(a, b, slot),
            BlockStore::slot_frame(b, c, slot),
        ensures
            BlockStore::slot_frame(a, c, slot),
    {
        assert forall|x: int|
            0 <= x < a.len() && (#[trigger] a.pages@[x]).kind != PageKind::Free && !a.slot_chain(
                slot,
            ).contains(x as u32) implies c.pages@[x] == a.pages@[x] by {
            assert(b.pages@[x] == a.pages@[x]);
            let y = x as u32;
            assert(y as int == x);
            if b.slot_chain(slot).contains(y) {
                assert(a.slot_chain(slot).contains(y) || y >= a.len() || a.page(y).kind
                    == PageKind::Free);
                assert(false);
            }
        }
        assert forall|x: u32| #[trigger] c.slot_chain(slot).contains(x) implies a.slot_chain(
            slot,
        ).contains(x) || x >= a.len() || a.page(x).kind == PageKind::Free by {
            if !b.slot_chain(slot).contains(x) && x < b.len() {
                if x < a.len() && a.page(x).kind != PageKind::Free && !a.slot_chain(slot).contains(
                    x,
                ) {
                    assert(b.pages@[x as int] == a.pages@[x as int]);
                }
            }
        }
    }

    /// Overwrites the value of `slot` with `data`, split into page-sized
    /// chunks: the pages of the slot's chain take the chunks in order, in
    /// place; pages beyond the last chunk are freed, and pages for chunks
    /// beyond the old chain are allocated and linked after it. When the
    /// relation has no room for the new pages nothing changes.
    pub fn write_slot(&mut self, slot: Slot, data: &[u8]) -> (r: Result<(), StoreError>)
        requires
            old(self).wf(),
        ensures
            final(self).wf(),
            r is Ok <==> slot_pages(data@.len() as int) <= old(self).spare() + old(self).slot_chain(
                slot,
            ).len(),
            r is Err ==> r == Err::<(), StoreError>(StoreError::RelationFull) && *final(self) == *old(
                self,
            ),
            r is Ok ==> final(self).slot_content(slot) == data@ && slot_layout(
                final(self),
                final(self).slot_chain(slot),
                data@,
            ) && final(self).spare() == old(self).spare() + old(self).slot_chain(slot).len()
                - slot_pages(data@.len() as int) && (forall|i: int|
                0 <= i < old(self).slot_chain(slot).len() && i < slot_pages(data@.len() as int)
                    ==> #[trigger] final(self).slot_chain(slot)[i] == old(self).slot_chain(slot)[i]),
            BlockStore::slot_frame(old(self), final(self), slot),
    {
        let ghost s0 = self.spare();
        let blocks = self.slot_blocks(slot);
        let m: usize = blocks.len();
        let len = data.len();
        let k: usize = if len <= MAX_ITEM_SIZE {
            1
        } else {
            len / MAX_ITEM_SIZE + if len % MAX_ITEM_SIZE == 0 {
                0
            } else {
                1
            }
        };
        proof {
            lemma_slot_pages_exec(len as int);
            self.lemma_slot_chain_facts(slot);
        }
        if k > m {
            let need = k - m;
            let ext = MAX_BLOCKS - self.pages.len();
            if need > ext && need - ext > self.free.len() {
                return Err(StoreError::RelationFull);
            }
        }
        let mut n: usize = m;
        while n > k
            invariant
                self.wf(),
                1 <= n <= blocks@.len(),
                1 <= k,
                m >= k ==> k <= n,
                m < k ==> n == m,
                blocks@.len() == m,
                m == old(self).slot_chain(slot).len(),
                blocks@ == old(self).slot_chain(slot),
                self.slot_chain(slot) == blocks@.subrange(0, n as int),
                self.spare() == s0 + m - n,
                s0 == old(self).spare(),
                BlockStore::slot_frame(old(self), self, slot),
            decreases n,
        {
            let ghost before = *self;
            assert(self.slot_chain(slot)[n - 2] == blocks@[n - 2]);
            self.unlink_last(slot, blocks[n - 2], blocks[n - 1]);
            proof {
                BlockStore::lemma_slot_frame_trans(old(self), &before, self, slot);
                assert(self.slot_chain(slot) =~= blocks@.subrange(0, n - 1));
            }
            n = n - 1;
        }
        // overwrite the chunks of the pages that stay
        let mut i: usize = 0;
        while i < n
            invariant
                self.wf(),
                1 <= n <= k,
                n <= blocks@.len(),
                n == if m < k { m } else { k },
                len == data@.len(),
                k == slot_pages(len as int),
                blocks@ == old(self).slot_chain(slot),
                self.slot_chain(slot) == blocks@.subrange(0, n as int),
                i <= n,
                forall|j: int|
                    0 <= j < i ==> #[trigger] self.page(self.slot_chain(slot)[j]).items@.len() == 1
                        && self.page(self.slot_chain(slot)[j]).items@[0]@ == slot_chunk(data@, j),
                self.spare() == s0 + m - n,
                s0 == old(self).spare(),
                BlockStore::slot_frame(old(self), self, slot),
            decreases n - i,
        {
            let ghost before = *self;
            let (from, to) = chunk_bounds(len, i);
            let chunk = copy_range(data, from, to);
            let b = blocks[i];
            self.set_chunk(slot, i, b, chunk);
            proof {
                BlockStore::lemma_slot_frame_trans(old(self), &before, self, slot);
                let c = self.slot_chain(slot);
                assert forall|j: int| 0 <= j < i + 1 implies #[trigger] self.page(c[j]).items@.len()
                    == 1 && self.page(c[j]).items@[0]@ == slot_chunk(data@, j) by {
                    if j < i {
                        assert(c[j] != b);
                        assert(self.pages@[c[j] as int] == before.pages@[c[j] as int]);
                    }
                }
            }
            i = i + 1;
        }
        // link new pages for the chunks beyond the old chain
        let mut last: u32 = blocks[n - 1];
        let mut cur: usize = n;
        while cur < k
            invariant
                self.wf(),
                1 <= n <= cur <= k,
                n == if m < k { m } else { k },
                len == data@.len(),
                k == slot_pages(len as int),
                blocks@ == old(self).slot_chain(slot),
                self.slot_chain(slot).len() == cur,
                self.slot_chain(slot).subrange(0, n as int) == blocks@.subrange(0, n as int),
                last == self.slot_chain(slot).last(),
                forall|j: int|
                    0 <= j < cur ==> #[trigger] self.page(self.slot_chain(slot)[j]).items@.len() == 1
                        && self.page(self.slot_chain(slot)[j]).items@[0]@ == slot_chunk(data@, j),
                self.spare() == s0 + m - cur,
                s0 == old(self).spare(),
                k <= s0 + m,
                BlockStore::slot_frame(old(self), self, slot),
            decreases k - cur,
        {
            let ghost before = *self;
            let ghost c0 = self.slot_chain(slot);
            let (from, to) = chunk_bounds(len, cur);
            let chunk = copy_range(data, from, to);
            match self.append_slot_page(slot, last, chunk) {
                Ok(b) => {
                    last = b;
                },
                Err(e) => {
                    proof {
                        assert(false);
                    }
                    return Err(e);
                },
            }
            proof {
                BlockStore::lemma_slot_frame_trans(old(self), &before, self, slot);
                let c = self.slot_chain(slot);
                assert forall|j: int| 0 <= j < cur + 1 implies #[trigger] self.page(c[j]).items@.len()
                    == 1 && self.page(c[j]).items@[0]@ == slot_chunk(data@, j) by {
                    if j < cur {
                        assert(c[j] == c0[j]);
                        assert(self.page(c0[j]).items == before.page(c0[j]).items);
                    }
                }
                assert(c.subrange(0, n as int) =~= c0.subrange(0, n as int));
            }
            cur = cur + 1;
        }
        proof {
            let c = self.slot_chain(slot);
            assert forall|j: int| 0 <= j < c.len() implies first_chunk(self.page(#[trigger] c[j]))
                == slot_chunk(data@, j) by {
                assert(self.page(c[j]).items@.len() == 1);
            }
            lemma_chunks_from_data(self, c, data@, 0);
            assert(data@.subrange(0, len as int) =~= data@);
            assert forall|j: int|
                0 <= j < m && j < k implies #[trigger] c[j] == blocks@[j] by {
                assert(c.subrange(0, n as int)[j] == blocks@.subrange(0, n as int)[j]);
            }
        }
        Ok(())
    }
}

} // verus!

verus! {

impl BlockStore {
    /// The engine's meta file.
    pub fn read_meta(&self) -> (r: Vec<u8>)
        requires
            self.wf(),
        ensures
            r@ == self.slot_content(Slot::Meta),
    {
        self.read_slot(Slot::Meta)
    }

    /// The engine's managed-file list.
    pub fn read_managed(&self) -> (r: Vec<u8>)
        requires
            self.wf(),
        ensures
            r@ == self.slot_content(Slot::Managed),
    {
        self.read_slot(Slot::Managed)
    }

    /// Overwrites the engine's meta file.
    pub fn write_meta(&mut self, data: &[u8]) -> (r: Result<(), StoreError>)
        requires
            old(self).wf(),
        ensures
            final(self).wf(),
            r is Ok <==> slot_pages(data@.len() as int) <= old(self).spare() + old(self).meta_chain@.len(),
            r is Ok ==> final(self).slot_content(Slot::Meta) == data@,
            BlockStore::slot_frame(old(self), final(self), Slot::Meta),
    {
        self.write_slot(Slot::Meta, data)
    }

    /// Overwrites the engine's managed-file list.
    pub fn write_managed(&mut self, data: &[u8]) -> (r: Result<(), StoreError>)
        requires
            old(self).wf(),
        ensures
            final(self).wf(),
            r is Ok <==> slot_pages(data@.len() as int) <= old(self).spare() + old(self).managed_chain@.len(),
            r is Ok ==> final(self).slot_content(Slot::Managed) == data@,
            BlockStore::slot_frame(old(self), final(self), Slot::Managed),
    {
        self.write_slot(Slot::Managed, data)
    }
}

} // verus!

verus! {

proof fn lemma_chunks_from_frame(old: &BlockStore, new: &BlockStore, chain: Seq<u32>, j: int)
    requires
        0 <= j <= chain.len(),
        forall|i: int| 0 <= i < chain.len() ==> new.page(#[trigger] chain[i]) == old.page(chain[i]),
    ensures
        chunks_from(new, chain, j) == chunks_from(old, chain, j),
    decreases chain.len() - j,
{
    if j < chain.len() {
        lemma_chunks_from_frame(old, new, chain, j + 1);
        assert(new.page(chain[j]) == old.page(chain[j]));
    }
}

/// Writing one slot keeps the value of the other: after the meta file and
/// the managed-file list are written one after the other, both read back
/// as written, also through a directory opened afresh on the same pages.
pub proof fn lemma_other_slot_kept(old: &BlockStore, new: &BlockStore, slot: Slot)
    requires
        old.wf(),
        BlockStore::slot_frame(old, new, slot),
    ensures
        new.slot_content(other(slot)) == old.slot_content(other(slot)),
{
    old.lemma_slot_chain_facts(slot);
    let o = old.other_chain(slot);
    let c = old.slot_chain(slot);
    assert forall|i: int| 0 <= i < o.len() implies new.page(#[trigger] o[i]) == old.page(o[i]) by {
        assert(old.page(o[i]).kind == PageKind::Slot);
        if c.contains(o[i]) {
            let k = choose|k: int| 0 <= k < c.len() && c[k] == o[i];
            assert(c[k] != o[i]);
        }
        assert(new.pages@[o[i] as int] == old.pages@[o[i] as int]);
    }
    assert(new.slot_chain(other(slot)) == o);
    assert(old.slot_chain(other(slot)) == o);
    lemma_chunks_from_frame(old, new, o, 0);
}

} // verus!

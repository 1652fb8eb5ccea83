//! The segment handle catalog: for each segment file, the pages that hold
//! its bytes and its length. Entries are appended to a chain of catalog
//! pages and looked up by path.

use vstd::prelude::*;

use crate::codec::{
    decode_handle, decode_spec, encode_handle, lemma_record_len, lemma_record_round_trip,
    record_bytes, record_fits, record_len,
};
use crate::page::{
    distinct, used_space, BlockStore, Page, PageKind, StoreError, INVALID_BLOCKNO, ITEM_ID_SIZE,
    PAGE_SPACE, SEGMENT_HANDLE_BLOCKNO, TANTIVY_MANAGED_BLOCKNO, TANTIVY_META_BLOCKNO,
};

verus! {

/// Where a segment file's bytes are stored.
#[derive(Clone, Debug, PartialEq, Eq)]
pub struct SegmentHandle {
    /// The engine's name for the file.
    pub path: Vec<u8>,
    /// The pages holding the file's bytes, in order.
    pub blocks: Vec<u32>,
    /// The file's length in bytes.
    pub total_bytes: usize,
    /// The stamp its pages were written with; a page that carries another
    /// stamp has been reused since.
    pub stamp: u64,
}

} // verus!

verus! {

/// A page's items as byte sequences.
pub open spec fn items_view(p: Page) -> Seq<Seq<u8>> {
    p.items@.map_values(|v: Vec<u8>| v@)
}

/// Items of the pages `chain[i..]`, in chain order.
pub open spec fn records_from(store: &BlockStore, chain: Seq<u32>, i: int) -> Seq<Seq<u8>>
    decreases chain.len() - i,
{
    if i < 0 || i >= chain.len() {
        Seq::empty()
    } else {
        items_view(store.page(chain[i])) + records_from(store, chain, i + 1)
    }
}

/// Every catalog entry in the order it was appended.
pub open spec fn catalog_records(store: &BlockStore) -> Seq<Seq<u8>> {
    records_from(store, store.catalog_chain@, 0)
}

/// Outcome of a catalog scan: `Err` when an entry does not decode before the
/// path is found, `Ok(None)` when no entry has the path, else the first entry
/// with the path.
pub open spec fn lookup_records(recs: Seq<Seq<u8>>, path: Seq<u8>) -> Result<
    Option<(Seq<u8>, Seq<u32>, nat, nat)>,
    (),
>
    decreases recs.len(),
{
    if recs.len() == 0 {
        Ok(None)
    } else {
        match decode_spec(recs[0]) {
            None => Err(()),
            Some(e) => if e.0 == path {
                Ok(Some(e))
            } else {
                lookup_records(recs.drop_first(), path)
            },
        }
    }
}

pub open spec fn catalog_lookup(store: &BlockStore, path: Seq<u8>) -> Result<
    Option<(Seq<u8>, Seq<u32>, nat, nat)>,
    (),
> {
    lookup_records(catalog_records(store), path)
}

pub open spec fn handle_matches(h: SegmentHandle, e: (Seq<u8>, Seq<u32>, nat, nat)) -> bool {
    h.path@ == e.0 && h.blocks@ == e.1 && h.total_bytes as nat == e.2 && h.stamp as nat == e.3
}

/// Bytes equal as sequences.
pub fn bytes_eq(a: &[u8], b: &[u8]) -> (r: bool)
    ensures
        r == (a@ == b@),
{
    if a.len() != b.len() {
        return false;
    }
    let mut i: usize = 0;
    while i < a.len()
        invariant
            i <= a@.len(),
            a@.len() == b@.len(),
            a@.subrange(0, i as int) == b@.subrange(0, i as int),
        decreases a@.len() - i,
    {
        if a[i] != b[i] {
            assert(a@.subrange(0, i + 1)[i as int] != b@.subrange(0, i + 1)[i as int]);
            return false;
        }
        assert(a@.subrange(0, i + 1) =~= a@.subrange(0, i as int).push(a@[i as int]));
        assert(b@.subrange(0, i + 1) =~= b@.subrange(0, i as int).push(b@[i as int]));
        i = i + 1;
    }
    assert(a@ =~= a@.subrange(0, i as int));
    assert(b@ =~= b@.subrange(0, i as int));
    true
}

pub proof fn lemma_used_space_prefix(s: Seq<Vec<u8>>, i: int)
    requires
        0 <= i <= s.len(),
    ensures
        used_space(s.subrange(0, i)) <= used_space(s),
    decreases s.len() - i,
{
    if i < s.len() {
        lemma_used_space_prefix(s, i + 1);
        assert(s.subrange(0, i + 1).drop_last() =~= s.subrange(0, i));
    } else {
        assert(s.subrange(0, i) =~= s);
    }
}

/// Bytes that the items of a page take.
pub fn page_used_space(p: &Page) -> (r: usize)
    requires
        used_space(p.items@) <= PAGE_SPACE,
    ensures
        r == used_space(p.items@),
{
    let mut sum: usize = 0;
    let mut i: usize = 0;
    while i < p.items.len()
        invariant
            i <= p.items@.len(),
            used_space(p.items@) <= PAGE_SPACE,
            sum == used_space(p.items@.subrange(0, i as int)),
        decreases p.items@.len() - i,
    {
        proof {
            assert(p.items@.subrange(0, i + 1).drop_last() =~= p.items@.subrange(0, i as int));
            lemma_used_space_prefix(p.items@, i + 1);
        }
        sum = sum + p.items[i].len() + ITEM_ID_SIZE;
        i = i + 1;
    }
    assert(p.items@.subrange(0, i as int) =~= p.items@);
    sum
}

impl SegmentHandle {
    /// Scans the catalog chain from its first page for the entry of `path`.
    pub fn open(store: &BlockStore, path: &[u8]) -> (r: Result<Option<SegmentHandle>, StoreError>)
        requires
            store.wf(),
        ensures
            match catalog_lookup(store, path@) {
                Err(_) => r == Err::<Option<SegmentHandle>, StoreError>(StoreError::Corrupted),
                Ok(None) => r == Ok::<Option<SegmentHandle>, StoreError>(None),
                Ok(Some(e)) => r is Ok && r->Ok_0 is Some && handle_matches(r->Ok_0->0, e),
            },
    {
        let ghost chain = store.catalog_chain@;
        let ghost all = catalog_records(store);
        let mut blockno: u32 = SEGMENT_HANDLE_BLOCKNO;
        let ghost mut i: int = 0;
        while blockno != INVALID_BLOCKNO
            invariant
                store.wf(),
                chain == store.catalog_chain@,
                all == catalog_records(store),
                0 <= i <= chain.len(),
                i < chain.len() ==> blockno == chain[i],
                i == chain.len() ==> blockno == INVALID_BLOCKNO,
                lookup_records(all, path@) == lookup_records(records_from(store, chain, i), path@),
            decreases chain.len() - i,
        {
            let page = &store.pages[blockno as usize];
            let ghost rest = records_from(store, chain, i + 1);
            assert(records_from(store, chain, i) == items_view(*page) + rest);
            assert(items_view(*page).subrange(0, page.items@.len() as int) =~= items_view(*page));
            let mut j: usize = 0;
            while j < page.items.len()
                invariant
                    0 <= i < chain.len(),
                    all == catalog_records(store),
                    page == store.page(chain[i]),
                    j <= page.items@.len(),
                    lookup_records(all, path@) == lookup_records(
                        items_view(*page).subrange(j as int, page.items@.len() as int) + rest,
                        path@,
                    ),
                decreases page.items@.len() - j,
            {
                let ghost cur = items_view(*page).subrange(j as int, page.items@.len() as int)
                    + rest;
                assert(items_view(*page)[j as int] == page.items@[j as int]@);
                assert(cur[0] == page.items@[j as int]@);
                assert(cur.len() > 0);
                match decode_handle(&page.items[j]) {
                    None => {
                        return Err(StoreError::Corrupted);
                    },
                    Some(h) => {
                        if bytes_eq(h.path.as_slice(), path) {
                            return Ok(Some(h));
                        }
                        assert(cur.drop_first() =~= items_view(*page).subrange(
                            j + 1,
                            page.items@.len() as int,
                        ) + rest);
                    },
                }
                j = j + 1;
            }
            assert(items_view(*page).subrange(j as int, page.items@.len() as int) + rest =~= rest);
            blockno = page.next_blockno;
            proof {
                i = i + 1;
            }
        }
        assert(records_from(store, chain, i) =~= Seq::<Seq<u8>>::empty());
        Ok(None)
    }
}

} // verus!

verus! {

pub proof fn lemma_records_push_last(
    old: &BlockStore,
    new: &BlockStore,
    chain: Seq<u32>,
    i: int,
    rec: Seq<u8>,
)
    requires
        0 <= i < chain.len(),
        forall|k: int|
            0 <= k < chain.len() - 1 ==> items_view(new.page(#[trigger] chain[k])) == items_view(
                old.page(chain[k]),
            ),
        items_view(new.page(chain.last())) == items_view(old.page(chain.last())).push(rec),
    ensures
        records_from(new, chain, i) == records_from(old, chain, i).push(rec),
    decreases chain.len() - i,
{
    if i == chain.len() - 1 {
        assert(records_from(new, chain, i + 1) =~= Seq::<Seq<u8>>::empty());
        assert(records_from(old, chain, i + 1) =~= Seq::<Seq<u8>>::empty());
        assert(records_from(new, chain, i) =~= records_from(old, chain, i).push(rec));
    } else {
        lemma_records_push_last(old, new, chain, i + 1, rec);
        assert(items_view(new.page(chain[i])) == items_view(old.page(chain[i])));
        assert(records_from(new, chain, i) =~= records_from(old, chain, i).push(rec));
    }
}

pub proof fn lemma_records_append_page(
    old: &BlockStore,
    new: &BlockStore,
    chain: Seq<u32>,
    b: u32,
    i: int,
    rec: Seq<u8>,
)
    requires
        0 <= i <= chain.len(),
        forall|k: int|
            0 <= k < chain.len() ==> items_view(new.page(#[trigger] chain[k])) == items_view(
                old.page(chain[k]),
            ),
        items_view(new.page(b)) == seq![rec],
    ensures
        records_from(new, chain.push(b), i) == records_from(old, chain, i).push(rec),
    decreases chain.len() - i,
{
    let c2 = chain.push(b);
    if i == chain.len() {
        assert(records_from(new, c2, i + 1) =~= Seq::<Seq<u8>>::empty());
        assert(records_from(old, chain, i) =~= Seq::<Seq<u8>>::empty());
        assert(records_from(new, c2, i) =~= seq![rec]);
    } else {
        lemma_records_append_page(old, new, chain, b, i + 1, rec);
        assert(c2[i] == chain[i]);
        assert(items_view(new.page(chain[i])) == items_view(old.page(chain[i])));
        assert(records_from(new, c2, i) =~= records_from(old, chain, i).push(rec));
    }
}

impl SegmentHandle {
    /// Appends the entry of `path` to the catalog's last page, or to a new
    /// page linked after it when the last page has no room left.
    pub fn create(
        store: &mut BlockStore,
        path: &[u8],
        blocks: &[u32],
        total_bytes: usize,
        stamp: u64,
    ) -> (r: Result<(), StoreError>)
        requires
            old(store).wf(),
        ensures
            final(store).wf(),
            r is Ok ==> catalog_records(final(store)) == catalog_records(old(store)).push(
                record_bytes(path@, blocks@, total_bytes as nat, stamp as nat),
            ),
            r == Err::<(), StoreError>(StoreError::ItemTooLarge) <==> record_len(path@, blocks@)
                + ITEM_ID_SIZE > PAGE_SPACE,
            r == Err::<(), StoreError>(StoreError::RelationFull) <==> record_len(path@, blocks@)
                + ITEM_ID_SIZE <= PAGE_SPACE && used_space(
                old(store).page(old(store).insert_blockno).items@,
            ) + record_len(path@, blocks@) + ITEM_ID_SIZE > PAGE_SPACE && old(store).alloc_target() is None,
            r is Ok && used_space(old(store).page(old(store).insert_blockno).items@) + record_len(
                path@,
                blocks@,
            ) + ITEM_ID_SIZE <= PAGE_SPACE ==> final(store).catalog_chain@ == old(store).catalog_chain@ && final(store).insert_blockno == old(store).insert_blockno,
            r is Ok && used_space(old(store).page(old(store).insert_blockno).items@) + record_len(
                path@,
                blocks@,
            ) + ITEM_ID_SIZE > PAGE_SPACE ==> old(store).alloc_target() is Some && final(store).catalog_chain@ == old(store).catalog_chain@.push(old(store).alloc_target()->0)
                && final(store).insert_blockno == old(store).alloc_target()->0 && final(store).page(
                old(store).insert_blockno,
            ).next_blockno == old(store).alloc_target()->0 && final(store).page(
                old(store).alloc_target()->0,
            ).next_blockno == INVALID_BLOCKNO,
            r is Err ==> *final(store) == *old(store) && (r == Err::<(), StoreError>(
                StoreError::ItemTooLarge) || r == Err::<(), StoreError>(StoreError::RelationFull)),
            final(store).len() >= old(store).len(),
            forall|x: int|
                0 <= x < old(store).len() && (#[trigger] old(store).pages@[x]).kind
                    != PageKind::Catalog && old(store).pages@[x].kind != PageKind::Free
                    ==> final(store).pages@[x] == old(store).pages@[x],
            final(store).locks@ == old(store).locks@,
            final(store).meta_chain@ == old(store).meta_chain@,
            final(store).managed_chain@ == old(store).managed_chain@,
    {
        let ghost rec_spec = record_bytes(path@, blocks@, total_bytes as nat, stamp as nat);
        proof {
            lemma_record_len(path@, blocks@, total_bytes as nat, stamp as nat);
        }
        if path.len() > PAGE_SPACE || blocks.len() > PAGE_SPACE || 24 + path.len() + 4
            * blocks.len() + ITEM_ID_SIZE > PAGE_SPACE {
            return Err(StoreError::ItemTooLarge);
        }
        let rec = encode_handle(path, blocks, total_bytes, stamp);
        let tail = store.insert_blockno;
        let used = page_used_space(&store.pages[tail as usize]);
        let ghost old_store = *store;
        let ghost chain = store.catalog_chain@;
        if used + rec.len() + ITEM_ID_SIZE <= PAGE_SPACE {
            store.add_item(tail, rec);
            proof {
                assert forall|k: int| 0 <= k < chain.len() - 1 implies items_view(
                    store.page(#[trigger] chain[k]),
                ) == items_view(old_store.page(chain[k])) by {
                    assert(chain[k] != chain[chain.len() - 1]);
                }
                assert(items_view(store.page(tail)) =~= items_view(old_store.page(tail)).push(
                    rec_spec,
                ));
                lemma_records_push_last(&old_store, store, chain, 0, rec_spec);
            }
            Ok(())
        } else {
            let b = match store.new_buffer(PageKind::Catalog) {
                Ok(b) => b,
                Err(e) => {
                    return Err(e);
                },
            };
            let ghost after_alloc = *store;
            store.add_item(b, rec);
            let ghost after_add = *store;
            store.pages[tail as usize].next_blockno = b;
            store.insert_blockno = b;
            proof {
                let new_chain = chain.push(b);
                store.catalog_chain = Ghost(new_chain);
                assert(old_store.page(tail).kind == PageKind::Catalog);
                assert forall|k: int| 0 <= k < chain.len() implies chain[k] != b by {
                    assert(old_store.page(chain[k]).kind == PageKind::Catalog);
                }
                assert forall|k: int| 0 <= k < chain.len() implies items_view(
                    store.page(#[trigger] chain[k]),
                ) == items_view(old_store.page(chain[k])) by {
                    assert(chain[k] != b);
                    if chain[k] != tail {
                    }
                }
                assert(items_view(store.page(b)) =~= seq![rec_spec]);
                lemma_records_append_page(&old_store, store, chain, b, 0, rec_spec);
                // the metadata page's trailer now names the new last page
                assert(store.catalog_chain@.last() == b);
                assert(distinct(new_chain));
                assert forall|x: int|
                    0 <= x < old_store.len() && ((#[trigger] old_store.pages@[x]).kind
                        == PageKind::Slot) implies store.pages@[x].kind == old_store.pages@[x].kind
                    && store.pages@[x].next_blockno == old_store.pages@[x].next_blockno by {
                    assert(x != b);
                    assert(x != tail);
                }
                old_store.lemma_chain_frame(store, old_store.meta_chain@, TANTIVY_META_BLOCKNO, PageKind::Slot);
                old_store.lemma_chain_frame(store, old_store.managed_chain@, TANTIVY_MANAGED_BLOCKNO, PageKind::Slot);
                assert(store.chain_ok(new_chain, SEGMENT_HANDLE_BLOCKNO, PageKind::Catalog)) by {
                    assert forall|i: int|
                        0 <= i < new_chain.len() - 1 implies #[trigger] store.page(
                            new_chain[i],
                        ).next_blockno == new_chain[i + 1] by {
                        if i < chain.len() - 1 {
                            assert(chain[i] != tail);
                            assert(old_store.page(chain[i]).next_blockno == chain[i + 1]);
                        }
                    }
                }
                assert forall|x: int| 0 <= x < store.len() implies used_space(
                    #[trigger] store.pages@[x].items@,
                ) <= PAGE_SPACE by {
                    assert(store.pages@[x].items@ == after_add.pages@[x].items@);
                }
                assert forall|x: int|
                    0 <= x < store.len() && #[trigger] store.pages@[x].kind == PageKind::Slot
                    implies store.pages@[x].items@.len() <= 1 by {
                    assert(store.pages@[x].items@ == after_add.pages@[x].items@);
                    assert(store.pages@[x].kind == after_add.pages@[x].kind);
                }
                assert forall|i: int|
                    0 <= i < store.free@.len() implies store.page(#[trigger] store.free@[i]).kind
                    == PageKind::Free by {
                    assert(store.free@[i] != tail);
                    assert(after_add.page(store.free@[i]).kind == PageKind::Free);
                }
            }
            Ok(())
        }
    }
}

} // verus!

verus! {

/// `records_from` reads only the pages on `chain`.
pub proof fn lemma_records_frame(old: &BlockStore, new: &BlockStore, chain: Seq<u32>, i: int)
    requires
        0 <= i <= chain.len(),
        forall|k: int| 0 <= k < chain.len() ==> new.page(#[trigger] chain[k]) == old.page(chain[k]),
    ensures
        records_from(new, chain, i) == records_from(old, chain, i),
    decreases chain.len() - i,
{
    if i < chain.len() {
        lemma_records_frame(old, new, chain, i + 1);
        assert(new.page(chain[i]) == old.page(chain[i]));
    }
}

} // verus!

verus! {

/// Appending an entry changes a scan's outcome only where the scan ran off
/// the end of the old entries.
pub proof fn lemma_lookup_push(recs: Seq<Seq<u8>>, x: Seq<u8>, path: Seq<u8>)
    ensures
        lookup_records(recs.push(x), path) == if lookup_records(recs, path) == Ok::<
            Option<(Seq<u8>, Seq<u32>, nat, nat)>,
            (),
        >(None) {
            lookup_records(seq![x], path)
        } else {
            lookup_records(recs, path)
        },
    decreases recs.len(),
{
    if recs.len() == 0 {
        assert(recs.push(x) =~= seq![x]);
    } else {
        lemma_lookup_push(recs.drop_first(), x, path);
        assert(recs.push(x).drop_first() =~= recs.drop_first().push(x));
        assert(recs.push(x)[0] == recs[0]);
    }
}

/// The entry `record_bytes(p, b, t, st)` alone is found under `p` and under
/// no other path.
pub proof fn lemma_lookup_single(p: Seq<u8>, b: Seq<u32>, t: nat, st: nat, path: Seq<u8>)
    requires
        record_fits(p, b),
        t <= usize::MAX,
        st <= u64::MAX,
    ensures
        lookup_records(seq![record_bytes(p, b, t, st)], path) == if p == path {
            Ok::<Option<(Seq<u8>, Seq<u32>, nat, nat)>, ()>(Some((p, b, t, st)))
        } else {
            Ok::<Option<(Seq<u8>, Seq<u32>, nat, nat)>, ()>(None)
        },
{
    lemma_record_round_trip(p, b, t, st);
    let s = seq![record_bytes(p, b, t, st)];
    assert(s.drop_first() =~= Seq::<Seq<u8>>::empty());
    assert(s[0] == record_bytes(p, b, t, st));
    assert(lookup_records(s.drop_first(), path) == Ok::<Option<(Seq<u8>, Seq<u32>, nat, nat)>, ()>(
        None,
    ));
}

/// Catalog lookup correctness: after the entries of two different paths,
/// neither known before, are appended, each path finds its own entry.
pub proof fn lemma_catalog_distinct_paths(
    s0: &BlockStore,
    s1: &BlockStore,
    s2: &BlockStore,
    path_a: Seq<u8>,
    blocks_a: Seq<u32>,
    total_a: nat,
    stamp_a: nat,
    path_b: Seq<u8>,
    blocks_b: Seq<u32>,
    total_b: nat,
    stamp_b: nat,
)
    requires
        path_a != path_b,
        record_fits(path_a, blocks_a),
        record_fits(path_b, blocks_b),
        total_a <= usize::MAX,
        total_b <= usize::MAX,
        stamp_a <= u64::MAX,
        stamp_b <= u64::MAX,
        catalog_lookup(s0, path_a) == Ok::<Option<(Seq<u8>, Seq<u32>, nat, nat)>, ()>(None),
        catalog_lookup(s0, path_b) == Ok::<Option<(Seq<u8>, Seq<u32>, nat, nat)>, ()>(None),
        catalog_records(s1) == catalog_records(s0).push(record_bytes(path_a, blocks_a, total_a, stamp_a)),
        catalog_records(s2) == catalog_records(s1).push(record_bytes(path_b, blocks_b, total_b, stamp_b)),
    ensures
        catalog_lookup(s2, path_a) == Ok::<Option<(Seq<u8>, Seq<u32>, nat, nat)>, ()>(Some((path_a, blocks_a, total_a, stamp_a))),
        catalog_lookup(s2, path_b) == Ok::<Option<(Seq<u8>, Seq<u32>, nat, nat)>, ()>(Some((path_b, blocks_b, total_b, stamp_b))),
{
    let r0 = catalog_records(s0);
    let r1 = catalog_records(s1);
    lemma_lookup_push(r0, record_bytes(path_a, blocks_a, total_a, stamp_a), path_a);
    lemma_lookup_push(r0, record_bytes(path_a, blocks_a, total_a, stamp_a), path_b);
    lemma_lookup_single(path_a, blocks_a, total_a, stamp_a, path_a);
    lemma_lookup_single(path_a, blocks_a, total_a, stamp_a, path_b);
    lemma_lookup_push(r1, record_bytes(path_b, blocks_b, total_b, stamp_b), path_a);
    lemma_lookup_push(r1, record_bytes(path_b, blocks_b, total_b, stamp_b), path_b);
    lemma_lookup_single(path_b, blocks_b, total_b, stamp_b, path_b);
}

/// The records of a sequence of entries.
pub open spec fn records_of(entries: Seq<(Seq<u8>, Seq<u32>, nat, nat)>) -> Seq<Seq<u8>> {
    entries.map_values(|e: (Seq<u8>, Seq<u32>, nat, nat)| record_bytes(e.0, e.1, e.2, e.3))
}

pub open spec fn entries_ok(entries: Seq<(Seq<u8>, Seq<u32>, nat, nat)>) -> bool {
    &&& forall|i: int|
        0 <= i < entries.len() ==> record_fits((#[trigger] entries[i]).0, entries[i].1)
            && entries[i].2 <= usize::MAX && entries[i].3 <= u64::MAX
    &&& forall|i: int, j: int| 0 <= i < j < entries.len() ==> entries[i].0 != entries[j].0
}

/// However many entries are appended, and however many catalog pages they
/// fill, every one of them is found under its path, the first included,
/// provided the paths are distinct and none was in the catalog before.
pub proof fn lemma_catalog_all_found(
    recs0: Seq<Seq<u8>>,
    entries: Seq<(Seq<u8>, Seq<u32>, nat, nat)>,
    k: int,
)
    requires
        entries_ok(entries),
        forall|i: int|
            0 <= i < entries.len() ==> lookup_records(recs0, (#[trigger] entries[i]).0) == Ok::<
                Option<(Seq<u8>, Seq<u32>, nat, nat)>,
                (),
            >(None),
        0 <= k < entries.len(),
    ensures
        lookup_records(recs0 + records_of(entries), entries[k].0) == Ok::<
            Option<(Seq<u8>, Seq<u32>, nat, nat)>,
            (),
        >(Some(entries[k])),
    decreases entries.len(),
{
    let n = entries.len();
    let last = entries[n - 1];
    let init = entries.drop_last();
    assert(records_of(entries) =~= records_of(init).push(record_bytes(last.0, last.1, last.2, last.3)));
    assert(recs0 + records_of(entries) =~= (recs0 + records_of(init)).push(
        record_bytes(last.0, last.1, last.2, last.3),
    ));
    lemma_lookup_push(recs0 + records_of(init), record_bytes(last.0, last.1, last.2, last.3), entries[k].0);
    lemma_lookup_single(last.0, last.1, last.2, last.3, entries[k].0);
    if k < n - 1 {
        assert(init[k] == entries[k]);
        assert(entries_ok(init)) by {
            assert forall|i: int| 0 <= i < init.len() implies record_fits(
                (#[trigger] init[i]).0,
                init[i].1,
            ) && init[i].2 <= usize::MAX && init[i].3 <= u64::MAX by {
                assert(init[i] == entries[i]);
            }
        }
        assert forall|i: int| 0 <= i < init.len() implies lookup_records(
            recs0,
            (#[trigger] init[i]).0,
        ) == Ok::<Option<(Seq<u8>, Seq<u32>, nat, nat)>, ()>(None) by {
            assert(init[i] == entries[i]);
        }
        lemma_catalog_all_found(recs0, init, k);
    } else {
        lemma_catalog_none_found(recs0, init, last.0);
    }
}

/// A path that none of the appended entries has and that the catalog did
/// not know is still not found.
pub proof fn lemma_catalog_none_found(
    recs0: Seq<Seq<u8>>,
    entries: Seq<(Seq<u8>, Seq<u32>, nat, nat)>,
    path: Seq<u8>,
)
    requires
        forall|i: int|
            0 <= i < entries.len() ==> record_fits((#[trigger] entries[i]).0, entries[i].1)
                && entries[i].2 <= usize::MAX && entries[i].3 <= u64::MAX && entries[i].0 != path,
        lookup_records(recs0, path) == Ok::<Option<(Seq<u8>, Seq<u32>, nat, nat)>, ()>(None),
    ensures
        lookup_records(recs0 + records_of(entries), path) == Ok::<
            Option<(Seq<u8>, Seq<u32>, nat, nat)>,
            (),
        >(None),
    decreases entries.len(),
{
    if entries.len() == 0 {
        assert(recs0 + records_of(entries) =~= recs0);
    } else {
        let n = entries.len();
        let last = entries[n - 1];
        let init = entries.drop_last();
        assert(records_of(entries) =~= records_of(init).push(record_bytes(last.0, last.1, last.2, last.3)));
        assert(recs0 + records_of(entries) =~= (recs0 + records_of(init)).push(
            record_bytes(last.0, last.1, last.2, last.3),
        ));
        assert forall|i: int| 0 <= i < init.len() implies record_fits(
            (#[trigger] init[i]).0,
            init[i].1,
        ) && init[i].2 <= usize::MAX && init[i].3 <= u64::MAX && init[i].0 != path by {
            assert(init[i] == entries[i]);
        }
        lemma_catalog_none_found(recs0, init, path);
        lemma_lookup_push(recs0 + records_of(init), record_bytes(last.0, last.1, last.2, last.3), path);
        lemma_lookup_single(last.0, last.1, last.2, last.3, path);
    }
}

} // verus!

//! Where an index's files live under the database's data directory:
//! `<data dir>/pg_search/<database oid>/<index oid>/<relfilenode>`.

use vstd::prelude::*;

use crate::codec::append_range;

verus! {

/// The top-level folder of an index's files.
#[derive(Clone, Debug, PartialEq, Eq)]
pub struct SearchIndexDirPath(pub Vec<u8>);

/// The index's configuration file, which lets an index be loaded across
/// connections.
#[derive(Clone, Debug, PartialEq, Eq)]
pub struct SearchIndexConfigFilePath(pub Vec<u8>);

/// The folder where the engine's index is created.
#[derive(Clone, Debug, PartialEq, Eq)]
pub struct TantivyDirPath(pub Vec<u8>);

/// The folder where pipe files for the writer process are created.
#[derive(Clone, Debug, PartialEq, Eq)]
pub struct WriterTransferPipeFilePath(pub Vec<u8>);

/// Order in which search results are returned.
#[derive(Clone, Copy, Debug, PartialEq, Eq, Structural)]
pub enum SortDirection {
    Asc,
    Desc,
}

/// Decimal digits of `n`, most significant first.
pub open spec fn decimal(n: nat) -> Seq<u8>
    decreases n,
{
    if n < 10 {
        seq![(48 + n) as u8]
    } else {
        decimal(n / 10) + seq![(48 + n % 10) as u8]
    }
}

/// `a` and `b` joined as path components.
pub open spec fn join(a: Seq<u8>, b: Seq<u8>) -> Seq<u8> {
    if a.len() == 0 {
        b
    } else if a.last() == 47u8 {
        a + b
    } else {
        a + seq![47u8] + b
    }
}

/// "pg_search"
pub open spec fn search_dir_name() -> Seq<u8> {
    seq![112u8, 103, 95, 115, 101, 97, 114, 99, 104]
}

/// "search-index.json"
pub open spec fn config_file_name() -> Seq<u8> {
    seq![115u8, 101, 97, 114, 99, 104, 45, 105, 110, 100, 101, 120, 46, 106, 115, 111, 110]
}

/// "tantivy"
pub open spec fn tantivy_dir_name() -> Seq<u8> {
    seq![116u8, 97, 110, 116, 105, 118, 121]
}

pub open spec fn index_dir(database_oid: u32, index_oid: u32) -> Seq<u8> {
    join(join(search_dir_name(), decimal(database_oid as nat)), decimal(index_oid as nat))
}

/// Appends the decimal digits of `n`.
pub fn push_decimal(out: &mut Vec<u8>, n: u32)
    ensures
        final(out)@ == old(out)@ + decimal(n as nat),
    decreases n,
{
    if n >= 10 {
        push_decimal(out, n / 10);
    }
    out.push((48 + n % 10) as u8);
    proof {
        if n < 10 {
            assert(n % 10 == n);
        }
    }
    assert(final(out)@ =~= old(out)@ + decimal(n as nat)) by {
        if n >= 10 {
        }
    }
}

/// `a` joined with `b` as path components.
pub fn join_path(a: &[u8], b: &[u8]) -> (r: Vec<u8>)
    ensures
        r@ == join(a@, b@),
{
    let mut out: Vec<u8> = Vec::new();
    append_range(&mut out, a, 0, a.len());
    assert(a@.subrange(0, a@.len() as int) =~= a@);
    if a.len() > 0 && a[a.len() - 1] != 47u8 {
        out.push(47u8);
    }
    let ghost mid = out@;
    append_range(&mut out, b, 0, b.len());
    assert(b@.subrange(0, b@.len() as int) =~= b@);
    assert(out@ =~= join(a@, b@));
    out
}

fn decimal_bytes(n: u32) -> (r: Vec<u8>)
    ensures
        r@ == decimal(n as nat),
{
    let mut v: Vec<u8> = Vec::new();
    push_decimal(&mut v, n);
    assert(v@ =~= decimal(n as nat));
    v
}

/// The file location of one index:
/// `<data dir>/pg_search/<database oid>/<index oid>/<relfilenode>`.
#[derive(Clone, Debug, PartialEq, Eq)]
pub struct WriterDirectory {
    pub database_oid: u32,
    pub index_oid: u32,
    pub relfilenode: u32,
    pub postgres_data_dir_path: Vec<u8>,
}

impl WriterDirectory {
    /// The location of an index whose data directory is
    /// `postgres_data_dir_path`.
    pub fn from_oids(
        database_oid: u32,
        index_oid: u32,
        relfilenode: u32,
        postgres_data_dir_path: Vec<u8>,
    ) -> (r: WriterDirectory)
        ensures
            r.database_oid == database_oid,
            r.index_oid == index_oid,
            r.relfilenode == relfilenode,
            r.postgres_data_dir_path == postgres_data_dir_path,
    {
        WriterDirectory { database_oid, index_oid, relfilenode, postgres_data_dir_path }
    }

    /// `pg_search/<database oid>/<index oid>`, relative to the data
    /// directory; a relation may have several relfilenodes under it.
    pub fn index_dir_path(database_oid: u32, index_oid: u32) -> (r: Vec<u8>)
        ensures
            r@ == index_dir(database_oid, index_oid),
    {
        let name: Vec<u8> = vec![112u8, 103, 95, 115, 101, 97, 114, 99, 104];
        assert(name@ =~= search_dir_name());
        let db = decimal_bytes(database_oid);
        let idx = decimal_bytes(index_oid);
        let p = join_path(name.as_slice(), db.as_slice());
        join_path(p.as_slice(), idx.as_slice())
    }

    /// The root folder of this index's files.
    pub fn search_index_dir_path(&self) -> (r: SearchIndexDirPath)
        ensures
            r.0@ == join(
                join(self.postgres_data_dir_path@, index_dir(self.database_oid, self.index_oid)),
                decimal(self.relfilenode as nat),
            ),
    {
        let index_dir = Self::index_dir_path(self.database_oid, self.index_oid);
        let base = join_path(self.postgres_data_dir_path.as_slice(), index_dir.as_slice());
        let rel = decimal_bytes(self.relfilenode);
        SearchIndexDirPath(join_path(base.as_slice(), rel.as_slice()))
    }

    /// The index's configuration file, in its root folder.
    pub fn search_index_config_file_path(&self) -> (r: SearchIndexConfigFilePath)
        ensures
            r.0@ == join(self.search_index_dir_path_spec(), config_file_name()),
    {
        let SearchIndexDirPath(root) = self.search_index_dir_path();
        let name: Vec<u8> = vec![
            115u8, 101, 97, 114, 99, 104, 45, 105, 110, 100, 101, 120, 46, 106, 115, 111, 110,
        ];
        assert(name@ =~= config_file_name());
        SearchIndexConfigFilePath(join_path(root.as_slice(), name.as_slice()))
    }

    /// The engine's folder, in the index's root folder.
    pub fn tantivy_dir_path(&self) -> (r: TantivyDirPath)
        ensures
            r.0@ == join(self.search_index_dir_path_spec(), tantivy_dir_name()),
    {
        let SearchIndexDirPath(root) = self.search_index_dir_path();
        let name: Vec<u8> = vec![116u8, 97, 110, 116, 105, 118, 121];
        assert(name@ =~= tantivy_dir_name());
        TantivyDirPath(join_path(root.as_slice(), name.as_slice()))
    }

    pub open spec fn search_index_dir_path_spec(&self) -> Seq<u8> {
        join(
            join(self.postgres_data_dir_path@, index_dir(self.database_oid, self.index_oid)),
            decimal(self.relfilenode as nat),
        )
    }
}

/// The identity of one index: database, index and relfilenode.
#[derive(Clone, Copy, Debug, PartialEq, Eq, Structural)]
pub struct SearchIndexEntity {
    pub database_oid: u32,
    pub index_oid: u32,
    pub relfilenode: u32,
}

impl SearchIndexEntity {
    pub fn from_oids(database_oid: u32, index_oid: u32, relfilenode: u32) -> (r: SearchIndexEntity)
        ensures
            r.database_oid == database_oid,
            r.index_oid == index_oid,
            r.relfilenode == relfilenode,
    {
        SearchIndexEntity { database_oid, index_oid, relfilenode }
    }
}

pub open spec fn is_digit(b: u8) -> bool {
    48 <= b <= 57
}

/// The number that the decimal digits `s` spell.
pub open spec fn digits_value(s: Seq<u8>) -> nat
    decreases s.len(),
{
    if s.len() == 0 {
        0
    } else {
        digits_value(s.drop_last()) * 10 + (s.last() - 48) as nat
    }
}

/// The digits of a folder name, after an optional leading "+".
pub open spec fn unsigned_digits(s: Seq<u8>) -> Seq<u8> {
    if s.len() > 0 && s[0] == 43u8 {
        s.drop_first()
    } else {
        s
    }
}

/// The relfilenode a folder name spells: an optional "+" and at least one
/// decimal digit, with a value that fits in 32 bits.
pub open spec fn relfilenode_of(s: Seq<u8>) -> Option<u32> {
    let d = unsigned_digits(s);
    if d.len() > 0 && (forall|i: int| 0 <= i < d.len() ==> is_digit(#[trigger] d[i]))
        && digits_value(d) <= u32::MAX {
        Some(digits_value(d) as u32)
    } else {
        None
    }
}

proof fn lemma_digits_value_monotone(s: Seq<u8>, i: int)
    requires
        0 <= i <= s.len(),
        forall|k: int| 0 <= k < s.len() ==> is_digit(#[trigger] s[k]),
    ensures
        digits_value(s.subrange(0, i)) <= digits_value(s),
    decreases s.len() - i,
{
    if i < s.len() {
        lemma_digits_value_monotone(s, i + 1);
        assert(s.subrange(0, i + 1).drop_last() =~= s.subrange(0, i));
    } else {
        assert(s.subrange(0, i) =~= s);
    }
}

/// Parses a folder name below an index's folder as a relfilenode.
pub fn parse_relfilenode(name: &[u8]) -> (r: Option<u32>)
    ensures
        r == relfilenode_of(name@),
{
    let start: usize = if name.len() > 0 && name[0] == 43u8 {
        1
    } else {
        0
    };
    let ghost d = unsigned_digits(name@);
    assert(d =~= name@.subrange(start as int, name@.len() as int));
    if start == name.len() {
        return None;
    }
    let mut value: u64 = 0;
    let mut i: usize = start;
    while i < name.len()
        invariant
            start <= i <= name@.len(),
            d == name@.subrange(start as int, name@.len() as int),
            d == unsigned_digits(name@),
            forall|k: int| start <= k < i ==> is_digit(#[trigger] name@[k]),
            value as nat == digits_value(name@.subrange(start as int, i as int)),
            value <= u32::MAX,
        decreases name@.len() - i,
    {
        let b = name[i];
        assert(d[i - start] == b);
        if b < 48 || b > 57 {
            assert(!is_digit(d[i - start]));
            assert(!(forall|k: int| 0 <= k < d.len() ==> is_digit(#[trigger] d[k])));
            assert(relfilenode_of(name@) is None);
            return None;
        }
        let ghost prefix = name@.subrange(start as int, i + 1);
        assert(prefix.drop_last() =~= name@.subrange(start as int, i as int));
        assert(prefix.last() == b);
        assert(digits_value(prefix) == digits_value(prefix.drop_last()) * 10 + (b - 48) as nat);
        value = value * 10 + (b - 48) as u64;
        if value > u32::MAX as u64 {
            proof {
                if forall|k: int| 0 <= k < d.len() ==> is_digit(#[trigger] d[k]) {
                    lemma_digits_value_monotone(d, i + 1 - start);
                    assert(d.subrange(0, i + 1 - start) =~= prefix);
                    assert(digits_value(d) > u32::MAX);
                }
                assert(relfilenode_of(name@) is None);
            }
            return None;
        }
        i = i + 1;
    }
    assert(name@.subrange(start as int, i as int) =~= d);
    Some(value as u32)
}

} // verus!

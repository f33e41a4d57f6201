//! The all-or-nothing block-commit protocol: a block's consensus seal,
//! its header root, and the latest-height marker are staged inside one
//! storage transaction and become visible together on commit, or not at
//! all. Verification of the block's fields is a distinct gate that must
//! succeed before a commit may be attempted.

use vstd::prelude::*;

use crate::block::{Block, Consensus, ImportResult};

verus! {

/// Why a block failed to verify or commit.
#[derive(Clone, Copy, Debug, PartialEq, Eq)]
pub enum Error {
    /// The block's height is not the next height after the latest
    /// committed one.
    InvalidBlockHeight,
    /// A consensus seal for this block id was already stored.
    SealOverwrite,
    /// A header root for this height was already stored.
    RootOverwrite,
    /// The pre-commit verification gate rejected the block's fields.
    InvalidBlockFields,
    /// No block has been committed yet.
    NoCommittedHeight,
}

/// A keyed store with unique `u64` keys: the in-memory model of one
/// storage column.
pub struct KvStore<V> {
    pairs: Vec<(u64, V)>,
}

impl<V: Copy> KvStore<V> {
    /// Keys are unique.
    pub closed spec fn wf(self) -> bool {
        forall|i: int, j: int|
            0 <= i < j < self.pairs@.len() ==> (#[trigger] self.pairs@[i]).0 != (
            #[trigger] self.pairs@[j]).0
    }

    /// A value is stored under the key.
    pub closed spec fn contains_key(self, k: u64) -> bool {
        exists|i: int| 0 <= i < self.pairs@.len() && (#[trigger] self.pairs@[i]).0 == k
    }

    /// The value stored under the key.
    pub closed spec fn value_of(self, k: u64) -> V {
        self.pairs@[choose|i: int| 0 <= i < self.pairs@.len() && (#[trigger] self.pairs@[i]).0
            == k].1
    }

    /// An empty store.
    pub fn new() -> (r: Self)
        ensures
            r.wf(),
            forall|k: u64| !r.contains_key(k),
    {
        Self { pairs: Vec::new() }
    }

    fn find_key(&self, k: u64) -> (r: Option<usize>)
        requires
            self.wf(),
        ensures
            match r {
                Some(i) => i < self.pairs@.len() && self.pairs@[i as int].0 == k
                    && self.contains_key(k) && self.value_of(k) == self.pairs@[i as int].1,
                None => !self.contains_key(k),
            },
    {
        let n = self.pairs.len();
        let mut i: usize = 0;
        while i < n
            invariant
                n == self.pairs.len(),
                i <= n,
                self.wf(),
                forall|w: int| 0 <= w < i ==> (#[trigger] self.pairs@[w]).0 != k,
            decreases n - i,
        {
            if self.pairs[i].0 == k {
                proof {
                    assert(self.contains_key(k));
                    let j = choose|j: int| 0 <= j < self.pairs@.len() && (#[trigger] self.pairs@[j]).0
                        == k;
                    if j < i {
                        assert(self.pairs@[j].0 != self.pairs@[i as int].0);
                    } else if i < j {
                        assert(self.pairs@[i as int].0 != self.pairs@[j].0);
                    }
                }
                return Some(i);
            }
            i += 1;
        }
        proof {
            assert(!self.contains_key(k)) by {
                if self.contains_key(k) {
                    let w = choose|w: int| 0 <= w < self.pairs@.len() && (#[trigger] self.pairs@[w]).0
                        == k;
                    assert(self.pairs@[w].0 != k);
                }
            }
        }
        None
    }

    /// The stored value for the key, if any.
    pub fn get(&self, k: u64) -> (r: Option<V>)
        requires
            self.wf(),
        ensures
            r == (if self.contains_key(k) {
                Some(self.value_of(k))
            } else {
                None::<V>
            }),
    {
        match self.find_key(k) {
            Some(i) => Some(self.pairs[i].1),
            None => None,
        }
    }

    /// Stores `v` under `k` and returns the previous value if one
    /// existed, rather than failing on overwrite.
    pub fn insert(&mut self, k: u64, v: V) -> (prior: Option<V>)
        requires
            old(self).wf(),
        ensures
            final(self).wf(),
            prior == (if old(self).contains_key(k) {
                Some(old(self).value_of(k))
            } else {
                None::<V>
            }),
            final(self).contains_key(k),
            final(self).value_of(k) == v,
            forall|k2: u64| k2 != k ==> final(self).contains_key(k2) == old(self).contains_key(k2),
            forall|k2: u64|
                k2 != k && old(self).contains_key(k2) ==> final(self).value_of(k2) == old(
                    self,
                ).value_of(k2),
    {
        let ghost p0 = self.pairs@;
        let ghost me0 = *self;
        match self.find_key(k) {
            Some(i) => {
                let prior = self.pairs[i].1;
                self.pairs.set(i, (k, v));
                proof {
                    assert(self.pairs@ == p0.update(i as int, (k, v)));
                    assert(self.contains_key(k)) by {
                        assert(self.pairs@[i as int].0 == k);
                    }
                    assert(self.value_of(k) == v) by {
                        let j = choose|j: int|
                            0 <= j < self.pairs@.len() && (#[trigger] self.pairs@[j]).0 == k;
                        if j != i {
                            assert(p0[j].0 == k);
                            assert(p0[i as int].0 == k);
                        }
                    }
                    assert forall|k2: u64| k2 != k implies self.contains_key(k2)
                        == me0.contains_key(k2) && (me0.contains_key(k2)
                        ==> self.value_of(k2) == me0.value_of(k2)) by {
                        if self.contains_key(k2) {
                            let w = choose|w: int|
                                0 <= w < self.pairs@.len() && (#[trigger] self.pairs@[w]).0 == k2;
                            assert(w != i);
                            assert(p0[w].0 == k2);
                            assert(me0.contains_key(k2));
                        }
                        if me0.contains_key(k2) {
                            let w = choose|w: int| 0 <= w < p0.len() && (#[trigger] p0[w]).0 == k2;
                            assert(w != i);
                            assert(self.pairs@[w].0 == k2);
                            assert(self.contains_key(k2));
                            let a = choose|a: int|
                                0 <= a < self.pairs@.len() && (#[trigger] self.pairs@[a]).0 == k2;
                            let b = choose|b: int| 0 <= b < p0.len() && (#[trigger] p0[b]).0 == k2;
                            assert(a != i && b != i);
                            assert(p0[a].0 == k2);
                            if a != b {
                                assert(p0[a].0 != p0[b].0);
                            }
                        }
                    }
                }
                Some(prior)
            }
            None => {
                self.pairs.push((k, v));
                proof {
                    assert(self.pairs@ == p0.push((k, v)));
                    assert(self.contains_key(k)) by {
                        assert(self.pairs@[p0.len() as int].0 == k);
                    }
                    assert(self.wf()) by {
                        assert forall|a: int, b: int|
                            0 <= a < b < self.pairs@.len() implies (#[trigger] self.pairs@[a]).0
                            != (#[trigger] self.pairs@[b]).0 by {
                            if b == self.pairs@.len() - 1 {
                                assert(self.pairs@[a] == p0[a]);
                                if p0[a].0 == k {
                                    assert(me0.contains_key(k));
                                }
                            }
                        }
                    }
                    assert(self.value_of(k) == v) by {
                        let j = choose|j: int|
                            0 <= j < self.pairs@.len() && (#[trigger] self.pairs@[j]).0 == k;
                        if j < p0.len() {
                            assert(p0[j].0 == k);
                            assert(me0.contains_key(k));
                        }
                    }
                    assert forall|k2: u64| k2 != k implies self.contains_key(k2)
                        == me0.contains_key(k2) && (me0.contains_key(k2)
                        ==> self.value_of(k2) == me0.value_of(k2)) by {
                        if self.contains_key(k2) {
                            let w = choose|w: int|
                                0 <= w < self.pairs@.len() && (#[trigger] self.pairs@[w]).0 == k2;
                            assert(w < p0.len());
                            assert(p0[w].0 == k2);
                            assert(me0.contains_key(k2));
                        }
                        if me0.contains_key(k2) {
                            let w = choose|w: int| 0 <= w < p0.len() && (#[trigger] p0[w]).0 == k2;
                            assert(self.pairs@[w].0 == k2);
                            assert(self.contains_key(k2));
                            let a = choose|a: int|
                                0 <= a < self.pairs@.len() && (#[trigger] self.pairs@[a]).0 == k2;
                            let b = choose|b: int| 0 <= b < p0.len() && (#[trigger] p0[b]).0 == k2;
                            assert(a < p0.len());
                            assert(p0[a].0 == k2);
                            if a != b {
                                assert(p0[a].0 != p0[b].0);
                            }
                        }
                    }
                }
                None
            }
        }
    }

    /// An element-wise copy (the stored values are plain copyable data).
    pub fn duplicate(&self) -> (r: Self)
        requires
            self.wf(),
        ensures
            r.wf(),
            forall|k: u64| r.contains_key(k) == self.contains_key(k),
            forall|k: u64| self.contains_key(k) ==> r.value_of(k) == self.value_of(k),
    {
        let n = self.pairs.len();
        let mut pairs: Vec<(u64, V)> = Vec::new();
        let mut i: usize = 0;
        while i < n
            invariant
                n == self.pairs.len(),
                i <= n,
                pairs@ == self.pairs@.take(i as int),
            decreases n - i,
        {
            proof {
                assert(self.pairs@.take(i + 1).drop_last() =~= self.pairs@.take(i as int));
                assert(self.pairs@.take(i + 1) =~= self.pairs@.take(i as int).push(
                    self.pairs@[i as int],
                ));
            }
            pairs.push(self.pairs[i]);
            i += 1;
        }
        proof {
            assert(self.pairs@.take(n as int) =~= self.pairs@);
        }
        let r = Self { pairs };
        proof {
            assert(r.pairs@ == self.pairs@);
            assert forall|k: u64| r.contains_key(k) == self.contains_key(k) by {
                if r.contains_key(k) {
                    let w = choose|w: int|
                        0 <= w < r.pairs@.len() && (#[trigger] r.pairs@[w]).0 == k;
                    assert(self.pairs@[w].0 == k);
                }
                if self.contains_key(k) {
                    let w = choose|w: int|
                        0 <= w < self.pairs@.len() && (#[trigger] self.pairs@[w]).0 == k;
                    assert(r.pairs@[w].0 == k);
                }
            }
            assert forall|k: u64| self.contains_key(k) implies r.value_of(k) == self.value_of(
                k,
            ) by {
                let a = choose|a: int| 0 <= a < r.pairs@.len() && (#[trigger] r.pairs@[a]).0 == k;
                let b = choose|b: int|
                    0 <= b < self.pairs@.len() && (#[trigger] self.pairs@[b]).0 == k;
                assert(self.pairs@[a].0 == k);
                if a != b {
                    assert(self.pairs@[a].0 != self.pairs@[b].0);
                }
            }
        }
        r
    }
}

/// The storage the importer writes: consensus seals by block id, header
/// merkle roots by height, and the latest committed height.
pub struct Database {
    seals: KvStore<Consensus>,
    roots: KvStore<u64>,
    latest: Option<u64>,
}

impl Database {
    pub closed spec fn wf(self) -> bool {
        self.seals.wf() && self.roots.wf()
    }

    /// The consensus seal stored for a block id, if any.
    pub closed spec fn seal_of(self, block_id: u64) -> Option<Consensus> {
        if self.seals.contains_key(block_id) {
            Some(self.seals.value_of(block_id))
        } else {
            None
        }
    }

    /// The header root stored for a height, if any.
    pub closed spec fn root_of(self, height: u64) -> Option<u64> {
        if self.roots.contains_key(height) {
            Some(self.roots.value_of(height))
        } else {
            None
        }
    }

    /// The latest committed height, if any block has been committed.
    pub closed spec fn latest_of(self) -> Option<u64> {
        self.latest
    }

    /// An empty database: no seals, no roots, no committed height.
    pub fn new() -> (r: Self)
        ensures
            r.wf(),
            forall|x: u64| r.seal_of(x) is None,
            forall|h: u64| r.root_of(h) is None,
            r.latest_of() is None,
    {
        Self { seals: KvStore::new(), roots: KvStore::new(), latest: None }
    }

    /// The latest committed height; an error while the chain is empty.
    pub fn latest_block_height(&self) -> (r: Result<u64, Error>)
        ensures
            r == (match self.latest_of() {
                Some(h) => Ok::<u64, Error>(h),
                None => Err::<u64, Error>(Error::NoCommittedHeight),
            }),
    {
        match self.latest {
            Some(h) => Ok(h),
            None => Err(Error::NoCommittedHeight),
        }
    }

    /// Stores a block's consensus seal, returning the prior seal if one
    /// existed; the caller decides whether an overwrite is an error.
    pub fn seal_block(&mut self, block_id: u64, consensus: Consensus) -> (prior: Option<Consensus>)
        requires
            old(self).wf(),
        ensures
            final(self).wf(),
            prior == old(self).seal_of(block_id),
            final(self).seal_of(block_id) == Some(consensus),
            forall|x: u64| x != block_id ==> final(self).seal_of(x) == old(self).seal_of(x),
            forall|h: u64| final(self).root_of(h) == old(self).root_of(h),
            final(self).latest_of() == old(self).latest_of(),
    {
        self.seals.insert(block_id, consensus)
    }

    /// Stores a block header's merkle root under its height, returning
    /// the prior root if one existed.
    pub fn insert_block_header_merkle_root(&mut self, height: u64, root: u64) -> (prior: Option<
        u64,
    >)
        requires
            old(self).wf(),
        ensures
            final(self).wf(),
            prior == old(self).root_of(height),
            final(self).root_of(height) == Some(root),
            forall|h: u64| h != height ==> final(self).root_of(h) == old(self).root_of(h),
            forall|x: u64| final(self).seal_of(x) == old(self).seal_of(x),
            final(self).latest_of() == old(self).latest_of(),
    {
        self.roots.insert(height, root)
    }

    /// Moves the latest-known-height marker.
    pub fn set_latest_height(&mut self, height: u64)
        requires
            old(self).wf(),
        ensures
            final(self).wf(),
            final(self).latest_of() == Some(height),
            forall|x: u64| final(self).seal_of(x) == old(self).seal_of(x),
            forall|h: u64| final(self).root_of(h) == old(self).root_of(h),
    {
        self.latest = Some(height);
    }

    /// Reads back the stored consensus seal for a block id.
    pub fn get_seal(&self, block_id: u64) -> (r: Option<Consensus>)
        requires
            self.wf(),
        ensures
            r == self.seal_of(block_id),
    {
        self.seals.get(block_id)
    }

    /// Reads back the stored header root for a height.
    pub fn get_root(&self, height: u64) -> (r: Option<u64>)
        requires
            self.wf(),
        ensures
            r == self.root_of(height),
    {
        self.roots.get(height)
    }

    /// A full copy with the same contents.
    pub fn snapshot(&self) -> (r: Self)
        requires
            self.wf(),
        ensures
            r.wf(),
            forall|x: u64| r.seal_of(x) == self.seal_of(x),
            forall|h: u64| r.root_of(h) == self.root_of(h),
            r.latest_of() == self.latest_of(),
    {
        Self { seals: self.seals.duplicate(), roots: self.roots.duplicate(), latest: self.latest }
    }
}

/// A not-yet-applied storage transaction: a scoped copy of the database
/// holding staged writes. Nothing of it is visible until `commit`, which
/// consumes it and makes every staged write durable at once.
pub struct StorageTransaction {
    pub db: Database,
}

impl StorageTransaction {
    /// Opens a transaction over the current database contents.
    pub fn new(database: &Database) -> (r: Self)
        requires
            database.wf(),
        ensures
            r.db.wf(),
            forall|x: u64| r.db.seal_of(x) == database.seal_of(x),
            forall|h: u64| r.db.root_of(h) == database.root_of(h),
            r.db.latest_of() == database.latest_of(),
    {
        Self { db: database.snapshot() }
    }

    /// The single atomic commit point: every staged write becomes visible
    /// together. The transaction is consumed and can never be reused.
    pub fn commit(self, target: &mut Database)
        ensures
            *final(target) == self.db,
    {
        *target = self.db;
    }
}

/// An application-level import result paired with the storage transaction
/// holding its staged, not-yet-applied writes.
pub struct UncommittedResult {
    pub result: ImportResult,
    pub transaction: StorageTransaction,
}

/// The modeled pre-commit validity of a block's consensus fields: a
/// genesis seal is accepted only at height zero, and a proof-of-authority
/// seal must carry a nonzero signature. This stands for the external
/// consensus rule gating commit.
pub open spec fn block_fields_ok(consensus: Consensus, block: Block) -> bool {
    match consensus {
        Consensus::Genesis => block.height == 0,
        Consensus::PoA { signature } => signature != 0,
    }
}

/// The verification gate consulted before any commit.
pub struct VerifierAdapter {}

impl VerifierAdapter {
    pub fn new() -> (r: Self) {
        Self {  }
    }

    /// Succeeds exactly on blocks whose consensus fields are valid; it
    /// must be invoked, and succeed, before a block's transaction is
    /// committed.
    pub fn verify_block_fields(&self, consensus: &Consensus, block: &Block) -> (r: Result<
        (),
        Error,
    >)
        ensures
            r.is_ok() <==> block_fields_ok(*consensus, *block),
            r.is_err() ==> r == Err::<(), Error>(Error::InvalidBlockFields),
    {
        let ok = match consensus {
            Consensus::Genesis => block.height == 0,
            Consensus::PoA { signature } => *signature != 0,
        };
        if ok {
            Ok(())
        } else {
            Err(Error::InvalidBlockFields)
        }
    }
}

/// The height the chain expects next: zero on an empty chain, otherwise
/// the successor of the latest committed height (none if that height is
/// already the largest representable one).
pub open spec fn next_height(db: Database) -> Option<u64> {
    match db.latest_of() {
        None => Some(0u64),
        Some(h) => if h < u64::MAX {
            Some((h + 1) as u64)
        } else {
            None
        },
    }
}

/// The commit side of the import pipeline, owning the database the
/// protocol writes.
pub struct BlockImporterAdapter {
    pub database: Database,
}

impl BlockImporterAdapter {
    pub fn new(database: Database) -> (r: Self)
        ensures
            r.database == database,
    {
        Self { database }
    }

    /// Applies an uncommitted result exactly once: checks the block's
    /// height, stages the consensus seal, the header root and the
    /// latest-height marker inside the wrapped transaction, and commits
    /// everything atomically. On any failure the transaction is discarded
    /// and the database is left exactly as it was — no partial write is
    /// ever visible. The block must have passed `verify_block_fields`
    /// before this is called.
    pub fn commit_result(&mut self, uncommitted: UncommittedResult) -> (r: Result<(), Error>)
        requires
            old(self).database.wf(),
            uncommitted.transaction.db.wf(),
            block_fields_ok(
                uncommitted.result.sealed_block.consensus,
                uncommitted.result.sealed_block.entity,
            ),
        ensures
            final(self).database.wf(),
            r.is_err() ==> final(self).database == old(self).database,
            ({
                let b = uncommitted.result.sealed_block.entity;
                let seal = uncommitted.result.sealed_block.consensus;
                let tdb = uncommitted.transaction.db;
                let height_ok = Some(b.height) == next_height(old(self).database);
                &&& (r.is_ok() <==> height_ok && tdb.seal_of(b.id) is None && tdb.root_of(b.height)
                    is None)
                &&& (!height_ok ==> r == Err::<(), Error>(Error::InvalidBlockHeight))
                &&& (height_ok && tdb.seal_of(b.id) is Some ==> r == Err::<(), Error>(
                    Error::SealOverwrite,
                ))
                &&& (height_ok && tdb.seal_of(b.id) is None && tdb.root_of(b.height) is Some ==> r
                    == Err::<(), Error>(Error::RootOverwrite))
                &&& (r.is_ok() ==> {
                    &&& final(self).database.seal_of(b.id) == Some(seal)
                    &&& final(self).database.root_of(b.height) == Some(b.header_root)
                    &&& final(self).database.latest_of() == Some(b.height)
                    &&& forall|x: u64|
                        x != b.id ==> final(self).database.seal_of(x) == tdb.seal_of(x)
                    &&& forall|h: u64|
                        h != b.height ==> final(self).database.root_of(h) == tdb.root_of(h)
                })
            }),
    {
        let UncommittedResult { result, transaction } = uncommitted;
        let mut tx = transaction;
        let block = result.sealed_block.entity;
        let consensus = result.sealed_block.consensus;
        let expected: u64 = match self.database.latest_block_height() {
            Ok(h) => {
                if h == u64::MAX {
                    return Err(Error::InvalidBlockHeight);
                }
                h + 1
            }
            Err(_) => 0,
        };
        if block.height != expected {
            return Err(Error::InvalidBlockHeight);
        }
        let prior_seal = tx.db.seal_block(block.id, consensus);
        if prior_seal.is_some() {
            return Err(Error::SealOverwrite);
        }
        let prior_root = tx.db.insert_block_header_merkle_root(block.height, block.header_root);
        if prior_root.is_some() {
            return Err(Error::RootOverwrite);
        }
        tx.db.set_latest_height(block.height);
        tx.commit(&mut self.database);
        Ok(())
    }

    /// The latest committed height the importer validates the next block
    /// against.
    pub fn latest_block_height(&self) -> (r: Result<u64, Error>)
        ensures
            r == (match self.database.latest_of() {
                Some(h) => Ok::<u64, Error>(h),
                None => Err::<u64, Error>(Error::NoCommittedHeight),
            }),
    {
        self.database.latest_block_height()
    }
}

} // verus!

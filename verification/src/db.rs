//! The database facade: single-key convenience calls and batch replay
//! atop the memtable.
//!
//! `set` and `delete` build one-record batches and go through `apply`,
//! which decodes a batch and replays each record in decode order.
//! Replay is not transactional: when a delete fails with `NotFound`
//! partway through a batch, the records already replayed stay applied.

use vstd::prelude::*;

use crate::batch::{decode_all, parse_step, Batch, ParseStep, Record};
use crate::kv::{Error, Key, Op, Value};
use crate::memtable::{
    contains_key, latest, mem_delete, mem_set, EntryModel, Memtable, TableModel,
};
use crate::batch;

verus! {

/// The table after replaying `rs` in order, stopping (with everything
/// earlier kept) at the first delete of an absent key.
pub open spec fn replay(m: TableModel, rs: Seq<Record>) -> TableModel
    decreases rs.len(),
{
    if rs.len() == 0 {
        m
    } else {
        match rs[0].0 {
            Op::Put => replay(mem_set(m, rs[0].1, rs[0].2), rs.skip(1)),
            Op::Delete => if contains_key(m, rs[0].1) {
                replay(mem_delete(m, rs[0].1), rs.skip(1))
            } else {
                m
            },
        }
    }
}

/// Whether every record of `rs` replays cleanly on `m`: every delete
/// finds its key present at its turn.
pub open spec fn replay_ok(m: TableModel, rs: Seq<Record>) -> bool
    decreases rs.len(),
{
    if rs.len() == 0 {
        true
    } else {
        match rs[0].0 {
            Op::Put => replay_ok(mem_set(m, rs[0].1, rs[0].2), rs.skip(1)),
            Op::Delete => contains_key(m, rs[0].1) && replay_ok(mem_delete(m, rs[0].1), rs.skip(1)),
        }
    }
}

/// The database: a memtable behind single-operation methods and batch
/// replay.
pub struct DB {
    memtable: Memtable,
}

impl View for DB {
    type V = TableModel;

    /// The model of the underlying table.
    closed spec fn view(&self) -> TableModel {
        self.memtable@
    }
}

impl DB {
    /// The underlying table is well-formed: keys strictly ascend and
    /// every entry has at least one version.
    pub closed spec fn wf(&self) -> bool {
        self.memtable.wf()
    }

    /// Creates a database with an empty table.
    pub fn new() -> (r: DB)
        ensures
            r.wf(),
            r@ == Seq::<EntryModel>::empty(),
    {
        DB { memtable: Memtable::new() }
    }

    /// Sets `key` to `value` through a one-record batch: the newest
    /// version of the key becomes `value`.
    pub fn set(&mut self, key: Key, value: Value) -> (r: Result<(), Error>)
        requires
            old(self).wf(),
            key@.len() <= u32::MAX,
            value@.len() <= u32::MAX,
        ensures
            final(self).wf(),
            r == Ok::<(), Error>(()),
            final(self)@ == mem_set(old(self)@, key@, value@),
    {
        let ghost m0 = self@;
        let mut b = Batch::new();
        match b.set(&key, &value) {
            Ok(_) => {},
            Err(e) => {
                return Err(e);
            },
        }
        let ghost rec = (Op::Put, key@, value@);
        proof {
            assert(b@[0] == rec);
            assert(b@.len() == 1);
            assert(b@.skip(1) =~= Seq::<Record>::empty());
            assert(replay(m0, b@) == replay(mem_set(m0, key@, value@), b@.skip(1)));
            assert(replay(mem_set(m0, key@, value@), b@.skip(1)) == mem_set(m0, key@, value@));
            assert(replay_ok(m0, b@) == replay_ok(mem_set(m0, key@, value@), b@.skip(1)));
            assert(replay_ok(mem_set(m0, key@, value@), b@.skip(1)));
        }
        self.apply(&b)
    }

    /// Deletes `key` through a one-record batch: a present key gains a
    /// tombstone; an absent key is `NotFound` and nothing changes.
    pub fn delete(&mut self, key: &Key) -> (r: Result<(), Error>)
        requires
            old(self).wf(),
            key@.len() <= u32::MAX,
        ensures
            final(self).wf(),
            contains_key(old(self)@, key@) ==> r == Ok::<(), Error>(()) && final(self)@
                == mem_delete(old(self)@, key@),
            !contains_key(old(self)@, key@) ==> r == Err::<(), Error>(Error::NotFound)
                && final(self)@ == old(self)@,
    {
        let ghost m0 = self@;
        let mut b = Batch::new();
        match b.delete(key) {
            Ok(_) => {},
            Err(e) => {
                return Err(e);
            },
        }
        let ghost rec = (Op::Delete, key@, Seq::<u8>::empty());
        proof {
            assert(b@[0] == rec);
            assert(b@.len() == 1);
            assert(b@.skip(1) =~= Seq::<Record>::empty());
            if contains_key(m0, key@) {
                assert(replay(m0, b@) == replay(mem_delete(m0, key@), b@.skip(1)));
                assert(replay(mem_delete(m0, key@), b@.skip(1)) == mem_delete(m0, key@));
                assert(replay_ok(m0, b@) == replay_ok(mem_delete(m0, key@), b@.skip(1)));
                assert(replay_ok(mem_delete(m0, key@), b@.skip(1)));
            } else {
                assert(replay(m0, b@) == m0);
                assert(!replay_ok(m0, b@));
            }
        }
        self.apply(&b)
    }

    /// Looks `key` up: the latest version when it is a value; `NotFound`
    /// for a key never set and for a key whose latest version is a
    /// tombstone, uniformly.
    pub fn get(&self, key: &Key) -> (r: Result<&Value, Error>)
        requires
            self.wf(),
        ensures
            (r matches Ok(v) ==> latest(self@, key@) == Some(v@)),
            (r matches Err(e) ==> e == Error::NotFound && latest(self@, key@) is None),
    {
        match self.memtable.get(key) {
            Some(value) => Ok(value),
            None => Err(Error::NotFound),
        }
    }

    /// Decodes `batch` and replays each record onto the table in decode
    /// order. Replay stops at the first delete of an absent key with
    /// `NotFound`; records already replayed stay applied (no rollback).
    pub fn apply(&mut self, batch: &Batch) -> (r: Result<(), Error>)
        requires
            old(self).wf(),
            batch.wf(),
        ensures
            final(self).wf(),
            final(self)@ == replay(old(self)@, batch@),
            replay_ok(old(self)@, batch@) ==> r == Ok::<(), Error>(()),
            !replay_ok(old(self)@, batch@) ==> r == Err::<(), Error>(Error::NotFound),
    {
        let ghost m0 = self@;
        let ghost all = batch@;
        let mut it = batch.iter();
        let ghost mut rest = batch@;
        loop
            invariant
                self.wf(),
                it.inv(),
                m0 == old(self)@,
                all == batch@,
                decode_all(it@) == Some(rest),
                replay(m0, all) == replay(self@, rest),
                replay_ok(m0, all) == replay_ok(self@, rest),
            decreases it@.len(),
        {
            let ghost prev = it@;
            let ghost m_prev = self@;
            match it.next() {
                None => {
                    proof {
                        batch::lemma_decode_step(prev, rest);
                        if rest.len() > 0 {
                            assert(false);
                        }
                        assert(replay(m_prev, rest) == m_prev);
                        assert(replay_ok(m_prev, rest));
                    }
                    return Ok(());
                },
                Some(Err(_)) => {
                    proof {
                        batch::lemma_decode_step(prev, rest);
                        if rest.len() == 0 {
                            assert(parse_step(prev) is End);
                        }
                        assert(false);
                    }
                    return Err(Error::NotFound);
                },
                Some(Ok((op, k, v))) => {
                    proof {
                        batch::lemma_decode_step(prev, rest);
                        if rest.len() == 0 {
                            assert(parse_step(prev) is End);
                            assert(false);
                        }
                    }
                    match op {
                        Op::Put => {
                            proof {
                                assert(replay(m_prev, rest) == replay(
                                    mem_set(m_prev, rest[0].1, rest[0].2),
                                    rest.skip(1),
                                ));
                                assert(replay_ok(m_prev, rest) == replay_ok(
                                    mem_set(m_prev, rest[0].1, rest[0].2),
                                    rest.skip(1),
                                ));
                            }
                            match self.memtable.set(k, v) {
                                Ok(_) => {},
                                Err(e) => {
                                    return Err(e);
                                },
                            }
                            proof {
                                rest = rest.skip(1);
                            }
                        },
                        Op::Delete => {
                            match self.memtable.delete(&k) {
                                Ok(_) => {
                                    proof {
                                        if !contains_key(m_prev, rest[0].1) {
                                            assert(false);
                                        }
                                        assert(replay(m_prev, rest) == replay(
                                            mem_delete(m_prev, rest[0].1),
                                            rest.skip(1),
                                        ));
                                        assert(replay_ok(m_prev, rest) == replay_ok(
                                            mem_delete(m_prev, rest[0].1),
                                            rest.skip(1),
                                        ));
                                        rest = rest.skip(1);
                                    }
                                },
                                Err(_) => {
                                    proof {
                                        if contains_key(m_prev, rest[0].1) {
                                            assert(false);
                                        }
                                        assert(replay(m_prev, rest) == m_prev);
                                        assert(!replay_ok(m_prev, rest));
                                    }
                                    return Err(Error::NotFound);
                                },
                            }
                        },
                    }
                },
            }
        }
    }
}

} // verus!

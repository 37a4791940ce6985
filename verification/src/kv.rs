//! The cache node's state: an in-memory key-value mapping rebuilt from
//! the log.
//!
//! The mapping is held as a list of key-value pairs with unique keys and
//! viewed as a map from key bytes to value bytes. Replay decodes every
//! log payload as a frame and applies it in order to an empty mapping;
//! writes mutate the mapping one operation at a time. Sending writes to
//! the log service happens outside the library, before the local
//! mutation.

use crate::encoding::{spec_decode, KVOperation, OpModel};
use crate::error::Error;
use crate::records::{bytes_eq, copy_range, lemma_vecs_deep_view};
use vstd::prelude::*;
use vstd::slice::slice_to_vec;

verus! {

/// How often the cache dials the log service before giving up.
pub const CONNECT_ATTEMPTS: usize = 5;

/// The pause between connection attempts, in seconds.
pub const CONNECT_RETRY_SECS: u64 = 5;

/// Whether a failed connection attempt is followed by another: the
/// cache retries until the attempt bound, then fails its startup.
pub fn should_retry_connect(failed_attempts: usize) -> (r: bool)
    ensures
        r == (failed_attempts < CONNECT_ATTEMPTS),
{
    failed_attempts < CONNECT_ATTEMPTS
}

/// No two pairs share a key.
pub open spec fn unique_keys(s: Seq<(Vec<u8>, Vec<u8>)>) -> bool {
    forall|i: int, j: int|
        0 <= i < j < s.len() ==> (#[trigger] s[i]).0@ != (#[trigger] s[j]).0@
}

/// The mapping that a pair list denotes: later pairs win.
pub open spec fn assoc_map(s: Seq<(Vec<u8>, Vec<u8>)>) -> Map<Seq<u8>, Seq<u8>>
    decreases s.len(),
{
    if s.len() == 0 {
        Map::empty()
    } else {
        assoc_map(s.drop_last()).insert(s.last().0@, s.last().1@)
    }
}

/// A key is in the map exactly when some pair carries it.
pub proof fn lemma_assoc_contains(s: Seq<(Vec<u8>, Vec<u8>)>, k: Seq<u8>)
    ensures
        assoc_map(s).contains_key(k) <==> exists|i: int| 0 <= i < s.len() && (#[trigger] s[i]).0@
            == k,
    decreases s.len(),
{
    if s.len() == 0 {
    } else {
        lemma_assoc_contains(s.drop_last(), k);
        if assoc_map(s).contains_key(k) {
            if s.last().0@ == k {
                assert(s[s.len() - 1].0@ == k);
            } else {
                let i = choose|i: int| 0 <= i < s.drop_last().len() && (#[trigger] s.drop_last()[
                    i]).0@ == k;
                assert(s[i].0@ == k);
            }
        }
        if exists|i: int| 0 <= i < s.len() && (#[trigger] s[i]).0@ == k {
            let i = choose|i: int| 0 <= i < s.len() && (#[trigger] s[i]).0@ == k;
            if i < s.len() - 1 {
                assert(s.drop_last()[i].0@ == k);
            }
        }
    }
}

/// With unique keys, the value at a pair's key is that pair's value.
pub proof fn lemma_assoc_value(s: Seq<(Vec<u8>, Vec<u8>)>, i: int)
    requires
        unique_keys(s),
        0 <= i < s.len(),
    ensures
        assoc_map(s).contains_key(s[i].0@),
        assoc_map(s)[s[i].0@] == s[i].1@,
    decreases s.len(),
{
    if i == s.len() - 1 {
    } else {
        assert(unique_keys(s.drop_last())) by {
            assert(forall|a: int, b: int|
                0 <= a < b < s.drop_last().len() ==> (#[trigger] s.drop_last()[a]) == s[a]
                    && (#[trigger] s.drop_last()[b]) == s[b]);
        }
        assert(s.drop_last()[i] == s[i]);
        lemma_assoc_value(s.drop_last(), i);
        assert(s.last().0@ != s[i].0@);
    }
}

/// The cache mapping: key-value pairs in first-insertion order, with
/// unique keys.
pub struct Store {
    /// The pairs; `wf` keeps their keys unique.
    pub entries: Vec<(Vec<u8>, Vec<u8>)>,
}

impl View for Store {
    type V = Map<Seq<u8>, Seq<u8>>;

    open spec fn view(&self) -> Map<Seq<u8>, Seq<u8>> {
        assoc_map(self.entries@)
    }
}

impl Store {
    /// The keys in the pair list are unique.
    pub open spec fn wf(&self) -> bool {
        unique_keys(self.entries@)
    }

    /// An empty mapping.
    pub fn new() -> (r: Store)
        ensures
            r.wf(),
            r@ == Map::<Seq<u8>, Seq<u8>>::empty(),
    {
        Store { entries: Vec::new() }
    }

    /// Finds the position of `key` in the pair list, if present.
    fn find(&self, key: &[u8]) -> (r: Option<usize>)
        ensures
            match r {
                Some(i) => i < self.entries@.len() && self.entries@[i as int].0@ == key@,
                None => forall|i: int|
                    0 <= i < self.entries@.len() ==> (#[trigger] self.entries@[i]).0@ != key@,
            },
    {
        let n = self.entries.len();
        let mut i: usize = 0;
        while i < n
            invariant
                i <= n,
                n == self.entries@.len(),
                forall|j: int| 0 <= j < i ==> (#[trigger] self.entries@[j]).0@ != key@,
            decreases n - i,
        {
            let pair = &self.entries[i];
            if bytes_eq(pair.0.as_slice(), key) {
                return Some(i);
            }
            i = i + 1;
        }
        None
    }

    /// Returns the value stored under `key`, if any. Reads only local
    /// state.
    pub fn get(&self, key: &[u8]) -> (r: Option<Vec<u8>>)
        requires
            self.wf(),
        ensures
            match r {
                Some(v) => self@.contains_key(key@) && v@ == self@[key@],
                None => !self@.contains_key(key@),
            },
    {
        match self.find(key) {
            Some(i) => {
                let pair = &self.entries[i];
                let v = copy_range(&pair.1, 0, pair.1.len());
                proof {
                    lemma_assoc_value(self.entries@, i as int);
                    assert(v@ =~= self.entries@[i as int].1@);
                }
                Some(v)
            },
            None => {
                proof {
                    lemma_assoc_contains(self.entries@, key@);
                }
                None
            },
        }
    }

    /// Binds `key` to `value` and returns the value it replaced, if
    /// any.
    pub fn set(&mut self, key: &[u8], value: &[u8]) -> (prev: Option<Vec<u8>>)
        requires
            old(self).wf(),
        ensures
            final(self).wf(),
            final(self)@ == old(self)@.insert(key@, value@),
            match prev {
                Some(v) => old(self)@.contains_key(key@) && v@ == old(self)@[key@],
                None => !old(self)@.contains_key(key@),
            },
    {
        let key_vec = slice_to_vec(key);
        let value_vec = slice_to_vec(value);
        match self.find(key) {
            Some(i) => {
                let pair = &self.entries[i];
                let v = copy_range(&pair.1, 0, pair.1.len());
                proof {
                    lemma_assoc_value(self.entries@, i as int);
                    assert(v@ =~= self.entries@[i as int].1@);
                }
                self.entries.set(i, (key_vec, value_vec));
                proof {
                    lemma_assoc_update(old(self).entries@, i as int, self.entries@[i as int]);
                }
                Some(v)
            },
            None => {
                proof {
                    lemma_assoc_contains(self.entries@, key@);
                }
                self.entries.push((key_vec, value_vec));
                proof {
                    assert(self.entries@.drop_last() =~= old(self).entries@);
                }
                None
            },
        }
    }

    /// Removes `key` and returns the value it held, if any. An absent
    /// key changes nothing.
    pub fn delete(&mut self, key: &[u8]) -> (prev: Option<Vec<u8>>)
        requires
            old(self).wf(),
        ensures
            final(self).wf(),
            final(self)@ == old(self)@.remove(key@),
            match prev {
                Some(v) => old(self)@.contains_key(key@) && v@ == old(self)@[key@],
                None => !old(self)@.contains_key(key@),
            },
    {
        match self.find(key) {
            Some(i) => {
                let pair = &self.entries[i];
                let v = copy_range(&pair.1, 0, pair.1.len());
                proof {
                    lemma_assoc_value(self.entries@, i as int);
                    assert(v@ =~= self.entries@[i as int].1@);
                }
                self.entries.remove(i);
                proof {
                    lemma_assoc_remove(old(self).entries@, i as int);
                    assert(self.entries@ =~= old(self).entries@.remove(i as int));
                }
                Some(v)
            },
            None => {
                proof {
                    lemma_assoc_contains(self.entries@, key@);
                    assert(old(self)@ =~= old(self)@.remove(key@));
                }
                None
            },
        }
    }

    /// Lists every pair, in first-insertion order.
    pub fn list(&self) -> (r: Vec<(Vec<u8>, Vec<u8>)>)
        requires
            self.wf(),
        ensures
            r@.len() == self.entries@.len(),
            forall|i: int|
                0 <= i < r@.len() ==> (#[trigger] r@[i]).0@ == self.entries@[i].0@ && r@[i].1@
                    == self.entries@[i].1@,
            forall|i: int|
                0 <= i < r@.len() ==> self@.contains_key((#[trigger] r@[i]).0@) && self@[r@[i].0@]
                    == r@[i].1@,
            forall|k: Seq<u8>|
                self@.contains_key(k) ==> exists|i: int| 0 <= i < r@.len() && (#[trigger] r@[
                    i]).0@ == k,
    {
        let n = self.entries.len();
        let mut out: Vec<(Vec<u8>, Vec<u8>)> = Vec::new();
        let mut i: usize = 0;
        while i < n
            invariant
                i <= n,
                n == self.entries@.len(),
                out@.len() == i,
                forall|j: int|
                    0 <= j < i ==> (#[trigger] out@[j]).0@ == self.entries@[j].0@ && out@[j].1@
                        == self.entries@[j].1@,
            decreases n - i,
        {
            let pair = &self.entries[i];
            let k = copy_range(&pair.0, 0, pair.0.len());
            let v = copy_range(&pair.1, 0, pair.1.len());
            out.push((k, v));
            i = i + 1;
        }
        proof {
            assert forall|i: int| 0 <= i < out@.len() implies self@.contains_key(
                (#[trigger] out@[i]).0@,
            ) && self@[out@[i].0@] == out@[i].1@ by {
                lemma_assoc_value(self.entries@, i);
            }
            assert forall|k: Seq<u8>| self@.contains_key(k) implies exists|i: int|
                0 <= i < out@.len() && (#[trigger] out@[i]).0@ == k by {
                lemma_assoc_contains(self.entries@, k);
                let i = choose|i: int|
                    0 <= i < self.entries@.len() && (#[trigger] self.entries@[i]).0@ == k;
                assert(out@[i].0@ == k);
            }
        }
        out
    }
}

/// One operation applied to a mapping: a set binds, a delete unbinds,
/// and a get changes nothing.
pub open spec fn apply_op(m: Map<Seq<u8>, Seq<u8>>, op: OpModel) -> Map<Seq<u8>, Seq<u8>> {
    match op {
        OpModel::Get => m,
        OpModel::Delete(k) => m.remove(k),
        OpModel::Put(k, v) => m.insert(k, v),
    }
}

/// Every payload decodes as a frame.
pub open spec fn all_decodable(entries: Seq<Seq<u8>>) -> bool {
    forall|i: int| 0 <= i < entries.len() ==> (#[trigger] spec_decode(entries[i])) is Some
}

/// The mapping after applying the decoded operations of `entries` to
/// `m`, in order. A payload that does not decode is passed over; replay
/// itself fails on such a payload instead.
pub open spec fn replay_ops(m: Map<Seq<u8>, Seq<u8>>, entries: Seq<Seq<u8>>) -> Map<
    Seq<u8>,
    Seq<u8>,
>
    decreases entries.len(),
{
    if entries.len() == 0 {
        m
    } else {
        let rest = replay_ops(m, entries.drop_last());
        match spec_decode(entries.last()) {
            Some(op) => apply_op(rest, op),
            None => rest,
        }
    }
}

impl Store {
    /// Applies one well-formed operation to the mapping. A get is
    /// ignored: it never appears in a persisted record.
    pub fn apply(&mut self, op: &KVOperation)
        requires
            old(self).wf(),
            op.wf(),
        ensures
            final(self).wf(),
            final(self)@ == apply_op(old(self)@, op@),
    {
        match op {
            KVOperation::Get => {},
            KVOperation::Delete(k) => {
                let key = copy_range(k, 4, k.len());
                proof {
                    assert(key@ =~= k@.skip(4));
                }
                self.delete(key.as_slice());
            },
            KVOperation::Put(k, v) => {
                let key = copy_range(k, 4, k.len());
                let value = copy_range(v, 4, v.len());
                proof {
                    assert(key@ =~= k@.skip(4));
                    assert(value@ =~= v@.skip(4));
                }
                self.set(key.as_slice(), value.as_slice());
            },
        }
    }

    /// Rebuilds a mapping by decoding every log payload as a frame and
    /// applying it, in log order, to an empty mapping. Fails with a
    /// parse error exactly when some payload does not decode.
    pub fn replay(entries: &Vec<Vec<u8>>) -> (r: Result<Store, Error>)
        ensures
            match r {
                Ok(s) => {
                    &&& all_decodable(entries.deep_view())
                    &&& s.wf()
                    &&& s@ == replay_ops(Map::empty(), entries.deep_view())
                },
                Err(e) => !all_decodable(entries.deep_view()) && e is Parse,
            },
    {
        let ghost logv = entries.deep_view();
        proof {
            lemma_vecs_deep_view(*entries);
            assert(logv.take(0) =~= Seq::<Seq<u8>>::empty());
        }
        let mut store = Store::new();
        let n = entries.len();
        let mut i: usize = 0;
        while i < n
            invariant
                i <= n,
                n == entries@.len(),
                logv == entries.deep_view(),
                logv.len() == n,
                forall|j: int| 0 <= j < n ==> logv[j] == (#[trigger] entries@[j])@,
                store.wf(),
                all_decodable(logv.take(i as int)),
                store@ == replay_ops(Map::empty(), logv.take(i as int)),
            decreases n - i,
        {
            let frame = copy_range(&entries[i], 0, entries[i].len());
            proof {
                assert(frame@ =~= logv[i as int]);
            }
            match KVOperation::decode(frame) {
                Ok(op) => {
                    store.apply(&op);
                    proof {
                        assert(logv.take(i as int + 1).drop_last() =~= logv.take(i as int));
                        assert(logv.take(i as int + 1).last() == logv[i as int]);
                        assert(forall|j: int|
                            0 <= j < i + 1 ==> #[trigger] logv.take(i as int + 1)[j] == logv[j]);
                    }
                },
                Err(e) => {
                    proof {
                        assert(spec_decode(logv[i as int]) is None);
                    }
                    return Err(e);
                },
            }
            i = i + 1;
        }
        proof {
            assert(logv.take(n as int) =~= logv);
        }
        Ok(store)
    }
}

/// Law: replay is deterministic. The same log bytes rebuild the same
/// mapping.
pub proof fn lemma_replay_deterministic(a: Seq<Seq<u8>>, b: Seq<Seq<u8>>)
    requires
        a == b,
    ensures
        replay_ops(Map::empty(), a) == replay_ops(Map::empty(), b),
{
}

/// Replacing the pair at a key's position rebinds that key.
pub proof fn lemma_assoc_update(s: Seq<(Vec<u8>, Vec<u8>)>, i: int, p: (Vec<u8>, Vec<u8>))
    requires
        unique_keys(s),
        0 <= i < s.len(),
        p.0@ == s[i].0@,
    ensures
        unique_keys(s.update(i, p)),
        assoc_map(s.update(i, p)) == assoc_map(s).insert(p.0@, p.1@),
    decreases s.len(),
{
    assert(unique_keys(s.update(i, p))) by {
        assert(forall|a: int|
            0 <= a < s.len() ==> (#[trigger] s.update(i, p)[a]).0@ == s[a].0@);
    }
    if i == s.len() - 1 {
        assert(s.update(i, p).drop_last() =~= s.drop_last());
        assert(assoc_map(s.update(i, p)) =~= assoc_map(s).insert(p.0@, p.1@));
    } else {
        assert(unique_keys(s.drop_last())) by {
            assert(forall|a: int|
                0 <= a < s.len() - 1 ==> (#[trigger] s.drop_last()[a]) == s[a]);
        }
        assert(s.drop_last()[i] == s[i]);
        lemma_assoc_update(s.drop_last(), i, p);
        assert(s.update(i, p).drop_last() =~= s.drop_last().update(i, p));
        assert(s.update(i, p).last() == s.last());
        assert(s.last().0@ != p.0@);
        assert(assoc_map(s.update(i, p)) =~= assoc_map(s).insert(p.0@, p.1@));
    }
}

/// Removing the pair at a key's position removes that key.
pub proof fn lemma_assoc_remove(s: Seq<(Vec<u8>, Vec<u8>)>, i: int)
    requires
        unique_keys(s),
        0 <= i < s.len(),
    ensures
        unique_keys(s.remove(i)),
        assoc_map(s.remove(i)) == assoc_map(s).remove(s[i].0@),
    decreases s.len(),
{
    assert(unique_keys(s.remove(i))) by {
        assert(forall|a: int|
            0 <= a < s.len() - 1 ==> (#[trigger] s.remove(i)[a]) == if a < i {
                s[a]
            } else {
                s[a + 1]
            });
    }
    if i == s.len() - 1 {
        assert(s.remove(i) =~= s.drop_last());
        assert(!assoc_map(s.drop_last()).contains_key(s[i].0@)) by {
            lemma_assoc_contains(s.drop_last(), s[i].0@);
            assert(forall|a: int|
                0 <= a < s.len() - 1 ==> (#[trigger] s.drop_last()[a]) == s[a]);
        }
        assert(assoc_map(s.remove(i)) =~= assoc_map(s).remove(s[i].0@));
    } else {
        assert(unique_keys(s.drop_last())) by {
            assert(forall|a: int|
                0 <= a < s.len() - 1 ==> (#[trigger] s.drop_last()[a]) == s[a]);
        }
        assert(s.drop_last()[i] == s[i]);
        lemma_assoc_remove(s.drop_last(), i);
        assert(s.remove(i).drop_last() =~= s.drop_last().remove(i));
        assert(s.remove(i).last() == s.last());
        assert(s.last().0@ != s[i].0@);
        assert(assoc_map(s.remove(i)) =~= assoc_map(s).remove(s[i].0@));
    }
}

} // verus!

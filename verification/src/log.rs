//! A minimal append-only log: a record image and an uncommitted queue,
//! with no index.
//!
//! This is the plain precursor of [`crate::logger::Logger`]: the same
//! record framing and queue discipline, but reads only by a full scan.
//! The image holds the raw file bytes as given; a trailing partial
//! record is kept and simply never parsed.

use crate::error::Error;
use crate::records::{
    copy_range, lemma_log_bytes_concat, lemma_log_bytes_push, lemma_parse_step, lemma_parse_stop,
    lemma_vecs_deep_view, lemma_vecs_deep_view_push, log_bytes, parse_records, push_bytes,
    push_u32_be, read_u32_be, record_bytes,
};
use vstd::prelude::*;
use vstd::string::StringExecFns;

verus! {

/// The minimal log store.
pub struct Log {
    /// The byte image of the log file.
    pub data: Vec<u8>,
    /// The uncommitted payloads, in arrival order.
    pub uncommited: Vec<Vec<u8>>,
}

impl Log {
    /// The pending payloads, front of the queue first.
    pub open spec fn pending_view(&self) -> Seq<Seq<u8>> {
        self.uncommited.deep_view()
    }

    /// Every queued payload fits a 32-bit length prefix.
    pub open spec fn wf(&self) -> bool {
        forall|i: int|
            0 <= i < self.uncommited@.len() ==> (#[trigger] self.uncommited@[i])@.len()
                <= u32::MAX
    }

    /// Opens a log over the byte image read from the log file.
    pub fn new(data: Vec<u8>) -> (r: Log)
        ensures
            r.wf(),
            r.data@ == data@,
            r.pending_view() == Seq::<Seq<u8>>::empty(),
    {
        let uncommited: Vec<Vec<u8>> = Vec::new();
        let r = Log { data, uncommited };
        proof {
            lemma_vecs_deep_view(r.uncommited);
            assert(r.pending_view() =~= Seq::<Seq<u8>>::empty());
        }
        r
    }

    /// Appends a payload to the back of the uncommitted queue.
    pub fn append(&mut self, entry: Vec<u8>)
        requires
            old(self).wf(),
            entry@.len() <= u32::MAX,
        ensures
            final(self).wf(),
            final(self).pending_view() == old(self).pending_view().push(entry@),
            final(self).data == old(self).data,
    {
        let ghost pre = self.uncommited;
        self.uncommited.push(entry);
        proof {
            lemma_vecs_deep_view_push(pre, self.uncommited, self.uncommited@[pre@.len() as int]);
        }
    }

    /// Commits the first `num_of_entries` queued payloads to the image
    /// and returns the newly written bytes, for the caller to append to
    /// the backing file. When fewer entries are queued, fails with an
    /// internal error and changes nothing.
    pub fn commit(&mut self, num_of_entries: usize) -> (r: Result<Vec<u8>, Error>)
        requires
            old(self).wf(),
            num_of_entries <= old(self).pending_view().len() ==> old(self).data@.len()
                + log_bytes(old(self).pending_view().take(num_of_entries as int)).len()
                <= usize::MAX,
        ensures
            final(self).wf(),
            match r {
                Ok(delta) => {
                    &&& num_of_entries <= old(self).pending_view().len()
                    &&& final(self).pending_view() == old(self).pending_view().skip(
                        num_of_entries as int,
                    )
                    &&& delta@ == log_bytes(old(self).pending_view().take(num_of_entries as int))
                    &&& final(self).data@ == old(self).data@ + delta@
                },
                Err(e) => {
                    &&& num_of_entries > old(self).pending_view().len()
                    &&& e is Internal
                    &&& *final(self) == *old(self)
                },
            },
    {
        proof {
            lemma_vecs_deep_view(self.uncommited);
        }
        if num_of_entries > self.uncommited.len() {
            return Err(Error::Internal(String::from_str("Not enough uncommitted entries")));
        }
        let ghost batch = old(self).pending_view().take(num_of_entries as int);
        let start = self.data.len();
        let mut k: usize = 0;
        proof {
            assert(old(self).pending_view().skip(0) =~= old(self).pending_view());
            assert(batch.take(0) =~= Seq::<Seq<u8>>::empty());
            assert(old(self).data@ + Seq::<u8>::empty() =~= old(self).data@);
            assert(batch.skip(0) =~= batch);
        }
        while k < num_of_entries
            invariant
                k <= num_of_entries,
                num_of_entries <= old(self).pending_view().len(),
                self.wf(),
                batch == old(self).pending_view().take(num_of_entries as int),
                self.pending_view() == old(self).pending_view().skip(k as int),
                self.data@ == old(self).data@ + log_bytes(batch.take(k as int)),
                start == old(self).data@.len(),
                self.data@.len() + log_bytes(batch.skip(k as int)).len() <= usize::MAX,
            decreases num_of_entries - k,
        {
            proof {
                assert(batch.skip(k as int) =~= seq![batch[k as int]] + batch.skip(k as int + 1));
                lemma_log_bytes_concat(seq![batch[k as int]], batch.skip(k as int + 1));
                lemma_log_bytes_push(Seq::empty(), batch[k as int]);
                assert(Seq::<Seq<u8>>::empty().push(batch[k as int]) =~= seq![batch[k as int]]);
                assert(log_bytes(Seq::<Seq<u8>>::empty()) + record_bytes(batch[k as int])
                    =~= record_bytes(batch[k as int]));
                lemma_vecs_deep_view(self.uncommited);
                assert(self.pending_view()[0] == batch[k as int]);
            }
            let ghost pre_pending = self.pending_view();
            let entry = self.uncommited.remove(0);
            let ghost e = entry@;
            let length = entry.len() as u32;
            push_u32_be(&mut self.data, length);
            push_bytes(&mut self.data, entry.as_slice());
            proof {
                assert(self.data@ =~= old(self).data@ + log_bytes(batch.take(k as int))
                    + record_bytes(e));
                assert(batch.take(k as int).push(batch[k as int]) =~= batch.take(k as int + 1));
                lemma_log_bytes_push(batch.take(k as int), batch[k as int]);
                assert(self.data@ =~= old(self).data@ + log_bytes(batch.take(k as int + 1)));
                lemma_vecs_deep_view(self.uncommited);
                assert(self.pending_view() =~= pre_pending.drop_first());
                assert(old(self).pending_view().skip(k as int).drop_first() =~= old(
                    self,
                ).pending_view().skip(k as int + 1));
            }
            k = k + 1;
        }
        proof {
            assert(batch.take(num_of_entries as int) =~= batch);
        }
        let end = self.data.len();
        let delta = copy_range(&self.data, start, end);
        proof {
            assert(delta@ =~= log_bytes(batch));
        }
        Ok(delta)
    }

    /// Returns every committed payload in order by scanning the image
    /// from the start. A trailing partial record ends the scan.
    pub fn read(&self) -> (r: Vec<Vec<u8>>)
        ensures
            r.deep_view() == parse_records(self.data@),
    {
        let mut out: Vec<Vec<u8>> = Vec::new();
        let n = self.data.len();
        let mut off: usize = 0;
        proof {
            assert(self.data@.skip(0) =~= self.data@);
            lemma_vecs_deep_view(out);
            assert(out.deep_view() =~= Seq::<Seq<u8>>::empty());
            assert(Seq::<Seq<u8>>::empty() + parse_records(self.data@) =~= parse_records(
                self.data@,
            ));
        }
        loop
            invariant_except_break
                off <= n,
                n == self.data@.len(),
                parse_records(self.data@) == out.deep_view() + parse_records(
                    self.data@.skip(off as int),
                ),
            ensures
                out.deep_view() == parse_records(self.data@),
            decreases n - off,
        {
            if n - off < 4 {
                proof {
                    lemma_parse_stop(self.data@, off as int);
                    assert(out.deep_view() + Seq::<Seq<u8>>::empty() =~= out.deep_view());
                }
                break ;
            }
            let len32 = read_u32_be(&self.data, off);
            let len = len32 as usize;
            if len > n - (off + 4) {
                proof {
                    lemma_parse_stop(self.data@, off as int);
                    assert(out.deep_view() + Seq::<Seq<u8>>::empty() =~= out.deep_view());
                }
                break ;
            }
            let p = copy_range(&self.data, off + 4, off + 4 + len);
            proof {
                lemma_parse_step(self.data@, off as int, len as int);
            }
            let ghost pre = out;
            let ghost pv = p@;
            out.push(p);
            proof {
                lemma_vecs_deep_view_push(pre, out, out@[pre@.len() as int]);
                assert(pre.deep_view() + (seq![pv] + parse_records(
                    self.data@.skip(off + 4 + len as int),
                )) =~= pre.deep_view().push(pv) + parse_records(
                    self.data@.skip(off + 4 + len as int),
                ));
            }
            off = off + 4 + len;
        }
        out
    }
}

} // verus!

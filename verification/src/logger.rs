//! The log store: an append-only record image, an uncommitted queue, and
//! an offset index.
//!
//! The store keeps the byte image of the on-disk log in memory. Appends
//! go to the back of a FIFO queue and touch no stored bytes; a commit
//! moves the first `n` queued payloads into the image as length-prefixed
//! records, extends the index to match, and returns the newly written
//! bytes so the caller can append them to the backing file. Reads are
//! served from the image, by index or by a full scan.

use crate::encoding::{lemma_decode_encode, op_valid, spec_decode, spec_encode, OpModel};
use crate::error::Error;
use crate::records::{
    copy_range, lemma_log_bytes_concat, lemma_log_bytes_push, lemma_log_bytes_slice,
    lemma_parse_log_bytes, lemma_parse_step, lemma_parse_stop, lemma_u32_be_inverse,
    lemma_vecs_deep_view, lemma_vecs_deep_view_push, log_bytes, parse_records, push_bytes,
    push_u32_be, read_u32_be, record_bytes, u32_be_bytes,
};
use vstd::prelude::*;
use vstd::string::StringExecFns;

verus! {

/// Where one committed record sits in the image: the byte offset of its
/// payload (just past the 4-byte length prefix) and the payload length.
/// The first record's payload starts at offset 4.
#[derive(Clone, Copy, Debug, PartialEq, Eq, Structural)]
pub struct IndexEntry {
    pub position: u64,
    pub length: u32,
}

/// The index that a sequence of committed payloads determines: entry `i`
/// points just past the length prefix that follows the image of the
/// first `i` records.
pub open spec fn index_spec(entries: Seq<Seq<u8>>) -> Seq<IndexEntry> {
    Seq::new(
        entries.len(),
        |i: int|
            IndexEntry {
                position: (log_bytes(entries.take(i)).len() + 4) as u64,
                length: entries[i].len() as u32,
            },
    )
}

/// Committing one more payload appends one entry to the index, placed
/// just past the end of the current image.
pub proof fn lemma_index_spec_push(entries: Seq<Seq<u8>>, e: Seq<u8>)
    ensures
        index_spec(entries.push(e)) == index_spec(entries).push(
            IndexEntry {
                position: (log_bytes(entries).len() + 4) as u64,
                length: e.len() as u32,
            },
        ),
{
    let c2 = entries.push(e);
    assert(c2.take(entries.len() as int) =~= entries);
    assert forall|i: int| 0 <= i < entries.len() implies c2.take(i) =~= entries.take(i) by {}
    assert(index_spec(c2) =~= index_spec(entries).push(
        IndexEntry { position: (log_bytes(entries).len() + 4) as u64, length: e.len() as u32 },
    ));
}

/// The log store.
pub struct Logger {
    /// The byte image of the committed records, as they stand on disk.
    pub data: Vec<u8>,
    /// The uncommitted payloads, in arrival order.
    pub queue: Vec<Vec<u8>>,
    /// One entry per committed record.
    pub index: Vec<IndexEntry>,
    /// The committed payloads, in commit order.
    pub entries: Ghost<Seq<Seq<u8>>>,
}

impl Logger {
    /// The committed payloads, in order.
    pub open spec fn committed_view(&self) -> Seq<Seq<u8>> {
        self.entries@
    }

    /// The pending payloads, front of the queue first.
    pub open spec fn pending_view(&self) -> Seq<Seq<u8>> {
        self.queue.deep_view()
    }

    /// The store is consistent: the image is exactly the committed
    /// records back to back, the index matches them, and every payload
    /// fits a 32-bit length prefix.
    pub open spec fn wf(&self) -> bool {
        &&& self.data@ == log_bytes(self.entries@)
        &&& self.index@ == index_spec(self.entries@)
        &&& forall|i: int|
            0 <= i < self.entries@.len() ==> (#[trigger] self.entries@[i]).len() <= u32::MAX
        &&& forall|i: int|
            0 <= i < self.queue@.len() ==> (#[trigger] self.queue@[i])@.len() <= u32::MAX
    }

    /// Opens a store over the byte image read from the log file. The
    /// index is rebuilt by scanning from the start; a trailing partial
    /// record ends the scan and is dropped from the view. The queue
    /// starts empty.
    pub fn new(data: Vec<u8>) -> (r: Logger)
        ensures
            r.wf(),
            r.committed_view() == parse_records(data@),
            r.pending_view() == Seq::<Seq<u8>>::empty(),
    {
        let mut data = data;
        let mut index: Vec<IndexEntry> = Vec::new();
        let ghost mut c: Seq<Seq<u8>> = Seq::empty();
        let n = data.len();
        let mut off: usize = 0;
        proof {
            assert(data@.skip(0) =~= data@);
            assert(Seq::<Seq<u8>>::empty() + parse_records(data@) =~= parse_records(data@));
            assert(data@.take(0) =~= Seq::<u8>::empty());
            assert(log_bytes(c) == Seq::<u8>::empty());
            assert(index@ =~= index_spec(c));
        }
        loop
            invariant_except_break
                off <= n,
                n == data@.len(),
                index@ == index_spec(c),
                data@.take(off as int) == log_bytes(c),
                parse_records(data@) == c + parse_records(data@.skip(off as int)),
                forall|i: int| 0 <= i < c.len() ==> (#[trigger] c[i]).len() <= u32::MAX,
            ensures
                off <= n,
                n == data@.len(),
                index@ == index_spec(c),
                data@.take(off as int) == log_bytes(c),
                c == parse_records(data@),
                forall|i: int| 0 <= i < c.len() ==> (#[trigger] c[i]).len() <= u32::MAX,
            decreases n - off,
        {
            if n - off < 4 {
                proof {
                    lemma_parse_stop(data@, off as int);
                    assert(c + Seq::<Seq<u8>>::empty() =~= c);
                }
                break ;
            }
            let len32 = read_u32_be(&data, off);
            let len = len32 as usize;
            if len > n - (off + 4) {
                proof {
                    lemma_parse_stop(data@, off as int);
                    assert(c + Seq::<Seq<u8>>::empty() =~= c);
                }
                break ;
            }
            let ghost e = data@.subrange(off + 4, off + 4 + len as int);
            proof {
                lemma_parse_step(data@, off as int, len as int);
                lemma_index_spec_push(c, e);
                lemma_log_bytes_push(c, e);
                let prefix = data@.subrange(off as int, off + 4);
                lemma_u32_be_inverse(prefix[0], prefix[1], prefix[2], prefix[3]);
                assert(prefix =~= seq![prefix[0], prefix[1], prefix[2], prefix[3]]);
                assert(u32_be_bytes(len32) == prefix);
                assert(data@.subrange(off as int, off + 4 + len as int) =~= record_bytes(e));
                assert(data@.take(off + 4 + len as int) =~= data@.take(off as int)
                    + data@.subrange(off as int, off + 4 + len as int));
                assert(c + (seq![e] + parse_records(data@.skip(off + 4 + len as int)))
                    =~= c.push(e) + parse_records(data@.skip(off + 4 + len as int)));
            }
            index.push(IndexEntry { position: (off + 4) as u64, length: len32 });
            proof {
                c = c.push(e);
            }
            off = off + 4 + len;
        }
        data.truncate(off);
        proof {
            assert(data@ == log_bytes(c));
        }
        let queue: Vec<Vec<u8>> = Vec::new();
        let r = Logger { data, queue, index, entries: Ghost(c) };
        proof {
            assert(r.pending_view() =~= Seq::<Seq<u8>>::empty());
        }
        r
    }

    /// The number of committed entries.
    pub fn committed(&self) -> (r: usize)
        requires
            self.wf(),
        ensures
            r == self.committed_view().len(),
    {
        self.index.len()
    }

    /// The number of uncommitted entries in the queue.
    pub fn uncommitted(&self) -> (r: usize)
        ensures
            r == self.pending_view().len(),
    {
        self.queue.len()
    }

    /// Appends a payload to the back of the uncommitted queue. Nothing
    /// is stored until a commit.
    pub fn append(&mut self, entry: Vec<u8>)
        requires
            old(self).wf(),
            entry@.len() <= u32::MAX,
        ensures
            final(self).wf(),
            final(self).pending_view() == old(self).pending_view().push(entry@),
            final(self).committed_view() == old(self).committed_view(),
            final(self).data == old(self).data,
            final(self).index == old(self).index,
    {
        let ghost e = entry@;
        let ghost pre = self.queue;
        self.queue.push(entry);
        proof {
            lemma_vecs_deep_view_push(pre, self.queue, self.queue@[pre@.len() as int]);
            assert(self.queue.deep_view() =~= old(self).queue.deep_view().push(e));
        }
    }

    /// Moves the front of the queue into the image as one record.
    fn commit_one(&mut self)
        requires
            old(self).wf(),
            old(self).pending_view().len() > 0,
            old(self).data@.len() + 4 + old(self).pending_view()[0].len() <= usize::MAX,
        ensures
            final(self).wf(),
            final(self).committed_view() == old(self).committed_view().push(
                old(self).pending_view()[0],
            ),
            final(self).pending_view() == old(self).pending_view().drop_first(),
            final(self).data@ == old(self).data@ + record_bytes(old(self).pending_view()[0]),
    {
        proof {
            lemma_vecs_deep_view(old(self).queue);
        }
        let entry = self.queue.remove(0);
        let ghost e = entry@;
        let length = entry.len() as u32;
        let pos = (self.data.len() + 4) as u64;
        push_u32_be(&mut self.data, length);
        push_bytes(&mut self.data, entry.as_slice());
        self.index.push(IndexEntry { position: pos, length });
        self.entries = Ghost(old(self).entries@.push(e));
        proof {
            lemma_log_bytes_push(old(self).entries@, e);
            lemma_index_spec_push(old(self).entries@, e);
            assert(self.data@ =~= old(self).data@ + record_bytes(e));
            lemma_vecs_deep_view(self.queue);
            assert(self.pending_view() =~= old(self).pending_view().drop_first());
            assert(forall|i: int|
                0 <= i < self.queue@.len() ==> (#[trigger] self.queue@[i])@.len() <= u32::MAX);
        }
    }

    /// Commits the first `num_of_entries` queued payloads: pops them
    /// from the front of the queue, appends each as a length-prefixed
    /// record to the image, and extends the index to match. Returns the
    /// newly written bytes, for the caller to append to the backing
    /// file. When fewer entries are queued, fails with an internal
    /// error and changes nothing. The bound on the grown image is a
    /// machine limit: the image is held in memory.
    pub fn commit(&mut self, num_of_entries: usize) -> (r: Result<Vec<u8>, Error>)
        requires
            old(self).wf(),
            num_of_entries <= old(self).pending_view().len() ==> old(self).data@.len()
                + log_bytes(old(self).pending_view().take(num_of_entries as int)).len()
                <= usize::MAX,
        ensures
            final(self).wf(),
            match r {
                Ok(delta) => {
                    &&& num_of_entries <= old(self).pending_view().len()
                    &&& final(self).committed_view() == old(self).committed_view() + old(
                        self,
                    ).pending_view().take(num_of_entries as int)
                    &&& final(self).pending_view() == old(self).pending_view().skip(
                        num_of_entries as int,
                    )
                    &&& delta@ == log_bytes(old(self).pending_view().take(num_of_entries as int))
                    &&& final(self).data@ == old(self).data@ + delta@
                },
                Err(e) => {
                    &&& num_of_entries > old(self).pending_view().len()
                    &&& e is Internal
                    &&& *final(self) == *old(self)
                },
            },
    {
        proof {
            lemma_vecs_deep_view(self.queue);
        }
        if num_of_entries > self.queue.len() {
            return Err(Error::Internal(String::from_str("Not enough uncommitted entries")));
        }
        let ghost batch = old(self).pending_view().take(num_of_entries as int);
        let start = self.data.len();
        let mut k: usize = 0;
        proof {
            assert(old(self).pending_view().skip(0) =~= old(self).pending_view());
            assert(batch.take(0) =~= Seq::<Seq<u8>>::empty());
            assert(old(self).entries@ + Seq::<Seq<u8>>::empty() =~= old(self).entries@);
            assert(old(self).data@ + Seq::<u8>::empty() =~= old(self).data@);
            assert(batch.skip(0) =~= batch);
        }
        while k < num_of_entries
            invariant
                k <= num_of_entries,
                num_of_entries <= old(self).pending_view().len(),
                self.wf(),
                batch == old(self).pending_view().take(num_of_entries as int),
                self.committed_view() == old(self).committed_view() + batch.take(k as int),
                self.pending_view() == old(self).pending_view().skip(k as int),
                self.data@ == old(self).data@ + log_bytes(batch.take(k as int)),
                start == old(self).data@.len(),
                self.data@.len() + log_bytes(batch.skip(k as int)).len() <= usize::MAX,
            decreases num_of_entries - k,
        {
            proof {
                assert(batch.skip(k as int) =~= seq![batch[k as int]] + batch.skip(k as int + 1));
                lemma_log_bytes_concat(seq![batch[k as int]], batch.skip(k as int + 1));
                lemma_log_bytes_push(Seq::empty(), batch[k as int]);
                assert(Seq::<Seq<u8>>::empty().push(batch[k as int]) =~= seq![batch[k as int]]);
                assert(log_bytes(Seq::<Seq<u8>>::empty()) + record_bytes(batch[k as int])
                    =~= record_bytes(batch[k as int]));
                assert(self.pending_view()[0] == batch[k as int]);
            }
            self.commit_one();
            proof {
                assert(batch.take(k as int).push(batch[k as int]) =~= batch.take(k as int + 1));
                lemma_log_bytes_push(batch.take(k as int), batch[k as int]);
                assert(self.data@ =~= old(self).data@ + log_bytes(batch.take(k as int + 1)));
                assert(old(self).pending_view().skip(k as int).drop_first() =~= old(
                    self,
                ).pending_view().skip(k as int + 1));
                assert(self.committed_view() =~= old(self).committed_view() + batch.take(
                    k as int + 1,
                ));
            }
            k = k + 1;
        }
        proof {
            assert(batch.take(num_of_entries as int) =~= batch);
        }
        let end = self.data.len();
        let delta = copy_range(&self.data, start, end);
        proof {
            assert(delta@ =~= log_bytes(batch));
        }
        Ok(delta)
    }

    /// Returns the `idx`-th committed payload, read from the image at
    /// the indexed position, or an internal error when `idx` is out of
    /// bounds.
    pub fn get(&self, idx: usize) -> (r: Result<Vec<u8>, Error>)
        requires
            self.wf(),
        ensures
            match r {
                Ok(p) => idx < self.committed_view().len() && p@ == self.committed_view()[
                    idx as int
                ],
                Err(e) => idx >= self.committed_view().len() && e is Internal,
            },
    {
        if idx >= self.index.len() {
            return Err(Error::Internal(String::from_str("Index out of bounds")));
        }
        let ie = self.index[idx];
        let total = self.data.len();
        proof {
            lemma_log_bytes_slice(self.entries@, idx as int);
        }
        let start = ie.position as usize;
        let len = ie.length as usize;
        let p = copy_range(&self.data, start, start + len);
        proof {
            assert(p@ =~= self.entries@[idx as int]);
        }
        Ok(p)
    }

    /// Returns the committed payloads `[from_index, from_index +
    /// num_of_entries)`, or an internal error when the range runs past
    /// the committed count.
    pub fn read_exact(&self, from_index: usize, num_of_entries: usize) -> (r: Result<
        Vec<Vec<u8>>,
        Error,
    >)
        requires
            self.wf(),
        ensures
            match r {
                Ok(es) => from_index + num_of_entries <= self.committed_view().len()
                    && es.deep_view() == self.committed_view().subrange(
                    from_index as int,
                    from_index + num_of_entries,
                ),
                Err(e) => from_index + num_of_entries > self.committed_view().len()
                    && e is Internal,
            },
    {
        let count = self.index.len();
        if from_index > count || num_of_entries > count - from_index {
            return Err(Error::Internal(String::from_str("Not enough committed entries")));
        }
        let mut out: Vec<Vec<u8>> = Vec::new();
        proof {
            lemma_vecs_deep_view(out);
            assert(out.deep_view() =~= self.committed_view().subrange(
                from_index as int,
                from_index as int,
            ));
        }
        let mut i: usize = 0;
        while i < num_of_entries
            invariant
                i <= num_of_entries,
                self.wf(),
                from_index + num_of_entries <= self.committed_view().len(),
                from_index + num_of_entries <= usize::MAX,
                out.deep_view() == self.committed_view().subrange(
                    from_index as int,
                    from_index + i,
                ),
            decreases num_of_entries - i,
        {
            let got = self.get(from_index + i);
            match got {
                Ok(p) => {
                    let ghost pre = out;
                    let ghost pv = p@;
                    out.push(p);
                    proof {
                        lemma_vecs_deep_view_push(pre, out, out@[pre@.len() as int]);
                        assert(self.committed_view().subrange(from_index as int, from_index + i)
                            .push(pv) =~= self.committed_view().subrange(
                            from_index as int,
                            from_index + i + 1,
                        ));
                    }
                },
                Err(e) => {
                    proof {
                        assert(false);
                    }
                    return Err(e);
                },
            }
            i = i + 1;
        }
        Ok(out)
    }

    /// Returns every committed payload in order, by scanning the image
    /// from the start without consulting the index.
    pub fn read_all(&self) -> (r: Vec<Vec<u8>>)
        requires
            self.wf(),
        ensures
            r.deep_view() == self.committed_view(),
            r.deep_view() == parse_records(self.data@),
    {
        let mut out: Vec<Vec<u8>> = Vec::new();
        let n = self.data.len();
        let mut off: usize = 0;
        proof {
            assert(self.data@.skip(0) =~= self.data@);
            lemma_vecs_deep_view(out);
            assert(out.deep_view() =~= Seq::<Seq<u8>>::empty());
            assert(Seq::<Seq<u8>>::empty() + parse_records(self.data@) =~= parse_records(
                self.data@,
            ));
        }
        loop
            invariant_except_break
                off <= n,
                n == self.data@.len(),
                parse_records(self.data@) == out.deep_view() + parse_records(
                    self.data@.skip(off as int),
                ),
            ensures
                out.deep_view() == parse_records(self.data@),
            decreases n - off,
        {
            if n - off < 4 {
                proof {
                    lemma_parse_stop(self.data@, off as int);
                    assert(out.deep_view() + Seq::<Seq<u8>>::empty() =~= out.deep_view());
                }
                break ;
            }
            let len32 = read_u32_be(&self.data, off);
            let len = len32 as usize;
            if len > n - (off + 4) {
                proof {
                    lemma_parse_stop(self.data@, off as int);
                    assert(out.deep_view() + Seq::<Seq<u8>>::empty() =~= out.deep_view());
                }
                break ;
            }
            let p = copy_range(&self.data, off + 4, off + 4 + len);
            proof {
                lemma_parse_step(self.data@, off as int, len as int);
            }
            let ghost pre = out;
            let ghost pv = p@;
            out.push(p);
            proof {
                lemma_vecs_deep_view_push(pre, out, out@[pre@.len() as int]);
                assert(pre.deep_view() + (seq![pv] + parse_records(
                    self.data@.skip(off + 4 + len as int),
                )) =~= pre.deep_view().push(pv) + parse_records(
                    self.data@.skip(off + 4 + len as int),
                ));
            }
            off = off + 4 + len;
        }
        proof {
            lemma_parse_log_bytes(self.entries@);
        }
        out
    }

    /// Returns the index entry of the `idx`-th committed record, or an
    /// internal error when `idx` is out of bounds.
    pub fn index_entry(&self, idx: usize) -> (r: Result<IndexEntry, Error>)
        requires
            self.wf(),
        ensures
            match r {
                Ok(e) => idx < self.committed_view().len() && e == index_spec(
                    self.committed_view(),
                )[idx as int],
                Err(e) => idx >= self.committed_view().len() && e is Internal,
            },
    {
        if idx >= self.index.len() {
            return Err(Error::Internal(String::from_str("Index out of bounds")));
        }
        Ok(self.index[idx])
    }
}

/// Law: a commit of `n` stores exactly the first `n` appended
/// payloads, and the scan reads them back in order.
pub proof fn lemma_commit_prefix_reads_back(q: Seq<Seq<u8>>, n: int)
    requires
        0 <= n <= q.len(),
        forall|i: int| 0 <= i < q.len() ==> (#[trigger] q[i]).len() <= u32::MAX,
    ensures
        parse_records(log_bytes(q.take(n))) == q.take(n),
{
    assert(forall|i: int| 0 <= i < n ==> (#[trigger] q.take(n)[i]).len() <= u32::MAX);
    lemma_parse_log_bytes(q.take(n));
}

/// The byte image that a run of commit batches leaves behind: each
/// batch appends its own records.
pub open spec fn batches_bytes(batches: Seq<Seq<Seq<u8>>>) -> Seq<u8>
    decreases batches.len(),
{
    if batches.len() == 0 {
        Seq::empty()
    } else {
        log_bytes(batches.first()) + batches_bytes(batches.drop_first())
    }
}

/// The committed payloads of a run of batches, in commit order.
pub open spec fn concat_batches(batches: Seq<Seq<Seq<u8>>>) -> Seq<Seq<u8>>
    decreases batches.len(),
{
    if batches.len() == 0 {
        Seq::empty()
    } else {
        batches.first() + concat_batches(batches.drop_first())
    }
}

/// Law: however the appends are split across commits, the stored image
/// is the image of their concatenation, and a full scan returns the
/// concatenation of the committed batches.
pub proof fn lemma_scan_concatenates_batches(batches: Seq<Seq<Seq<u8>>>)
    requires
        forall|i: int, j: int|
            0 <= i < batches.len() && 0 <= j < batches[i].len() ==> (#[trigger] batches[i][
                j]).len() <= u32::MAX,
    ensures
        batches_bytes(batches) == log_bytes(concat_batches(batches)),
        forall|k: int|
            0 <= k < concat_batches(batches).len() ==> (#[trigger] concat_batches(batches)[
                k]).len() <= u32::MAX,
        parse_records(batches_bytes(batches)) == concat_batches(batches),
    decreases batches.len(),
{
    if batches.len() == 0 {
        lemma_parse_log_bytes(concat_batches(batches));
    } else {
        let b0 = batches.first();
        let rest = batches.drop_first();
        assert(forall|i: int, j: int|
            0 <= i < rest.len() && 0 <= j < rest[i].len() ==> (#[trigger] rest[i][j]).len()
                <= u32::MAX) by {
            assert(forall|i: int| 0 <= i < rest.len() ==> #[trigger] rest[i] == batches[i + 1]);
        }
        lemma_scan_concatenates_batches(rest);
        assert(forall|j: int| 0 <= j < b0.len() ==> (#[trigger] b0[j]).len() <= u32::MAX) by {
            assert(b0 == batches[0]);
        }
        lemma_log_bytes_concat(b0, concat_batches(rest));
        assert(forall|k: int|
            0 <= k < concat_batches(batches).len() ==> (#[trigger] concat_batches(batches)[
                k]).len() <= u32::MAX) by {
            assert(concat_batches(batches) == b0 + concat_batches(rest));
        }
        lemma_parse_log_bytes(concat_batches(batches));
    }
}

/// Law: an operation appended as a frame and then committed decodes
/// back from the stored log unchanged, for every frame that fits a
/// record's 32-bit length prefix.
pub proof fn lemma_committed_frames_decode(ops: Seq<OpModel>, i: int)
    requires
        0 <= i < ops.len(),
        forall|j: int| 0 <= j < ops.len() ==> op_valid(#[trigger] ops[j]),
        forall|j: int|
            0 <= j < ops.len() ==> spec_encode(#[trigger] ops[j]).len() <= u32::MAX,
    ensures
        ({
            let frames = ops.map_values(|op: OpModel| spec_encode(op));
            &&& parse_records(log_bytes(frames)) == frames
            &&& spec_decode(parse_records(log_bytes(frames))[i]) == Some(ops[i])
        }),
{
    let frames = ops.map_values(|op: OpModel| spec_encode(op));
    assert(forall|j: int|
        0 <= j < frames.len() ==> (#[trigger] frames[j]).len() <= u32::MAX);
    lemma_parse_log_bytes(frames);
    lemma_decode_encode(ops[i]);
}

/// Law: reopening a store over its stored bytes rebuilds the same
/// committed entries and the same index, byte-identical positions and
/// lengths included.
pub proof fn lemma_restart_preserves_index(l: Logger)
    requires
        l.wf(),
    ensures
        parse_records(l.data@) == l.committed_view(),
        index_spec(parse_records(l.data@)) == l.index@,
{
    lemma_parse_log_bytes(l.entries@);
}

/// Law: indexed access and the sequential scan agree: for every `i`
/// under the committed count, the `i`-th scanned payload is the `i`-th
/// committed entry, which is what `get` returns.
pub proof fn lemma_get_matches_scan(l: Logger, i: int)
    requires
        l.wf(),
        0 <= i < l.committed_view().len(),
    ensures
        parse_records(l.data@)[i] == l.committed_view()[i],
{
    lemma_parse_log_bytes(l.entries@);
}

} // verus!

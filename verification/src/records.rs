//! The on-disk record layer: length-prefixed byte records.
//!
//! A record is a 4-byte big-endian length followed by that many payload
//! bytes. Records are written back to back with no header or footer. This
//! module defines the byte layout, the scanner that recovers the payloads
//! from a byte image, and the lemmas tying the two together.

use vstd::prelude::*;

verus! {

/// The four big-endian bytes of a 32-bit length.
pub open spec fn u32_be_bytes(n: u32) -> Seq<u8> {
    seq![(n >> 24) as u8, (n >> 16) as u8, (n >> 8) as u8, n as u8]
}

/// The 32-bit value held by four big-endian bytes.
pub open spec fn u32_from_be(b: Seq<u8>) -> u32
    recommends
        b.len() == 4,
{
    (b[0] as u32) << 24 | (b[1] as u32) << 16 | (b[2] as u32) << 8 | (b[3] as u32)
}

/// Reading back the four big-endian bytes of a length yields the length.
pub proof fn lemma_u32_be_round_trip(n: u32)
    ensures
        u32_from_be(u32_be_bytes(n)) == n,
{
    let b0 = (n >> 24) as u8;
    let b1 = (n >> 16) as u8;
    let b2 = (n >> 8) as u8;
    let b3 = n as u8;
    let m = u32_from_be(u32_be_bytes(n));
    assert(m == (b0 as u32) << 24 | (b1 as u32) << 16 | (b2 as u32) << 8 | (b3 as u32));
    assert(m == n) by (bit_vector)
        requires
            b0 == (n >> 24) as u8,
            b1 == (n >> 16) as u8,
            b2 == (n >> 8) as u8,
            b3 == n as u8,
            m == (b0 as u32) << 24 | (b1 as u32) << 16 | (b2 as u32) << 8 | (b3 as u32),
    ;
}

/// Four bytes are recovered from the 32-bit value they spell.
pub proof fn lemma_u32_be_inverse(b0: u8, b1: u8, b2: u8, b3: u8)
    ensures
        u32_be_bytes(u32_from_be(seq![b0, b1, b2, b3])) == seq![b0, b1, b2, b3],
{
    let n = u32_from_be(seq![b0, b1, b2, b3]);
    assert(n == (b0 as u32) << 24 | (b1 as u32) << 16 | (b2 as u32) << 8 | (b3 as u32));
    assert((n >> 24) as u8 == b0 && (n >> 16) as u8 == b1 && (n >> 8) as u8 == b2 && n as u8
        == b3) by (bit_vector)
        requires
            n == (b0 as u32) << 24 | (b1 as u32) << 16 | (b2 as u32) << 8 | (b3 as u32),
    ;
    assert(u32_be_bytes(n) =~= seq![b0, b1, b2, b3]);
}

/// The bytes of one record: a big-endian length, then the payload.
pub open spec fn record_bytes(payload: Seq<u8>) -> Seq<u8> {
    u32_be_bytes(payload.len() as u32) + payload
}

/// The byte image of a sequence of payloads written back to back as records.
pub open spec fn log_bytes(entries: Seq<Seq<u8>>) -> Seq<u8>
    decreases entries.len(),
{
    if entries.len() == 0 {
        Seq::empty()
    } else {
        record_bytes(entries[0]) + log_bytes(entries.drop_first())
    }
}

/// The payloads recovered by scanning a byte image from the start.
/// A truncated length prefix or payload ends the scan.
pub open spec fn parse_records(data: Seq<u8>) -> Seq<Seq<u8>>
    decreases data.len(),
{
    if data.len() < 4 {
        Seq::empty()
    } else {
        let len = u32_from_be(data.take(4)) as int;
        if data.len() < 4 + len {
            Seq::empty()
        } else {
            seq![data.subrange(4, 4 + len)] + parse_records(data.skip(4 + len))
        }
    }
}

/// Writing two runs of records one after the other writes their
/// concatenation.
pub proof fn lemma_log_bytes_concat(a: Seq<Seq<u8>>, b: Seq<Seq<u8>>)
    ensures
        log_bytes(a + b) == log_bytes(a) + log_bytes(b),
    decreases a.len(),
{
    if a.len() == 0 {
        assert(a + b =~= b);
        assert(log_bytes(a) + log_bytes(b) =~= log_bytes(b));
    } else {
        assert((a + b).drop_first() =~= a.drop_first() + b);
        assert((a + b)[0] == a[0]);
        lemma_log_bytes_concat(a.drop_first(), b);
        assert(log_bytes(a + b) =~= log_bytes(a) + log_bytes(b));
    }
}

/// Appending one payload appends one record to the image.
pub proof fn lemma_log_bytes_push(entries: Seq<Seq<u8>>, e: Seq<u8>)
    ensures
        log_bytes(entries.push(e)) == log_bytes(entries) + record_bytes(e),
{
    assert(entries.push(e) =~= entries + seq![e]);
    lemma_log_bytes_concat(entries, seq![e]);
    let s = seq![e];
    assert(s.len() == 1 && s[0] == e);
    assert(s.drop_first() =~= Seq::<Seq<u8>>::empty());
    assert(log_bytes(s.drop_first()) == Seq::<u8>::empty());
    assert(log_bytes(s) == record_bytes(e) + Seq::<u8>::empty());
    assert(record_bytes(e) + Seq::<u8>::empty() =~= record_bytes(e));
}

/// Scanning the image of a record sequence yields the sequence back,
/// provided every payload length fits the 32-bit prefix. This is why a
/// full scan of the stored bytes returns the committed entries, and why a
/// restart over the same bytes rebuilds the same view.
pub proof fn lemma_parse_log_bytes(entries: Seq<Seq<u8>>)
    requires
        forall|i: int| 0 <= i < entries.len() ==> (#[trigger] entries[i]).len() <= u32::MAX,
    ensures
        parse_records(log_bytes(entries)) == entries,
    decreases entries.len(),
{
    if entries.len() == 0 {
    } else {
        let e = entries[0];
        let rest = entries.drop_first();
        let data = log_bytes(entries);
        let len = e.len() as int;
        assert(record_bytes(e).len() == 4 + len);
        assert(data.len() >= 4 + len);
        assert(data.take(4) =~= u32_be_bytes(e.len() as u32));
        lemma_u32_be_round_trip(e.len() as u32);
        assert(u32_from_be(data.take(4)) as int == len);
        assert(data.subrange(4, 4 + len) =~= e);
        assert(data.skip(4 + len) =~= log_bytes(rest));
        lemma_parse_log_bytes(rest);
        assert(parse_records(data) =~= entries);
    }
}

/// Where record `i` sits inside the byte image: its length prefix starts
/// at the end of the image of the records before it, and its payload
/// follows the prefix.
pub proof fn lemma_log_bytes_slice(entries: Seq<Seq<u8>>, i: int)
    requires
        0 <= i < entries.len(),
    ensures
        log_bytes(entries.take(i)).len() + 4 + entries[i].len() <= log_bytes(entries).len(),
        log_bytes(entries).subrange(
            log_bytes(entries.take(i)).len() as int,
            log_bytes(entries.take(i)).len() as int + 4,
        ) == u32_be_bytes(entries[i].len() as u32),
        log_bytes(entries).subrange(
            log_bytes(entries.take(i)).len() as int + 4,
            log_bytes(entries.take(i)).len() as int + 4 + entries[i].len() as int,
        ) == entries[i],
{
    let pre = entries.take(i);
    let post = entries.skip(i + 1);
    let e = entries[i];
    lemma_log_bytes_push(pre, e);
    lemma_log_bytes_concat(pre.push(e), post);
    assert(pre.push(e) + post =~= entries);
    let a = log_bytes(pre);
    let b = record_bytes(e);
    let c = log_bytes(post);
    assert(log_bytes(entries) == (a + b) + c);
    assert(b.len() == 4 + e.len());
    assert(forall|k: int|
        0 <= k < b.len() ==> #[trigger] log_bytes(entries)[a.len() + k] == b[k]) by {
        assert(forall|k: int|
            0 <= k < b.len() ==> #[trigger] (a + b)[a.len() + k] == b[k]);
        assert(forall|k: int|
            0 <= k < b.len() ==> #[trigger] ((a + b) + c)[a.len() + k] == (a + b)[a.len() + k]);
    }
    assert(forall|k: int| 0 <= k < 4 ==> #[trigger] b[k] == u32_be_bytes(e.len() as u32)[k]);
    assert(forall|k: int| 0 <= k < e.len() ==> #[trigger] b[4 + k] == e[k]);
    assert(log_bytes(entries).subrange(a.len() as int, a.len() as int + 4) =~= u32_be_bytes(
        e.len() as u32,
    ));
    assert(log_bytes(entries).subrange(a.len() as int + 4, a.len() as int + 4 + e.len() as int)
        =~= e);
}

/// Appends the four big-endian bytes of `n` to `out`.
pub fn push_u32_be(out: &mut Vec<u8>, n: u32)
    ensures
        final(out)@ == old(out)@ + u32_be_bytes(n),
{
    out.push(#[verifier::truncate] ((n >> 24) as u8));
    out.push(#[verifier::truncate] ((n >> 16) as u8));
    out.push(#[verifier::truncate] ((n >> 8) as u8));
    out.push(#[verifier::truncate] (n as u8));
    assert(final(out)@ =~= old(out)@ + u32_be_bytes(n));
}

/// One scan step: a suffix that starts with a complete record parses to
/// that record's payload followed by the parse of what comes after it.
pub proof fn lemma_parse_step(data: Seq<u8>, off: int, len: int)
    requires
        0 <= off,
        off + 4 <= data.len(),
        len == u32_from_be(data.subrange(off, off + 4)) as int,
        off + 4 + len <= data.len(),
    ensures
        parse_records(data.skip(off)) == seq![data.subrange(off + 4, off + 4 + len)]
            + parse_records(data.skip(off + 4 + len)),
{
    let s = data.skip(off);
    assert(s.take(4) =~= data.subrange(off, off + 4));
    assert(s.len() >= 4 + len);
    assert(s.subrange(4, 4 + len) =~= data.subrange(off + 4, off + 4 + len));
    assert(s.skip(4 + len) =~= data.skip(off + 4 + len));
}

/// A suffix too short for a length prefix, or whose record runs past the
/// end, parses to nothing: the scan stops there.
pub proof fn lemma_parse_stop(data: Seq<u8>, off: int)
    requires
        0 <= off <= data.len(),
        data.len() - off >= 4 ==> u32_from_be(data.subrange(off, off + 4)) as int > data.len()
            - off - 4,
    ensures
        parse_records(data.skip(off)) == Seq::<Seq<u8>>::empty(),
{
    let s = data.skip(off);
    if s.len() >= 4 {
        assert(s.take(4) =~= data.subrange(off, off + 4));
    }
}

/// Appends all of `src` to `dst`.
pub fn push_bytes(dst: &mut Vec<u8>, src: &[u8])
    ensures
        final(dst)@ == old(dst)@ + src@,
{
    let n = src.len();
    let mut i: usize = 0;
    while i < n
        invariant
            i <= n,
            n == src@.len(),
            dst@ == old(dst)@ + src@.take(i as int),
        decreases n - i,
    {
        dst.push(src[i]);
        assert(old(dst)@ + src@.take(i as int) + seq![src@[i as int]] =~= old(dst)@ + src@.take(
            i + 1,
        ));
        i = i + 1;
    }
    assert(src@.take(n as int) =~= src@);
}

/// The deep view of a vector of byte vectors lists the elements' views.
pub proof fn lemma_vecs_deep_view(v: Vec<Vec<u8>>)
    ensures
        v.deep_view().len() == v@.len(),
        forall|i: int| 0 <= i < v@.len() ==> v.deep_view()[i] == (#[trigger] v@[i])@,
{
    assert forall|i: int| 0 <= i < v@.len() implies v.deep_view()[i] == (#[trigger] v@[i])@ by {
        assert(v@[i].deep_view() =~= v@[i]@);
    }
}

/// Pushing onto a vector of byte vectors pushes the element's view onto
/// the deep view.
pub proof fn lemma_vecs_deep_view_push(pre: Vec<Vec<u8>>, post: Vec<Vec<u8>>, e: Vec<u8>)
    requires
        post@ == pre@.push(e),
    ensures
        post.deep_view() == pre.deep_view().push(e@),
{
    lemma_vecs_deep_view(pre);
    lemma_vecs_deep_view(post);
    assert(post.deep_view() =~= pre.deep_view().push(e@));
}

/// Compares two byte strings for equality.
pub fn bytes_eq(a: &[u8], b: &[u8]) -> (r: bool)
    ensures
        r == (a@ == b@),
{
    let n = a.len();
    if n != b.len() {
        return false;
    }
    let mut i: usize = 0;
    while i < n
        invariant
            i <= n,
            n == a@.len() && n == b@.len(),
            forall|j: int| 0 <= j < i ==> a@[j] == b@[j],
        decreases n - i,
    {
        if a[i] != b[i] {
            return false;
        }
        i = i + 1;
    }
    proof {
        assert(a@ =~= b@);
    }
    true
}

/// Copies `data[from..to]` into a fresh vector.
pub fn copy_range(data: &Vec<u8>, from: usize, to: usize) -> (r: Vec<u8>)
    requires
        from <= to <= data@.len(),
    ensures
        r@ == data@.subrange(from as int, to as int),
{
    let mut out: Vec<u8> = Vec::new();
    let mut i: usize = from;
    while i < to
        invariant
            from <= i <= to <= data@.len(),
            out@ == data@.subrange(from as int, i as int),
        decreases to - i,
    {
        out.push(data[i]);
        assert(data@.subrange(from as int, i as int) + seq![data@[i as int]] =~= data@.subrange(
            from as int,
            i + 1,
        ));
        i = i + 1;
    }
    out
}

/// Reads a 32-bit big-endian length from `data` at offset `at`.
pub fn read_u32_be(data: &Vec<u8>, at: usize) -> (n: u32)
    requires
        at + 4 <= data@.len(),
    ensures
        n == u32_from_be(data@.subrange(at as int, at + 4)),
{
    let n_bytes = data.len();
    let w0 = (data[at] as u32) << 24;
    let w1 = (data[at + 1] as u32) << 16;
    let w2 = (data[at + 2] as u32) << 8;
    let w3 = data[at + 3] as u32;
    let n = w0 | w1 | w2 | w3;
    assert(data@.subrange(at as int, at + 4) =~= seq![
        data@[at as int],
        data@[at + 1],
        data@[at + 2],
        data@[at + 3],
    ]);
    n
}

} // verus!

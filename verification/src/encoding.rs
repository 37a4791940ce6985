//! The frame codec: one key-value operation as a self-delimiting byte
//! string.
//!
//! A frame starts with a tag byte — `0x00` get, `0x01` delete, `0x02` set —
//! followed by zero, one or two length-prefixed fields. A field uses the
//! same layout as an on-disk record: a 4-byte big-endian length, then the
//! bytes. The decoder is strict: a length that runs past the buffer, a
//! trailing byte, or an unknown tag all fail.

use crate::error::Error;
use crate::records::{
    lemma_u32_be_inverse, lemma_u32_be_round_trip, push_bytes, push_u32_be, read_u32_be,
    record_bytes, u32_be_bytes, u32_from_be, copy_range, bytes_eq,
};
use vstd::prelude::*;
use vstd::string::StringExecFns;

verus! {

/// The mathematical shape of an operation: the logical key and value
/// bytes, without their length prefixes. `Put` is the set operation.
pub enum OpModel {
    Get,
    Delete(Seq<u8>),
    Put(Seq<u8>, Seq<u8>),
}

/// Whether the key and value of an operation fit a 32-bit length prefix.
pub open spec fn op_valid(op: OpModel) -> bool {
    match op {
        OpModel::Get => true,
        OpModel::Delete(k) => k.len() <= u32::MAX,
        OpModel::Put(k, v) => k.len() <= u32::MAX && v.len() <= u32::MAX,
    }
}

/// A byte string that is a 32-bit length prefix followed by that many
/// bytes, and nothing else.
pub open spec fn is_length_prefixed(b: Seq<u8>) -> bool {
    &&& b.len() >= 4
    &&& b.len() <= 4 + u32::MAX
    &&& b == record_bytes(b.skip(4))
}

/// Encodes `bytes` as a length-prefixed field.
pub fn encode_bytes(bytes: &[u8]) -> (r: Vec<u8>)
    requires
        bytes@.len() <= u32::MAX,
    ensures
        r@ == record_bytes(bytes@),
{
    let mut out: Vec<u8> = Vec::new();
    push_u32_be(&mut out, bytes.len() as u32);
    push_bytes(&mut out, bytes);
    assert(out@ =~= record_bytes(bytes@));
    out
}

/// A key-value operation. The `Delete` and `Put` fields hold the
/// length-prefixed form of the key and value, exactly as the frame
/// carries them; the constructors build that form.
#[derive(Debug)]
pub enum KVOperation {
    Get,
    Delete(Vec<u8>),
    Put(Vec<u8>, Vec<u8>),
}

impl View for KVOperation {
    type V = OpModel;

    open spec fn view(&self) -> OpModel {
        match self {
            KVOperation::Get => OpModel::Get,
            KVOperation::Delete(k) => OpModel::Delete(k@.skip(4)),
            KVOperation::Put(k, v) => OpModel::Put(k@.skip(4), v@.skip(4)),
        }
    }
}

impl KVOperation {
    /// The fields hold well-formed length-prefixed byte strings.
    pub open spec fn wf(&self) -> bool {
        match self {
            KVOperation::Get => true,
            KVOperation::Delete(k) => is_length_prefixed(k@),
            KVOperation::Put(k, v) => is_length_prefixed(k@) && is_length_prefixed(v@),
        }
    }

    /// The frame bytes of this operation: the tag, then the raw fields.
    pub open spec fn frame_bytes(&self) -> Seq<u8> {
        match self {
            KVOperation::Get => seq![0u8],
            KVOperation::Delete(k) => seq![1u8] + k@,
            KVOperation::Put(k, v) => seq![2u8] + k@ + v@,
        }
    }
}

/// The frame that encodes an operation.
pub open spec fn spec_encode(op: OpModel) -> Seq<u8> {
    match op {
        OpModel::Get => seq![0u8],
        OpModel::Delete(k) => seq![1u8] + record_bytes(k),
        OpModel::Put(k, v) => seq![2u8] + record_bytes(k) + record_bytes(v),
    }
}

/// Reads one length-prefixed field from the front of `rest`: the field
/// bytes and whatever follows them. Fails when the prefix or the field
/// runs past the end.
pub open spec fn spec_read_field(rest: Seq<u8>) -> Option<(Seq<u8>, Seq<u8>)> {
    if rest.len() < 4 {
        None
    } else {
        let len = u32_from_be(rest.take(4)) as int;
        if rest.len() < 4 + len {
            None
        } else {
            Some((rest.subrange(4, 4 + len), rest.skip(4 + len)))
        }
    }
}

/// Decodes the bytes after a delete tag: one field and nothing more.
pub open spec fn spec_decode_delete(rest: Seq<u8>) -> Option<OpModel> {
    match spec_read_field(rest) {
        None => None,
        Some((key, tail)) => if tail.len() == 0 {
            Some(OpModel::Delete(key))
        } else {
            None
        },
    }
}

/// Decodes the bytes after a set tag: two fields and nothing more.
pub open spec fn spec_decode_set(rest: Seq<u8>) -> Option<OpModel> {
    match spec_read_field(rest) {
        None => None,
        Some((key, tail)) => match spec_read_field(tail) {
            None => None,
            Some((value, tail2)) => if tail2.len() == 0 {
                Some(OpModel::Put(key, value))
            } else {
                None
            },
        },
    }
}

/// The operation a frame decodes to, if any.
pub open spec fn spec_decode(bytes: Seq<u8>) -> Option<OpModel> {
    if bytes.len() == 0 {
        None
    } else if bytes[0] == 0x00u8 {
        if bytes.len() == 1 {
            Some(OpModel::Get)
        } else {
            None
        }
    } else if bytes[0] == 0x01u8 {
        spec_decode_delete(bytes.skip(1))
    } else if bytes[0] == 0x02u8 {
        spec_decode_set(bytes.skip(1))
    } else {
        None
    }
}

impl KVOperation {
    /// The get marker; it carries no payload and is never persisted.
    pub fn get() -> (r: KVOperation)
        ensures
            r == KVOperation::Get,
            r.wf(),
            r@ == OpModel::Get,
    {
        KVOperation::Get
    }

    /// A delete of `key`.
    pub fn delete(key: &[u8]) -> (r: KVOperation)
        requires
            key@.len() <= u32::MAX,
        ensures
            r.wf(),
            r@ == OpModel::Delete(key@),
    {
        let field = encode_bytes(key);
        proof {
            assert(field@.skip(4) =~= key@);
        }
        KVOperation::Delete(field)
    }

    /// A set of `key` to `value`.
    pub fn set(key: &[u8], value: &[u8]) -> (r: KVOperation)
        requires
            key@.len() <= u32::MAX,
            value@.len() <= u32::MAX,
        ensures
            r.wf(),
            r@ == OpModel::Put(key@, value@),
    {
        let key_field = encode_bytes(key);
        let value_field = encode_bytes(value);
        proof {
            assert(key_field@.skip(4) =~= key@);
            assert(value_field@.skip(4) =~= value@);
        }
        KVOperation::Put(key_field, value_field)
    }

    /// Encodes the operation as a frame: the tag byte, then the raw
    /// fields. On a well-formed operation this is exactly the frame of
    /// its model.
    pub fn encode(self) -> (r: Vec<u8>)
        ensures
            r@ == self.frame_bytes(),
            self.wf() ==> r@ == spec_encode(self@),
    {
        let ghost orig = self;
        match self {
            KVOperation::Get => {
                let mut out: Vec<u8> = Vec::new();
                out.push(0x00u8);
                proof {
                    assert(out@ =~= orig.frame_bytes());
                }
                out
            },
            KVOperation::Delete(k) => {
                let mut out: Vec<u8> = Vec::new();
                out.push(0x01u8);
                push_bytes(&mut out, k.as_slice());
                proof {
                    assert(out@ =~= orig.frame_bytes());
                    if orig.wf() {
                        assert(seq![1u8] + k@ =~= seq![1u8] + record_bytes(k@.skip(4)));
                    }
                }
                out
            },
            KVOperation::Put(k, v) => {
                let mut out: Vec<u8> = Vec::new();
                out.push(0x02u8);
                push_bytes(&mut out, k.as_slice());
                push_bytes(&mut out, v.as_slice());
                proof {
                    assert(out@ =~= orig.frame_bytes());
                    if orig.wf() {
                        assert((seq![2u8] + k@) + v@ =~= seq![2u8] + record_bytes(k@.skip(4))
                            + record_bytes(v@.skip(4)));
                    }
                }
                out
            },
        }
    }

    /// Decodes a frame. Succeeds exactly on the frames that
    /// `spec_decode` accepts, and fails with a parse error on every
    /// other byte string: an empty buffer, a field running past the
    /// end, a trailing byte, or an unknown tag.
    pub fn decode(bytes: Vec<u8>) -> (r: Result<KVOperation, Error>)
        ensures
            match r {
                Ok(op) => op.wf() && spec_decode(bytes@) == Some(op@),
                Err(e) => spec_decode(bytes@) is None && e is Parse,
            },
    {
        let n = bytes.len();
        if n == 0 {
            return Err(
                Error::Parse(String::from_str("Invalid operation: not enough bytes for operation")),
            );
        }
        let tag = bytes[0];
        if tag == 0x00 {
            if n > 1 {
                return Err(
                    Error::Parse(
                        String::from_str("Invalid operation: too many bytes for get operation"),
                    ),
                );
            }
            return Ok(KVOperation::Get);
        }
        if tag != 0x01 && tag != 0x02 {
            return Err(Error::Parse(String::from_str("Invalid operation encoding")));
        }
        let ghost rest = bytes@.skip(1);
        if n < 5 {
            proof {
                assert(rest.len() < 4);
            }
            return Err(
                Error::Parse(String::from_str("Invalid operation: not enough bytes for key length")),
            );
        }
        let key_len = read_u32_be(&bytes, 1) as usize;
        proof {
            assert(rest.take(4) =~= bytes@.subrange(1, 5));
        }
        if key_len > n - 5 {
            return Err(
                Error::Parse(String::from_str("Invalid operation: not enough bytes for key")),
            );
        }
        let key_end = 5 + key_len;
        let ghost key_seq = bytes@.subrange(5, key_end as int);
        let ghost tail = bytes@.skip(key_end as int);
        proof {
            assert(rest.subrange(4, 4 + key_len as int) =~= key_seq);
            assert(rest.skip(4 + key_len as int) =~= tail);
            assert(spec_read_field(rest) == Some((key_seq, tail)));
        }
        if tag == 0x01 {
            if n != key_end {
                return Err(
                    Error::Parse(
                        String::from_str("Invalid operation: too many bytes for delete operation"),
                    ),
                );
            }
            let field = copy_range(&bytes, 1, key_end);
            proof {
                assert(tail.len() == 0);
                lemma_wf_raw_field(bytes@, 1, key_end as int, key_len as int);
                assert(field@.skip(4) =~= key_seq);
            }
            return Ok(KVOperation::Delete(field));
        }
        if n - key_end < 4 {
            proof {
                assert(tail.len() < 4);
            }
            return Err(
                Error::Parse(
                    String::from_str("Invalid operation: not enough bytes for value length"),
                ),
            );
        }
        let value_len = read_u32_be(&bytes, key_end) as usize;
        proof {
            assert(tail.take(4) =~= bytes@.subrange(key_end as int, key_end as int + 4));
        }
        if value_len > n - key_end - 4 {
            return Err(
                Error::Parse(String::from_str("Invalid operation: not enough bytes for value")),
            );
        }
        let value_end = key_end + 4 + value_len;
        let ghost value_seq = bytes@.subrange(key_end as int + 4, value_end as int);
        let ghost tail2 = bytes@.skip(value_end as int);
        proof {
            assert(tail.subrange(4, 4 + value_len as int) =~= value_seq);
            assert(tail.skip(4 + value_len as int) =~= tail2);
            assert(spec_read_field(tail) == Some((value_seq, tail2)));
        }
        if n != value_end {
            return Err(
                Error::Parse(
                    String::from_str("Invalid operation: too many bytes for set operation"),
                ),
            );
        }
        let key_field = copy_range(&bytes, 1, key_end);
        let value_field = copy_range(&bytes, key_end, value_end);
        proof {
            assert(tail2.len() == 0);
            lemma_wf_raw_field(bytes@, 1, key_end as int, key_len as int);
            lemma_wf_raw_field(bytes@, key_end as int, value_end as int, value_len as int);
            assert(key_field@.skip(4) =~= key_seq);
            assert(value_field@.skip(4) =~= value_seq);
        }
        Ok(KVOperation::Put(key_field, value_field))
    }
}

/// A raw slice of a frame that starts with the big-endian bytes of its
/// own remaining length is a well-formed length-prefixed field.
proof fn lemma_wf_raw_field(bytes: Seq<u8>, start: int, end: int, len: int)
    requires
        0 <= start,
        start + 4 <= end <= bytes.len(),
        len == end - start - 4,
        len == u32_from_be(bytes.subrange(start, start + 4)) as int,
    ensures
        is_length_prefixed(bytes.subrange(start, end)),
{
    let field = bytes.subrange(start, end);
    let prefix = bytes.subrange(start, start + 4);
    lemma_u32_be_inverse(prefix[0], prefix[1], prefix[2], prefix[3]);
    assert(prefix =~= seq![prefix[0], prefix[1], prefix[2], prefix[3]]);
    assert(u32_be_bytes(u32_from_be(prefix)) == prefix);
    assert(field.skip(4) =~= bytes.subrange(start + 4, end));
    assert(field.skip(4).len() == len);
    assert((len as u32) == u32_from_be(prefix));
    assert(field =~= record_bytes(field.skip(4)));
}

/// A length-prefixed field at the front of a buffer reads back as the
/// bytes it prefixes, leaving the remainder.
pub proof fn lemma_read_field_of_prefixed(k: Seq<u8>, more: Seq<u8>)
    requires
        k.len() <= u32::MAX,
    ensures
        spec_read_field(record_bytes(k) + more) == Some((k, more)),
{
    let rest = record_bytes(k) + more;
    assert(rest.len() == 4 + k.len() + more.len());
    assert(rest.take(4) =~= u32_be_bytes(k.len() as u32));
    lemma_u32_be_round_trip(k.len() as u32);
    assert(u32_from_be(rest.take(4)) as int == k.len() as int);
    assert(rest.subrange(4, 4 + k.len() as int) =~= k);
    assert(rest.skip(4 + k.len() as int) =~= more);
}

impl PartialEq for KVOperation {
    fn eq(&self, other: &KVOperation) -> (r: bool) {
        match (self, other) {
            (KVOperation::Get, KVOperation::Get) => true,
            (KVOperation::Delete(a), KVOperation::Delete(b)) => bytes_eq(a.as_slice(), b.as_slice()),
            (KVOperation::Put(ka, va), KVOperation::Put(kb, vb)) => bytes_eq(
                ka.as_slice(),
                kb.as_slice(),
            ) && bytes_eq(va.as_slice(), vb.as_slice()),
            _ => false,
        }
    }
}

impl vstd::std_specs::cmp::PartialEqSpecImpl for KVOperation {
    open spec fn obeys_eq_spec() -> bool {
        true
    }

    open spec fn eq_spec(&self, other: &KVOperation) -> bool {
        match (self, other) {
            (KVOperation::Get, KVOperation::Get) => true,
            (KVOperation::Delete(a), KVOperation::Delete(b)) => a@ == b@,
            (KVOperation::Put(ka, va), KVOperation::Put(kb, vb)) => ka@ == kb@ && va@ == vb@,
            _ => false,
        }
    }
}

/// Law: decoding inverts encoding. Every operation whose key and value
/// fit a 32-bit length prefix decodes back from its own frame.
pub proof fn lemma_decode_encode(op: OpModel)
    requires
        op_valid(op),
    ensures
        spec_decode(spec_encode(op)) == Some(op),
{
    let bytes = spec_encode(op);
    match op {
        OpModel::Get => {
            assert(bytes.len() == 1 && bytes[0] == 0x00u8);
        },
        OpModel::Delete(k) => {
            assert(bytes[0] == 0x01u8);
            assert(bytes.len() == 1 + record_bytes(k).len());
            assert(bytes.skip(1) =~= record_bytes(k) + Seq::<u8>::empty());
            lemma_read_field_of_prefixed(k, Seq::empty());
            assert(spec_decode_delete(bytes.skip(1)) == Some(OpModel::Delete(k)));
        },
        OpModel::Put(k, v) => {
            assert(bytes[0] == 0x02u8);
            assert(bytes.skip(1) =~= record_bytes(k) + record_bytes(v));
            lemma_read_field_of_prefixed(k, record_bytes(v));
            lemma_read_field_of_prefixed(v, Seq::empty());
            assert(record_bytes(v) =~= record_bytes(v) + Seq::<u8>::empty());
            assert(spec_decode_set(bytes.skip(1)) == Some(OpModel::Put(k, v)));
        },
    }
}

} // verus!

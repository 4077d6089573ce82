//! The batch wire format: an atomic, ordered, serializable log of
//! mutations.
//!
//! A batch is a concatenation of records, each `opcode (1 byte) |
//! key_len (4 bytes, big-endian) | key_bytes | value_len (4 bytes,
//! big-endian) | value_bytes`; a delete record has value length zero.
//! Decoding rejects an unknown opcode byte and a buffer that ends
//! before a declared length is satisfied, each as a recoverable error.

use vstd::prelude::*;
use vstd::arithmetic::div_mod::{lemma_div_denominator, lemma_fundamental_div_mod};

use crate::kv::{op_byte, Error, Key, Op, Value};

verus! {

/// One decoded mutation record: the operation, the key bytes, and the
/// value bytes (empty for a delete).
pub type Record = (Op, Seq<u8>, Seq<u8>);

/// A record whose key and value lengths fit the four-byte length fields.
pub open spec fn record_bounded(r: Record) -> bool {
    r.1.len() <= u32::MAX && r.2.len() <= u32::MAX
}

/// The four big-endian bytes of a 32-bit length field.
pub open spec fn u32_be_bytes(n: u32) -> Seq<u8> {
    seq![
        (n / 0x1000000) as u8,
        ((n / 0x10000) % 0x100) as u8,
        ((n / 0x100) % 0x100) as u8,
        (n % 0x100) as u8,
    ]
}

/// The value of four big-endian bytes.
pub open spec fn be_val(s: Seq<u8>) -> int {
    s[0] * 0x1000000 + s[1] * 0x10000 + s[2] * 0x100 + s[3]
}

/// Reading back the four big-endian bytes of `n` yields `n`.
proof fn lemma_u32_be_roundtrip(n: u32)
    ensures
        be_val(u32_be_bytes(n)) == n,
{
    let x = n as int;
    lemma_fundamental_div_mod(x, 0x100);
    lemma_fundamental_div_mod(x / 0x100, 0x100);
    lemma_fundamental_div_mod(x / 0x10000, 0x100);
    lemma_div_denominator(x, 0x100, 0x100);
    assert(0x100 * 0x100 == 0x10000);
    lemma_div_denominator(x, 0x10000, 0x100);
    assert(0x10000 * 0x100 == 0x1000000);
    lemma_fundamental_div_mod(x, 0x1000000);
    assert(x / 0x1000000 < 0x100);
    assert(x / 0x1000000 >= 0);
}

/// The encoding of one record on the wire.
pub open spec fn encode_record(r: Record) -> Seq<u8> {
    seq![op_byte(r.0)] + u32_be_bytes(r.1.len() as u32) + r.1 + u32_be_bytes(r.2.len() as u32)
        + r.2
}

/// The encoding of a record sequence: the records' encodings, in order,
/// with no framing around the whole buffer.
pub open spec fn encode_all(rs: Seq<Record>) -> Seq<u8>
    decreases rs.len(),
{
    if rs.len() == 0 {
        Seq::empty()
    } else {
        encode_record(rs[0]) + encode_all(rs.skip(1))
    }
}

/// The outcome of reading one record off the front of a buffer.
pub enum ParseStep {
    /// The buffer is empty: the batch is fully consumed.
    End,
    /// One record, and the bytes that follow it.
    Rec { op: Op, key: Seq<u8>, value: Seq<u8>, rest: Seq<u8> },
    /// The buffer is malformed: an unknown opcode, or a truncation.
    Fail { err: Error },
}

/// Reads one record off the front of `s`.
pub open spec fn parse_step(s: Seq<u8>) -> ParseStep {
    if s.len() == 0 {
        ParseStep::End
    } else if s[0] != 1 && s[0] != 2 {
        ParseStep::Fail { err: Error::InvalidOpCode }
    } else if s.len() < 5 {
        ParseStep::Fail { err: Error::DecodeError }
    } else {
        let klen = be_val(s.subrange(1, 5));
        if s.len() < 9 + klen {
            ParseStep::Fail { err: Error::DecodeError }
        } else {
            let vlen = be_val(s.subrange(5 + klen, 9 + klen));
            if s.len() < 9 + klen + vlen {
                ParseStep::Fail { err: Error::DecodeError }
            } else {
                ParseStep::Rec {
                    op: if s[0] == 1 {
                        Op::Put
                    } else {
                        Op::Delete
                    },
                    key: s.subrange(5, 5 + klen),
                    value: s.subrange(9 + klen, 9 + klen + vlen),
                    rest: s.skip(9 + klen + vlen),
                }
            }
        }
    }
}

/// Decodes a whole buffer into its record sequence, or nothing when the
/// buffer is malformed at any point.
pub open spec fn decode_all(s: Seq<u8>) -> Option<Seq<Record>>
    decreases s.len(),
{
    match parse_step(s) {
        ParseStep::End => Some(Seq::empty()),
        ParseStep::Fail { .. } => None,
        ParseStep::Rec { op, key, value, rest } => {
            if rest.len() < s.len() {
                match decode_all(rest) {
                    Some(rs) => Some(seq![(op, key, value)] + rs),
                    None => None,
                }
            } else {
                None
            }
        },
    }
}

/// Appending a record appends its encoding.
proof fn lemma_encode_all_push(rs: Seq<Record>, r: Record)
    ensures
        encode_all(rs.push(r)) == encode_all(rs) + encode_record(r),
    decreases rs.len(),
{
    if rs.len() == 0 {
        assert(rs.push(r).skip(1) =~= Seq::<Record>::empty());
        assert(rs.push(r)[0] == r);
        assert(encode_all(rs.push(r)) == encode_record(r) + encode_all(Seq::<Record>::empty()));
        assert(encode_all(Seq::<Record>::empty()) == Seq::<u8>::empty());
        assert(encode_record(r) + Seq::<u8>::empty() =~= Seq::<u8>::empty() + encode_record(r));
        assert(encode_all(rs) == Seq::<u8>::empty());
    } else {
        assert(rs.push(r).skip(1) =~= rs.skip(1).push(r));
        lemma_encode_all_push(rs.skip(1), r);
        assert(encode_record(rs[0]) + (encode_all(rs.skip(1)) + encode_record(r)) =~= (
        encode_record(rs[0]) + encode_all(rs.skip(1))) + encode_record(r));
    }
}

/// Parsing a buffer that starts with one well-formed record's encoding
/// yields exactly that record and the bytes that follow it.
proof fn lemma_parse_encode(r: Record, rest: Seq<u8>)
    requires
        record_bounded(r),
    ensures
        (parse_step(encode_record(r) + rest) matches ParseStep::Rec {
            op,
            key,
            value,
            rest: tail,
        } && op == r.0 && key == r.1 && value == r.2 && tail == rest),
{
    let s = encode_record(r) + rest;
    let klen = r.1.len() as int;
    let vlen = r.2.len() as int;
    assert(s.len() == 9 + klen + vlen + rest.len());
    assert(s[0] == op_byte(r.0));
    assert(op_byte(r.0) == 1 || op_byte(r.0) == 2);
    assert(s.subrange(1, 5) =~= u32_be_bytes(r.1.len() as u32));
    lemma_u32_be_roundtrip(r.1.len() as u32);
    assert(be_val(s.subrange(1, 5)) == klen);
    assert(s.subrange(5 + klen, 9 + klen) =~= u32_be_bytes(r.2.len() as u32));
    lemma_u32_be_roundtrip(r.2.len() as u32);
    assert(be_val(s.subrange(5 + klen, 9 + klen)) == vlen);
    assert(s.subrange(5, 5 + klen) =~= r.1);
    assert(s.subrange(9 + klen, 9 + klen + vlen) =~= r.2);
    assert(s.skip(9 + klen + vlen) =~= rest);
    if r.0 is Put {
        assert(s[0] == 1);
    } else {
        assert(s[0] == 2);
    }
}

/// Round trip: decoding the encoding of any record sequence reproduces
/// exactly that sequence, in append order — no reordering, no loss, no
/// deduplication.
#[verifier::rlimit(100)]
pub proof fn lemma_round_trip(rs: Seq<Record>)
    requires
        forall|i: int| 0 <= i < rs.len() ==> record_bounded(#[trigger] rs[i]),
    ensures
        decode_all(encode_all(rs)) == Some(rs),
    decreases rs.len(),
{
    if rs.len() == 0 {
        assert(encode_all(rs).len() == 0);
        assert(decode_all(encode_all(rs)) == Some(Seq::<Record>::empty()));
        assert(rs =~= Seq::<Record>::empty());
    } else {
        let s = encode_all(rs);
        let tail = encode_all(rs.skip(1));
        lemma_parse_encode(rs[0], tail);
        assert(forall|i: int|
            0 <= i < rs.skip(1).len() ==> record_bounded(#[trigger] rs.skip(1)[i]));
        lemma_round_trip(rs.skip(1));
        assert(parse_step(s) matches ParseStep::Rec { op, key, value, rest } && op == rs[0].0
            && key == rs[0].1 && value == rs[0].2 && rest == tail);
        assert(tail.len() < s.len());
        assert((rs[0].0, rs[0].1, rs[0].2) == rs[0]);
        assert(seq![rs[0]] + rs.skip(1) =~= rs);
    }
}

/// Stepping a buffer whose decoding is known: an empty record sequence
/// means the buffer is consumed; otherwise the head record parses off
/// the front and the rest decodes to the remaining records.
pub proof fn lemma_decode_step(s: Seq<u8>, rs: Seq<Record>)
    requires
        decode_all(s) == Some(rs),
    ensures
        rs.len() == 0 ==> parse_step(s) == ParseStep::End,
        rs.len() > 0 ==> (parse_step(s) matches ParseStep::Rec { op, key, value, rest }
            && op == rs[0].0 && key == rs[0].1 && value == rs[0].2 && rest.len() < s.len()
            && decode_all(rest) == Some(rs.skip(1))),
{
    match parse_step(s) {
        ParseStep::End => {
            assert(rs =~= Seq::<Record>::empty());
        },
        ParseStep::Fail { .. } => {
            assert(false);
        },
        ParseStep::Rec { op, key, value, rest } => {
            assert(rest.len() < s.len());
            let rs2 = decode_all(rest).unwrap();
            assert(rs == seq![(op, key, value)] + rs2);
            assert(rs[0] == (op, key, value));
            assert(rs.skip(1) =~= rs2);
        },
    }
}

/// Copies all of `src` onto the end of `data`.
fn push_bytes(data: &mut Vec<u8>, src: &Vec<u8>)
    ensures
        final(data)@ == old(data)@ + src@,
{
    let ghost orig = data@;
    let mut i: usize = 0;
    while i < src.len()
        invariant
            i <= src.len(),
            data@ == orig + src@.subrange(0, i as int),
        decreases src.len() - i,
    {
        data.push(src[i]);
        proof {
            assert(orig + src@.subrange(0, i as int) + seq![src@[i as int]] =~= orig
                + src@.subrange(0, i + 1));
        }
        i = i + 1;
    }
    proof {
        assert(src@.subrange(0, src@.len() as int) =~= src@);
    }
}

/// Appends the four big-endian bytes of `n`.
fn push_u32_be(data: &mut Vec<u8>, n: u32)
    ensures
        final(data)@ == old(data)@ + u32_be_bytes(n),
{
    data.push((n / 0x1000000) as u8);
    data.push(((n / 0x10000) % 0x100) as u8);
    data.push(((n / 0x100) % 0x100) as u8);
    data.push((n % 0x100) as u8);
    proof {
        assert(data@ =~= old(data)@ + u32_be_bytes(n));
    }
}

/// An append-only, serializable group of mutation records, held as its
/// encoded byte buffer.
pub struct Batch {
    data: Vec<u8>,
    records: Ghost<Seq<Record>>,
}

impl View for Batch {
    type V = Seq<Record>;

    /// The records appended so far, in order.
    closed spec fn view(&self) -> Seq<Record> {
        self.records@
    }
}

impl Batch {
    /// The buffer is exactly the encoding of the appended records, each
    /// of which fits the four-byte length fields.
    pub closed spec fn wf(&self) -> bool {
        &&& self.data@ == encode_all(self.records@)
        &&& forall|i: int| 0 <= i < self.records@.len() ==> record_bounded(#[trigger] self.records@[i])
    }

    /// Creates an empty batch.
    pub fn new() -> (r: Batch)
        ensures
            r.wf(),
            r@ == Seq::<Record>::empty(),
    {
        let r = Batch { data: Vec::new(), records: Ghost(Seq::empty()) };
        proof {
            assert(r.data@ =~= encode_all(r.records@));
        }
        r
    }

    /// Appends a record that sets `key` to `value`.
    pub fn set(&mut self, key: &Key, value: &Value) -> (r: Result<(), Error>)
        requires
            old(self).wf(),
            key@.len() <= u32::MAX,
            value@.len() <= u32::MAX,
        ensures
            final(self).wf(),
            r == Ok::<(), Error>(()),
            final(self)@ == old(self)@.push((Op::Put, key@, value@)),
    {
        let ghost rec = (Op::Put, key@, value@);
        self.data.push(Op::Put.as_byte());
        push_u32_be(&mut self.data, key.len() as u32);
        push_bytes(&mut self.data, key.as_bytes());
        push_u32_be(&mut self.data, value.len() as u32);
        push_bytes(&mut self.data, value.as_bytes());
        proof {
            assert(self.data@ == (((old(self).data@.push(op_byte(Op::Put)) + u32_be_bytes(
                key@.len() as u32,
            )) + key@) + u32_be_bytes(value@.len() as u32)) + value@);
            assert(encode_record(rec) =~= seq![op_byte(Op::Put)] + u32_be_bytes(
                key@.len() as u32,
            ) + key@ + u32_be_bytes(value@.len() as u32) + value@);
            lemma_encode_all_push(old(self).records@, rec);
            assert(self.data@ =~= encode_all(old(self).records@) + encode_record(rec));
            self.records@ = self.records@.push(rec);
        }
        Ok(())
    }

    /// Appends a record that deletes `key`; the record carries an empty
    /// value.
    pub fn delete(&mut self, key: &Key) -> (r: Result<(), Error>)
        requires
            old(self).wf(),
            key@.len() <= u32::MAX,
        ensures
            final(self).wf(),
            r == Ok::<(), Error>(()),
            final(self)@ == old(self)@.push((Op::Delete, key@, Seq::<u8>::empty())),
    {
        let ghost rec = (Op::Delete, key@, Seq::<u8>::empty());
        self.data.push(Op::Delete.as_byte());
        push_u32_be(&mut self.data, key.len() as u32);
        push_bytes(&mut self.data, key.as_bytes());
        push_u32_be(&mut self.data, 0);
        proof {
            assert(self.data@ == ((old(self).data@.push(op_byte(Op::Delete)) + u32_be_bytes(
                key@.len() as u32,
            )) + key@) + u32_be_bytes(0));
            assert(encode_record(rec) =~= seq![op_byte(Op::Delete)] + u32_be_bytes(
                key@.len() as u32,
            ) + key@ + u32_be_bytes(0));
            lemma_encode_all_push(old(self).records@, rec);
            assert(self.data@ =~= encode_all(old(self).records@) + encode_record(rec));
            self.records@ = self.records@.push(rec);
        }
        Ok(())
    }

    /// Starts a decode pass over a frozen snapshot of the batch's
    /// current contents; records come back in append order.
    pub fn iter(&self) -> (it: BatchIter)
        requires
            self.wf(),
        ensures
            it.inv(),
            it@ == encode_all(self@),
            decode_all(it@) == Some(self@),
    {
        let mut d: Vec<u8> = Vec::new();
        push_bytes(&mut d, &self.data);
        let it = BatchIter { data: d, pos: 0 };
        proof {
            lemma_round_trip(self.records@);
            assert(it@ =~= self.data@);
        }
        it
    }
}

/// A forward-only decode pass over an encoded batch buffer.
pub struct BatchIter {
    data: Vec<u8>,
    pos: usize,
}

impl View for BatchIter {
    type V = Seq<u8>;

    /// The bytes not yet consumed.
    closed spec fn view(&self) -> Seq<u8> {
        self.data@.skip(self.pos as int)
    }
}

impl BatchIter {
    /// The cursor lies within the buffer.
    pub closed spec fn inv(&self) -> bool {
        self.pos <= self.data@.len()
    }

    /// Starts a decode pass over a raw byte buffer.
    pub fn new(data: Vec<u8>) -> (it: BatchIter)
        ensures
            it.inv(),
            it@ == data@,
    {
        let it = BatchIter { data, pos: 0 };
        proof {
            assert(it@ =~= it.data@);
        }
        it
    }

    /// Decodes the next record, if any. A malformed buffer surfaces a
    /// recoverable error: an unknown opcode byte or a buffer that ends
    /// before a declared length is satisfied; the cursor then stays put.
    pub fn next(&mut self) -> (r: Option<Result<(Op, Key, Value), Error>>)
        requires
            old(self).inv(),
        ensures
            final(self).inv(),
            parse_step(old(self)@) is End ==> r is None && final(self)@ == old(self)@,
            (parse_step(old(self)@) matches ParseStep::Fail { err } ==> r == Some(
                Err::<(Op, Key, Value), Error>(err),
            ) && final(self)@ == old(self)@),
            (parse_step(old(self)@) matches ParseStep::Rec { op, key, value, rest } ==> (
            r matches Some(Ok(t)) && t.0 == op && t.1@ == key && t.2@ == value && final(self)@
                == rest)),
    {
        let ghost s = self@;
        let n = self.data.len();
        if self.pos == n {
            assert(s.len() == 0);
            return None;
        }
        assert(s.len() == n - self.pos);
        assert(s[0] == self.data@[self.pos as int]);
        let b = self.data[self.pos];
        let op = match Op::from_byte(b) {
            Ok(op) => op,
            Err(e) => {
                return Some(Err(e));
            },
        };
        if n - self.pos < 5 {
            return Some(Err(Error::DecodeError));
        }
        assert(forall|j: int| 0 <= j < s.len() ==> s[j] == self.data@[self.pos + j]);
        let k0 = self.data[self.pos + 1];
        let k1 = self.data[self.pos + 2];
        let k2 = self.data[self.pos + 3];
        let k3 = self.data[self.pos + 4];
        let klen: u32 = (k0 as u32) * 0x1000000 + (k1 as u32) * 0x10000 + (k2 as u32) * 0x100 + (
        k3 as u32);
        proof {
            assert(s.subrange(1, 5) =~= seq![s[1], s[2], s[3], s[4]]);
            assert(be_val(s.subrange(1, 5)) == klen);
        }
        let klen_us = klen as usize;
        if n - self.pos - 5 < klen_us {
            assert(s.len() < 9 + be_val(s.subrange(1, 5)));
            return Some(Err(Error::DecodeError));
        }
        if n - self.pos - 5 - klen_us < 4 {
            assert(s.len() < 9 + be_val(s.subrange(1, 5)));
            return Some(Err(Error::DecodeError));
        }
        assert(s.len() >= 9 + be_val(s.subrange(1, 5)));
        let mut kbuf: Vec<u8> = Vec::new();
        let mut i: usize = 0;
        while i < klen_us
            invariant
                self.inv(),
                i <= klen_us,
                n == self.data@.len(),
                self.pos + 5 + klen_us <= self.data@.len(),
                kbuf@ == self.data@.subrange(self.pos + 5, self.pos + 5 + i),
            decreases klen_us - i,
        {
            kbuf.push(self.data[self.pos + 5 + i]);
            proof {
                assert(self.data@.subrange(self.pos + 5, self.pos + 5 + i) + seq![
                    self.data@[self.pos + 5 + i],
                ] =~= self.data@.subrange(self.pos + 5, self.pos + 5 + (i + 1)));
            }
            i = i + 1;
        }
        proof {
            assert(s.subrange(5, 5 + klen as int) =~= self.data@.subrange(
                self.pos + 5,
                self.pos + 5 + klen as int,
            ));
        }
        let vbase = self.pos + 5 + klen_us;
        let v0 = self.data[vbase];
        let v1 = self.data[vbase + 1];
        let v2 = self.data[vbase + 2];
        let v3 = self.data[vbase + 3];
        let vlen: u32 = (v0 as u32) * 0x1000000 + (v1 as u32) * 0x10000 + (v2 as u32) * 0x100 + (
        v3 as u32);
        proof {
            assert(s.subrange(5 + klen as int, 9 + klen as int) =~= seq![
                s[5 + klen as int],
                s[6 + klen as int],
                s[7 + klen as int],
                s[8 + klen as int],
            ]);
            assert(be_val(s.subrange(5 + klen as int, 9 + klen as int)) == vlen);
        }
        let vlen_us = vlen as usize;
        if n - self.pos - 9 - klen_us < vlen_us {
            assert(s.len() < 9 + klen + vlen);
            return Some(Err(Error::DecodeError));
        }
        let mut vbuf: Vec<u8> = Vec::new();
        let mut j: usize = 0;
        while j < vlen_us
            invariant
                self.inv(),
                j <= vlen_us,
                n == self.data@.len(),
                self.pos + 9 + klen_us + vlen_us <= self.data@.len(),
                vbase == self.pos + 5 + klen_us,
                vbuf@ == self.data@.subrange(vbase + 4, vbase + 4 + j),
            decreases vlen_us - j,
        {
            vbuf.push(self.data[vbase + 4 + j]);
            proof {
                assert(self.data@.subrange(vbase + 4, vbase + 4 + j) + seq![
                    self.data@[vbase + 4 + j],
                ] =~= self.data@.subrange(vbase + 4, vbase + 4 + (j + 1)));
            }
            j = j + 1;
        }
        proof {
            assert(s.subrange(9 + klen as int, 9 + klen as int + vlen as int) =~= self.data@
                .subrange(vbase + 4, vbase + 4 + vlen as int));
        }
        self.pos = self.pos + 9 + klen_us + vlen_us;
        proof {
            assert(self@ =~= s.skip(9 + klen as int + vlen as int));
        }
        Some(Ok((op, Key::from(kbuf), Value::from(vbuf))))
    }
}

} // verus!

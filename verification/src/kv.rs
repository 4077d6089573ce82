//! Keys, values, operation tags and the error kinds shared by the store.
//!
//! A `Key` and a `Value` are immutable byte sequences; keys additionally
//! carry a total byte-lexicographic order (a strict prefix sorts first),
//! which the sorted memtable relies on.

use vstd::prelude::*;

verus! {

/// The error kinds any operation of the store can surface.
#[derive(Clone, Copy, Debug, PartialEq, Eq, Structural)]
pub enum Error {
    /// `get` on an absent or tombstoned key; `delete` on an absent key.
    NotFound,
    /// A batch buffer ends before a declared key or value length is satisfied.
    DecodeError,
    /// An opcode byte outside the known operation tags.
    InvalidOpCode,
    /// Failure to serialize a typed literal into its byte form.
    EncodeError,
}

/// The kind of a mutation record: set a value, or delete (tombstone) a key.
#[derive(Clone, Copy, Debug, PartialEq, Eq, Structural)]
pub enum Op {
    Put,
    Delete,
}

/// The wire tag of an operation.
pub open spec fn op_byte(op: Op) -> u8 {
    match op {
        Op::Put => 1,
        Op::Delete => 2,
    }
}

impl Op {
    /// The byte that encodes this operation on the wire.
    pub fn as_byte(&self) -> (b: u8)
        ensures
            b == op_byte(*self),
    {
        match self {
            Op::Put => 1,
            Op::Delete => 2,
        }
    }

    /// Decodes an opcode byte; a byte outside the known tags is a
    /// recoverable error, never an abort.
    pub fn from_byte(b: u8) -> (r: Result<Op, Error>)
        ensures
            b == 1 ==> r == Result::<Op, Error>::Ok(Op::Put),
            b == 2 ==> r == Result::<Op, Error>::Ok(Op::Delete),
            b != 1 && b != 2 ==> r == Result::<Op, Error>::Err(Error::InvalidOpCode),
    {
        match b {
            1 => Ok(Op::Put),
            2 => Ok(Op::Delete),
            _ => Err(Error::InvalidOpCode),
        }
    }
}

/// Strict byte-lexicographic order on byte sequences: compare byte by
/// byte; on a tie the shorter sequence (a strict prefix) sorts first.
pub open spec fn lex_lt(a: Seq<u8>, b: Seq<u8>) -> bool
    decreases a.len(),
{
    if b.len() == 0 {
        false
    } else if a.len() == 0 {
        true
    } else if a[0] < b[0] {
        true
    } else if a[0] > b[0] {
        false
    } else {
        lex_lt(a.skip(1), b.skip(1))
    }
}

/// `lex_lt` is irreflexive.
pub proof fn lemma_lex_lt_irreflexive(a: Seq<u8>)
    ensures
        !lex_lt(a, a),
    decreases a.len(),
{
    if a.len() > 0 {
        lemma_lex_lt_irreflexive(a.skip(1));
    }
}

/// `lex_lt` is asymmetric: two sequences are never each below the other.
pub proof fn lemma_lex_lt_asymmetric(a: Seq<u8>, b: Seq<u8>)
    ensures
        !(lex_lt(a, b) && lex_lt(b, a)),
    decreases a.len(),
{
    if a.len() > 0 && b.len() > 0 && a[0] == b[0] {
        lemma_lex_lt_asymmetric(a.skip(1), b.skip(1));
    }
}

/// `lex_lt` is transitive.
pub proof fn lemma_lex_lt_transitive(a: Seq<u8>, b: Seq<u8>, c: Seq<u8>)
    requires
        lex_lt(a, b),
        lex_lt(b, c),
    ensures
        lex_lt(a, c),
    decreases a.len(),
{
    if a.len() > 0 && b.len() > 0 && c.len() > 0 && a[0] == b[0] && b[0] == c[0] {
        lemma_lex_lt_transitive(a.skip(1), b.skip(1), c.skip(1));
    }
}

/// `lex_lt` is total: any two sequences are ordered or equal.
pub proof fn lemma_lex_lt_total(a: Seq<u8>, b: Seq<u8>)
    ensures
        lex_lt(a, b) || lex_lt(b, a) || a == b,
    decreases a.len(),
{
    if a.len() == 0 && b.len() == 0 {
        assert(a =~= b);
    } else if a.len() > 0 && b.len() > 0 && a[0] == b[0] {
        lemma_lex_lt_total(a.skip(1), b.skip(1));
        if a.skip(1) == b.skip(1) {
            assert(a =~= seq![a[0]] + a.skip(1));
            assert(b =~= seq![b[0]] + b.skip(1));
        }
    }
}

/// Comparing a common strict prefix away does not change the order.
pub proof fn lemma_lex_lt_common_prefix(a: Seq<u8>, b: Seq<u8>, i: int)
    requires
        0 <= i <= a.len(),
        i <= b.len(),
        forall|j: int| 0 <= j < i ==> a[j] == b[j],
    ensures
        lex_lt(a, b) == lex_lt(a.skip(i), b.skip(i)),
    decreases i,
{
    if i > 0 {
        assert(a[0] == b[0]);
        assert forall|j: int| 0 <= j < i - 1 implies a.skip(1)[j] == b.skip(1)[j] by {
            assert(a[j + 1] == b[j + 1]);
        };
        lemma_lex_lt_common_prefix(a.skip(1), b.skip(1), i - 1);
        assert(a.skip(1).skip(i - 1) =~= a.skip(i));
        assert(b.skip(1).skip(i - 1) =~= b.skip(i));
        assert(lex_lt(a, b) == lex_lt(a.skip(1), b.skip(1)));
    } else {
        assert(a.skip(0) =~= a);
        assert(b.skip(0) =~= b);
    }
}

/// The little-endian residue of a signed 32-bit integer.
pub open spec fn i32_residue(n: i32) -> int {
    if n >= 0 {
        n as int
    } else {
        n as int + 0x1_0000_0000
    }
}

/// The four-byte fixed-width little-endian serialization of a signed
/// 32-bit integer.
pub open spec fn i32_le_bytes(n: i32) -> Seq<u8> {
    let u = i32_residue(n);
    seq![
        (u % 0x100) as u8,
        ((u / 0x100) % 0x100) as u8,
        ((u / 0x10000) % 0x100) as u8,
        ((u / 0x1000000) % 0x100) as u8,
    ]
}

/// Serializes a signed 32-bit integer as four little-endian bytes.
fn serialize_i32(value: i32) -> (r: Vec<u8>)
    ensures
        r@ == i32_le_bytes(value),
{
    let u: u32 = if value >= 0 {
        value as u32
    } else {
        ((value as i64) + 0x1_0000_0000i64) as u32
    };
    let mut r: Vec<u8> = Vec::new();
    r.push((u % 0x100) as u8);
    r.push(((u / 0x100) % 0x100) as u8);
    r.push(((u / 0x10000) % 0x100) as u8);
    r.push(((u / 0x1000000) % 0x100) as u8);
    proof {
        assert(u as int == i32_residue(value));
        assert(r@ =~= i32_le_bytes(value));
    }
    r
}

/// An immutable byte-sequence key; the sole identity of a stored entry.
#[derive(Clone, Debug)]
pub struct Key(pub(crate) Vec<u8>);

impl View for Key {
    type V = Seq<u8>;

    closed spec fn view(&self) -> Seq<u8> {
        self.0@
    }
}

impl Key {
    /// Wraps a raw byte sequence, taking ownership of it.
    pub fn from(bytes: Vec<u8>) -> (r: Key)
        ensures
            r@ == bytes@,
    {
        Key(bytes)
    }

    /// Builds a key from the fixed-width serialization of a signed 32-bit
    /// integer; the encoding is total, so this always succeeds.
    pub fn try_from(value: i32) -> (r: Result<Key, Error>)
        ensures
            r matches Ok(k) && k@ == i32_le_bytes(value),
    {
        Ok(Key(serialize_i32(value)))
    }

    /// The number of bytes in the key.
    pub fn len(&self) -> (n: usize)
        ensures
            n == self@.len(),
    {
        self.0.len()
    }

    /// Read-only access to the key's bytes.
    pub fn as_bytes(&self) -> (b: &Vec<u8>)
        ensures
            b@ == self@,
    {
        &self.0
    }

    /// True when this key is strictly below `other` in byte-lexicographic
    /// order.
    pub fn lt(&self, other: &Key) -> (r: bool)
        ensures
            r == lex_lt(self@, other@),
    {
        let a = &self.0;
        let b = &other.0;
        let mut i: usize = 0;
        while i < a.len() && i < b.len()
            invariant
                a@ == self@,
                b@ == other@,
                i <= a.len(),
                i <= b.len(),
                forall|j: int| 0 <= j < i ==> a@[j] == b@[j],
            decreases a.len() - i,
        {
            let x = a[i];
            let y = b[i];
            if x < y {
                proof {
                    lemma_lex_lt_common_prefix(a@, b@, i as int);
                    assert(a@.skip(i as int)[0] == a@[i as int]);
                    assert(b@.skip(i as int)[0] == b@[i as int]);
                }
                return true;
            }
            if x > y {
                proof {
                    lemma_lex_lt_common_prefix(a@, b@, i as int);
                    assert(a@.skip(i as int)[0] == a@[i as int]);
                    assert(b@.skip(i as int)[0] == b@[i as int]);
                }
                return false;
            }
            i = i + 1;
        }
        proof {
            lemma_lex_lt_common_prefix(a@, b@, i as int);
        }
        a.len() < b.len()
    }
}

/// An immutable byte-sequence payload; no order is required of values.
#[derive(Clone, Debug)]
pub struct Value(pub(crate) Vec<u8>);

impl View for Value {
    type V = Seq<u8>;

    closed spec fn view(&self) -> Seq<u8> {
        self.0@
    }
}

impl Value {
    /// Wraps a raw byte sequence, taking ownership of it.
    pub fn from(bytes: Vec<u8>) -> (r: Value)
        ensures
            r@ == bytes@,
    {
        Value(bytes)
    }

    /// Builds a value from the fixed-width serialization of a signed
    /// 32-bit integer; the encoding is total, so this always succeeds.
    pub fn try_from(value: i32) -> (r: Result<Value, Error>)
        ensures
            r matches Ok(v) && v@ == i32_le_bytes(value),
    {
        Ok(Value(serialize_i32(value)))
    }

    /// The number of bytes in the value.
    pub fn len(&self) -> (n: usize)
        ensures
            n == self@.len(),
    {
        self.0.len()
    }

    /// Read-only access to the value's bytes.
    pub fn as_bytes(&self) -> (b: &Vec<u8>)
        ensures
            b@ == self@,
    {
        &self.0
    }
}

/// Byte-wise equality of two byte vectors.
fn bytes_eq(a: &Vec<u8>, b: &Vec<u8>) -> (r: bool)
    ensures
        r == (a@ == b@),
{
    if a.len() != b.len() {
        return false;
    }
    let mut i: usize = 0;
    while i < a.len()
        invariant
            a@.len() == b@.len(),
            i <= a.len(),
            forall|j: int| 0 <= j < i ==> a@[j] == b@[j],
        decreases a.len() - i,
    {
        if a[i] != b[i] {
            return false;
        }
        i = i + 1;
    }
    proof {
        assert(a@ =~= b@);
    }
    true
}

impl PartialEq for Key {
    /// Keys are equal exactly when their bytes are.
    fn eq(&self, other: &Key) -> (r: bool) {
        bytes_eq(&self.0, &other.0)
    }
}

impl vstd::std_specs::cmp::PartialEqSpecImpl for Key {
    open spec fn obeys_eq_spec() -> bool {
        true
    }

    open spec fn eq_spec(&self, other: &Key) -> bool {
        self@ == other@
    }
}

impl PartialEq for Value {
    /// Values are equal exactly when their bytes are.
    fn eq(&self, other: &Value) -> (r: bool) {
        bytes_eq(&self.0, &other.0)
    }
}

impl vstd::std_specs::cmp::PartialEqSpecImpl for Value {
    open spec fn obeys_eq_spec() -> bool {
        true
    }

    open spec fn eq_spec(&self, other: &Value) -> bool {
        self@ == other@
    }
}

} // verus!

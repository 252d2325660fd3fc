//! Decoded values and the byte-level reading that the decoder builds on.
use vstd::prelude::*;

verus! {

/// What a decoded value is, mathematically.
pub enum Decoded {
    Address(Seq<u8>),
    Bool(bool),
    Str(Seq<char>),
    Bytes(Seq<u8>),
    FixedBytes(Seq<u8>),
    /// The 32-byte big-endian word.
    Uint(Seq<u8>),
    /// The 32-byte two's-complement word.
    Int(Seq<u8>),
    List(Seq<Decoded>),
    Tuple(Seq<Decoded>),
}

/// One decoded ABI value.
#[derive(Debug, PartialEq, Eq)]
pub enum Value {
    /// The 20 address bytes.
    Address(Vec<u8>),
    Bool(bool),
    Str(String),
    Bytes(Vec<u8>),
    FixedBytes(Vec<u8>),
    /// Full-width big-endian word, unsigned.
    Uint(Vec<u8>),
    /// Full-width big-endian word, two's complement.
    Int(Vec<u8>),
    /// The elements of a `T[]` or a `T[N]`.
    List(Vec<Value>),
    Tuple(Vec<Value>),
}

impl Value {
    pub open spec fn model(&self) -> Decoded
        decreases self, 0nat,
    {
        match self {
            Value::Address(b) => Decoded::Address(b@),
            Value::Bool(b) => Decoded::Bool(*b),
            Value::Str(s) => Decoded::Str(s@),
            Value::Bytes(b) => Decoded::Bytes(b@),
            Value::FixedBytes(b) => Decoded::FixedBytes(b@),
            Value::Uint(b) => Decoded::Uint(b@),
            Value::Int(b) => Decoded::Int(b@),
            Value::List(vs) => Decoded::List(models(vs@, vs@.len() as int)),
            Value::Tuple(vs) => Decoded::Tuple(models(vs@, vs@.len() as int)),
        }
    }
}

/// The models of the first `k` values.
pub open spec fn models(vs: Seq<Value>, k: int) -> Seq<Decoded>
    decreases vs, k,
{
    if k <= 0 || k > vs.len() {
        Seq::empty()
    } else {
        models(vs, k - 1).push(vs[k - 1].model())
    }
}

pub proof fn lemma_models_prefix(vs: Seq<Value>, v: Value, k: int)
    requires
        0 <= k <= vs.len(),
    ensures
        models(vs.push(v), k) == models(vs, k),
    decreases k,
{
    if k > 0 {
        lemma_models_prefix(vs, v, k - 1);
        assert(vs.push(v)[k - 1] == vs[k - 1]);
    }
}

pub proof fn lemma_models_push(vs: Seq<Value>, v: Value)
    ensures
        models(vs.push(v), vs.len() + 1int) == models(vs, vs.len() as int).push(v.model()),
{
    lemma_models_prefix(vs, v, vs.len() as int);
    assert(vs.push(v)[vs.len() as int] == v);
}

/// The number that big-endian bytes spell.
pub open spec fn be_nat(s: Seq<u8>) -> nat
    decreases s.len(),
{
    if s.len() == 0 {
        0
    } else {
        be_nat(s.drop_last()) * 256 + s.last() as nat
    }
}

/// The 32-byte word at position `p`.
pub open spec fn word(d: Seq<u8>, p: int) -> Seq<u8> {
    d.subrange(p, p + 32)
}

proof fn lemma_be_prefix_le(s: Seq<u8>, j: int)
    requires
        0 <= j <= s.len(),
    ensures
        be_nat(s.subrange(0, j)) <= be_nat(s),
    decreases s.len(),
{
    if j < s.len() {
        lemma_be_prefix_le(s.drop_last(), j);
        assert(s.drop_last().subrange(0, j) =~= s.subrange(0, j));
    } else {
        assert(s.subrange(0, j) =~= s);
    }
}

/// The number in the word at `p`, where it is at most `d.len()`.
pub fn read_size(d: &Vec<u8>, p: usize) -> (r: Option<usize>)
    requires
        p + 32 <= d@.len(),
    ensures
        r.is_some() <==> be_nat(word(d@, p as int)) <= d@.len(),
        r matches Some(v) ==> v as nat == be_nat(word(d@, p as int)),
{
    let ghost w = word(d@, p as int);
    let limit = d.len() as u128;
    let mut v: u128 = 0;
    let mut i: usize = 0;
    while i < 32
        invariant
            i <= 32,
            p + 32 <= d@.len(),
            limit == d@.len(),
            w == word(d@, p as int),
            v as nat == be_nat(w.subrange(0, i as int)),
            v <= limit,
            limit <= usize::MAX,
        decreases 32 - i,
    {
        let b = d[p + i];
        assert(w.subrange(0, i + 1).drop_last() =~= w.subrange(0, i as int));
        assert(w[i as int] == b);
        v = v * 256 + b as u128;
        i = i + 1;
        if v > limit {
            proof {
                lemma_be_prefix_le(w, i as int);
            }
            return None;
        }
    }
    assert(w.subrange(0, 32) =~= w);
    Some(v as usize)
}

/// A copy of `d[lo..hi]`.
pub fn copy_range(d: &Vec<u8>, lo: usize, hi: usize) -> (r: Vec<u8>)
    requires
        lo <= hi <= d@.len(),
    ensures
        r@ == d@.subrange(lo as int, hi as int),
{
    let mut r: Vec<u8> = Vec::new();
    let mut i: usize = lo;
    while i < hi
        invariant
            lo <= i <= hi <= d@.len(),
            r@ == d@.subrange(lo as int, i as int),
        decreases hi - i,
    {
        r.push(d[i]);
        i = i + 1;
        assert(r@ =~= d@.subrange(lo as int, i as int));
    }
    r
}

} // verus!

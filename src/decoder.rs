//! The ABI head/tail decoder: a list of types read out of a data region.
use vstd::prelude::*;
use crate::abi_type::TypeDescriptor;
use crate::value::{
    be_nat, copy_range, lemma_models_push, models, read_size, word, Decoded, Value,
};

verus! {

broadcast use vstd::std_specs::vec::axiom_vec_index_decreases;

/// Why a value could not be read out of a data region.
#[derive(Debug, Clone, Copy, PartialEq, Eq)]
pub enum Fault {
    /// An offset, a length or a head claims bytes past the end of the data.
    DataTooShort,
    /// An offset points back into the head region it was read from, or a
    /// word is not a valid encoding of its type.
    Malformed,
}

/// Bytes that a head slot takes: one word for a dynamic type, the whole
/// inline encoding for a static one.
pub open spec fn head_size(t: TypeDescriptor) -> nat
    decreases t, 1nat,
{
    if t.is_dynamic() {
        32
    } else {
        region_size(t)
    }
}

/// Bytes of the head region of an aggregate laid out in place.
pub open spec fn region_size(t: TypeDescriptor) -> nat
    decreases t, 0nat,
{
    match t {
        TypeDescriptor::FixedArray(e, n) => n as nat * head_size(*e),
        TypeDescriptor::Tuple(cs) => head_size_sum(cs@, cs@.len() as int),
        _ => 32,
    }
}

/// Sum of the head sizes of the first `k` types.
pub open spec fn head_size_sum(cs: Seq<TypeDescriptor>, k: int) -> nat
    decreases cs, k,
{
    if k <= 0 || k > cs.len() {
        0
    } else {
        head_size_sum(cs, k - 1) + head_size(cs[k - 1])
    }
}

pub proof fn lemma_head_size_sum_mono(cs: Seq<TypeDescriptor>, k: int, j: int)
    requires
        0 <= k <= j <= cs.len(),
    ensures
        head_size_sum(cs, k) <= head_size_sum(cs, j),
    decreases j - k,
{
    if k < j {
        lemma_head_size_sum_mono(cs, k, j - 1);
    }
}

/// Names the text that `String::from_utf8_lossy` makes of some bytes.
pub uninterp spec fn utf8_text(b: Seq<u8>) -> Seq<char>;

/// Relies on String::from_utf8_lossy: the text the bytes spell, with each
/// invalid sequence replaced; it depends on the bytes alone, and ASCII bytes
/// (valid UTF-8) come back as the same characters.
#[verifier::external_body]
fn text_of_utf8(b: &[u8]) -> (r: String)
    ensures
        r@ == utf8_text(b@),
        (forall|i: int| 0 <= i < b@.len() ==> b@[i] < 128) ==> r@ == b@.map_values(|c: u8| c as char),
{
    String::from_utf8_lossy(b).into_owned()
}

/// Types read straight from one word.
pub open spec fn is_scalar(t: TypeDescriptor) -> bool {
    t is Address || t is Bool || t is FixedBytes || t is Uint || t is Int
}

/// A word that encodes a value of the scalar type: any word does, but for
/// a bool, whose word must be 0 or 1.
pub open spec fn scalar_ok(t: TypeDescriptor, w: Seq<u8>) -> bool {
    t is Bool ==> (forall|i: int| 0 <= i < 31 ==> w[i] == 0) && w[31] <= 1
}

/// A scalar read from its word: an address is the low 20 bytes, a bool is
/// whether the last byte is 1, `bytesN` the first N bytes, an integer the
/// whole word.
pub open spec fn scalar_value(t: TypeDescriptor, w: Seq<u8>) -> Decoded {
    match t {
        TypeDescriptor::Address => Decoded::Address(w.subrange(12, 32)),
        TypeDescriptor::Bool => Decoded::Bool(w[31] == 1),
        TypeDescriptor::FixedBytes(n) => Decoded::FixedBytes(
            w.subrange(0, if n <= 32 { n as int } else { 32 }),
        ),
        TypeDescriptor::Uint(_) => Decoded::Uint(w),
        TypeDescriptor::Int(_) => Decoded::Int(w),
        _ => Decoded::FixedBytes(w),
    }
}

/// Where the tail starts that the offset word at `p` points to; offsets
/// count from `base`, and must not point before `head_end`.
pub open spec fn tail_start(d: Seq<u8>, base: nat, head_end: nat, p: nat) -> Result<nat, Fault> {
    if p + 32 > d.len() {
        Err(Fault::DataTooShort)
    } else {
        let at = base + be_nat(word(d, p as int));
        if at < head_end {
            Err(Fault::Malformed)
        } else if at > d.len() {
            Err(Fault::DataTooShort)
        } else {
            Ok(at)
        }
    }
}

/// The payload of a `bytes` or `string` whose offset word is at `p`: a length
/// word, then that many bytes.
pub open spec fn bytes_at(d: Seq<u8>, base: nat, head_end: nat, p: nat) -> Result<Seq<u8>, Fault> {
    match tail_start(d, base, head_end, p) {
        Err(x) => Err(x),
        Ok(st) => if st + 32 > d.len() {
            Err(Fault::DataTooShort)
        } else {
            let l = be_nat(word(d, st as int));
            if st + 32 + l > d.len() {
                Err(Fault::DataTooShort)
            } else {
                Ok(d.subrange(st + 32int, st + 32int + l))
            }
        },
    }
}

pub open spec fn as_list(r: Result<Seq<Decoded>, Fault>) -> Result<Decoded, Fault> {
    match r {
        Ok(vs) => Ok(Decoded::List(vs)),
        Err(x) => Err(x),
    }
}

pub open spec fn as_tuple(r: Result<Seq<Decoded>, Fault>) -> Result<Decoded, Fault> {
    match r {
        Ok(vs) => Ok(Decoded::Tuple(vs)),
        Err(x) => Err(x),
    }
}

/// The value of type `t` whose head slot is at `p`, in a region that starts
/// at `base` and whose heads end at `head_end`.
pub open spec fn decode_one(
    t: TypeDescriptor,
    d: Seq<u8>,
    base: nat,
    head_end: nat,
    p: nat,
) -> Result<Decoded, Fault>
    decreases t, 0nat, 0int,
{
    match t {
        TypeDescriptor::String => match bytes_at(d, base, head_end, p) {
            Ok(b) => Ok(Decoded::Str(utf8_text(b))),
            Err(x) => Err(x),
        },
        TypeDescriptor::Bytes => match bytes_at(d, base, head_end, p) {
            Ok(b) => Ok(Decoded::Bytes(b)),
            Err(x) => Err(x),
        },
        TypeDescriptor::Array(e) => match tail_start(d, base, head_end, p) {
            Err(x) => Err(x),
            Ok(st) => if st + 32 > d.len() {
                Err(Fault::DataTooShort)
            } else {
                let n = be_nat(word(d, st as int));
                let b2 = st + 32;
                let h = head_size(*e);
                if n > d.len() || b2 + n * h > d.len() {
                    Err(Fault::DataTooShort)
                } else {
                    as_list(decode_list(*e, n, d, b2, b2 + n * h, 0, Seq::empty()))
                }
            },
        },
        TypeDescriptor::FixedArray(e, n) => {
            let size = n as nat * head_size(*e);
            if e.is_dynamic() {
                match tail_start(d, base, head_end, p) {
                    Err(x) => Err(x),
                    Ok(st) => if st + size > d.len() {
                        Err(Fault::DataTooShort)
                    } else {
                        as_list(decode_list(*e, n as nat, d, st, st + size, 0, Seq::empty()))
                    },
                }
            } else if p + size > d.len() {
                Err(Fault::DataTooShort)
            } else {
                as_list(decode_list(*e, n as nat, d, p, p + size, 0, Seq::empty()))
            }
        },
        TypeDescriptor::Tuple(cs) => {
            let size = head_size_sum(cs@, cs@.len() as int);
            if t.is_dynamic() {
                match tail_start(d, base, head_end, p) {
                    Err(x) => Err(x),
                    Ok(st) => if st + size > d.len() {
                        Err(Fault::DataTooShort)
                    } else {
                        as_tuple(decode_tuple(cs@, d, st, st + size, 0, st, Seq::empty()))
                    },
                }
            } else if p + size > d.len() {
                Err(Fault::DataTooShort)
            } else {
                as_tuple(decode_tuple(cs@, d, p, p + size, 0, p, Seq::empty()))
            }
        },
        _ => if p + 32 > d.len() {
            Err(Fault::DataTooShort)
        } else if !scalar_ok(t, word(d, p as int)) {
            Err(Fault::Malformed)
        } else {
            Ok(scalar_value(t, word(d, p as int)))
        },
    }
}

/// Elements `k..n` of a list of `e`, laid out one head after another from
/// `base`, appended to `acc`.
pub open spec fn decode_list(
    e: TypeDescriptor,
    n: nat,
    d: Seq<u8>,
    base: nat,
    head_end: nat,
    k: nat,
    acc: Seq<Decoded>,
) -> Result<Seq<Decoded>, Fault>
    decreases e, 1nat, n - k,
{
    if k >= n {
        Ok(acc)
    } else {
        match decode_one(e, d, base, head_end, base + k * head_size(e)) {
            Err(x) => Err(x),
            Ok(v) => decode_list(e, n, d, base, head_end, k + 1, acc.push(v)),
        }
    }
}

/// Components `k..` of a tuple whose next head slot is at `p`, appended to
/// `acc`.
pub open spec fn decode_tuple(
    cs: Seq<TypeDescriptor>,
    d: Seq<u8>,
    base: nat,
    head_end: nat,
    k: nat,
    p: nat,
    acc: Seq<Decoded>,
) -> Result<Seq<Decoded>, Fault>
    decreases cs, 1nat, cs.len() - k,
{
    if k >= cs.len() {
        Ok(acc)
    } else {
        match decode_one(cs[k as int], d, base, head_end, p) {
            Err(x) => Err(x),
            Ok(v) => decode_tuple(cs, d, base, head_end, k + 1, p + head_size(cs[k as int]), acc.push(v)),
        }
    }
}

/// Whether the type's encoded size depends on the value.
pub fn is_dynamic(t: &TypeDescriptor) -> (r: bool)
    ensures
        r == t.is_dynamic(),
    decreases t,
{
    match t {
        TypeDescriptor::String => true,
        TypeDescriptor::Bytes => true,
        TypeDescriptor::Array(_) => true,
        TypeDescriptor::FixedArray(e, _) => is_dynamic(e),
        TypeDescriptor::Tuple(cs) => {
            let mut i: usize = 0;
            #[verifier::loop_isolation(false)]
            while i < cs.len()
                invariant
                    i <= cs@.len(),
                    forall|j: int| 0 <= j < i ==> !(#[trigger] cs@[j]).is_dynamic(),
                decreases cs@.len() - i,
            {
                if is_dynamic(&cs[i]) {
                    assert(cs@[i as int].is_dynamic());
                    return true;
                }
                i = i + 1;
            }
            false
        },
        _ => false,
    }
}

/// The head size of `t`, where it is at most `limit`.
pub fn head_size_within(t: &TypeDescriptor, limit: usize) -> (r: Option<usize>)
    ensures
        r.is_some() <==> head_size(*t) <= limit,
        r matches Some(h) ==> h as nat == head_size(*t),
    decreases t, 1nat,
{
    if is_dynamic(t) {
        if limit >= 32 {
            Some(32)
        } else {
            None
        }
    } else {
        region_size_within(t, limit)
    }
}

/// The region size of `t`, where it is at most `limit`.
pub fn region_size_within(t: &TypeDescriptor, limit: usize) -> (r: Option<usize>)
    ensures
        r.is_some() <==> region_size(*t) <= limit,
        r matches Some(h) ==> h as nat == region_size(*t),
    decreases t, 0nat,
{
    match t {
        TypeDescriptor::FixedArray(e, n) => {
            let n = *n;
            if n == 0 {
                assert(n as nat * head_size(**e) == 0) by (nonlinear_arith)
                    requires n == 0;
                return Some(0);
            }
            match head_size_within(e, limit) {
                None => {
                    assert(n as nat * head_size(**e) >= head_size(**e)) by (nonlinear_arith)
                        requires n >= 1;
                    None
                },
                Some(h) => {
                    if h == 0 {
                        assert(n as nat * 0 == 0);
                        Some(0)
                    } else if n > limit / h {
                        assert(n * h > limit) by (nonlinear_arith)
                            requires n > limit / h, h > 0;
                        None
                    } else {
                        assert(n * h <= limit) by (nonlinear_arith)
                            requires n <= limit / h, h > 0;
                        Some(n * h)
                    }
                },
            }
        },
        TypeDescriptor::Tuple(cs) => {
            let mut sum: usize = 0;
            let mut i: usize = 0;
            #[verifier::loop_isolation(false)]
            while i < cs.len()
                invariant
                    i <= cs@.len(),
                    sum as nat == head_size_sum(cs@, i as int),
                    sum <= limit,
                decreases cs@.len() - i,
            {
                match head_size_within(&cs[i], limit - sum) {
                    None => {
                        proof {
                            lemma_head_size_sum_mono(cs@, i + 1, cs@.len() as int);
                        }
                        return None;
                    },
                    Some(h) => {
                        sum = sum + h;
                        i = i + 1;
                    },
                }
            }
            Some(sum)
        },
        _ => if limit >= 32 {
            Some(32)
        } else {
            None
        },
    }
}

/// The result of an exec decode, matched against its spec.
pub open spec fn same_outcome(r: Result<Value, Fault>, s: Result<Decoded, Fault>) -> bool {
    match r {
        Ok(v) => s == Ok::<Decoded, Fault>(v.model()),
        Err(x) => s == Err::<Decoded, Fault>(x),
    }
}

pub open spec fn same_list_outcome(
    r: Result<Vec<Value>, Fault>,
    s: Result<Seq<Decoded>, Fault>,
) -> bool {
    match r {
        Ok(vs) => s == Ok::<Seq<Decoded>, Fault>(models(vs@, vs@.len() as int)),
        Err(x) => s == Err::<Seq<Decoded>, Fault>(x),
    }
}

fn tail_start_exec(d: &Vec<u8>, base: usize, head_end: usize, p: usize) -> (r: Result<usize, Fault>)
    requires
        base <= head_end <= d@.len(),
        p <= d@.len(),
    ensures
        match r {
            Ok(st) => tail_start(d@, base as nat, head_end as nat, p as nat) == Ok::<nat, Fault>(st as nat),
            Err(x) => tail_start(d@, base as nat, head_end as nat, p as nat) == Err::<nat, Fault>(x),
        },
{
    if d.len() < 32 || p > d.len() - 32 {
        return Err(Fault::DataTooShort);
    }
    match read_size(d, p) {
        None => Err(Fault::DataTooShort),
        Some(off) => if off < head_end - base {
            Err(Fault::Malformed)
        } else if off > d.len() - base {
            Err(Fault::DataTooShort)
        } else {
            Ok(base + off)
        },
    }
}

fn bytes_at_exec(d: &Vec<u8>, base: usize, head_end: usize, p: usize) -> (r: Result<Vec<u8>, Fault>)
    requires
        base <= head_end <= d@.len(),
        p <= d@.len(),
    ensures
        match r {
            Ok(b) => bytes_at(d@, base as nat, head_end as nat, p as nat) == Ok::<Seq<u8>, Fault>(b@),
            Err(x) => bytes_at(d@, base as nat, head_end as nat, p as nat) == Err::<Seq<u8>, Fault>(x),
        },
{
    let st = tail_start_exec(d, base, head_end, p)?;
    if st > d.len() - 32 || d.len() < 32 {
        return Err(Fault::DataTooShort);
    }
    match read_size(d, st) {
        None => Err(Fault::DataTooShort),
        Some(l) => if l > d.len() - (st + 32) {
            Err(Fault::DataTooShort)
        } else {
            Ok(copy_range(d, st + 32, st + 32 + l))
        },
    }
}

pub(crate) fn scalar_exec(t: &TypeDescriptor, d: &Vec<u8>, p: usize) -> (r: Value)
    requires
        is_scalar(*t),
        p + 32 <= d@.len(),
    ensures
        r.model() == scalar_value(*t, word(d@, p as int)),
{
    let ghost w = word(d@, p as int);
    let _len = d.len();
    match t {
        TypeDescriptor::Address => {
            let b = copy_range(d, p + 12, p + 32);
            assert(b@ =~= w.subrange(12, 32));
            Value::Address(b)
        },
        TypeDescriptor::Bool => {
            assert(w[31] == d@[p + 31]);
            Value::Bool(d[p + 31] == 1)
        },
        TypeDescriptor::FixedBytes(n) => {
            let k: usize = if *n <= 32 { *n } else { 32 };
            let b = copy_range(d, p, p + k);
            assert(b@ =~= w.subrange(0, k as int));
            Value::FixedBytes(b)
        },
        TypeDescriptor::Uint(_) => Value::Uint(copy_range(d, p, p + 32)),
        _ => Value::Int(copy_range(d, p, p + 32)),
    }
}

/// Whether a word encodes a value of the scalar type.
pub(crate) fn scalar_ok_exec(t: &TypeDescriptor, d: &Vec<u8>, p: usize) -> (r: bool)
    requires
        p + 32 <= d@.len(),
    ensures
        r == scalar_ok(*t, word(d@, p as int)),
{
    let ghost w = word(d@, p as int);
    match t {
        TypeDescriptor::Bool => {
            let len = d.len();
            let mut i: usize = 0;
            #[verifier::loop_isolation(false)]
            while i < 31
                invariant
                    i <= 31,
                    len == d@.len(),
                    p + 32 <= d@.len(),
                    w == word(d@, p as int),
                    forall|j: int| 0 <= j < i ==> w[j] == 0,
                decreases 31 - i,
            {
                assert(w[i as int] == d@[p + i]);
                if d[p + i] != 0 {
                    assert(w[i as int] != 0);
                    return false;
                }
                i = i + 1;
            }
            assert(w[31] == d@[p + 31]);
            d[p + 31] <= 1
        },
        _ => true,
    }
}

/// Decodes the value of type `t` whose head slot is at `p`, in a region that
/// starts at `base` and whose heads end at `head_end`.
pub fn decode_one_exec(t: &TypeDescriptor, d: &Vec<u8>, base: usize, head_end: usize, p: usize) -> (r: Result<Value, Fault>)
    requires
        base <= head_end <= d@.len(),
        p <= d@.len(),
    ensures
        same_outcome(r, decode_one(*t, d@, base as nat, head_end as nat, p as nat)),
    decreases t, 0nat, 0int,
{
    let len = d.len();
    match t {
        TypeDescriptor::String => {
            let b = bytes_at_exec(d, base, head_end, p)?;
            Ok(Value::Str(text_of_utf8(b.as_slice())))
        },
        TypeDescriptor::Bytes => {
            let b = bytes_at_exec(d, base, head_end, p)?;
            Ok(Value::Bytes(b))
        },
        TypeDescriptor::Array(e) => {
            let st = tail_start_exec(d, base, head_end, p)?;
            if len < 32 || st > len - 32 {
                return Err(Fault::DataTooShort);
            }
            let b2 = st + 32;
            match read_size(d, st) {
                None => Err(Fault::DataTooShort),
                Some(n) => {
                    let ghost h = head_size(**e);
                    if n == 0 {
                        assert(n * h == 0) by (nonlinear_arith) requires n == 0;
                        let vs = decode_list_exec(e, 0, 0, d, b2, b2)?;
                        return Ok(Value::List(vs));
                    }
                    let room = len - b2;
                    match head_size_within(e, room) {
                        None => {
                            assert(n * h >= h) by (nonlinear_arith) requires n >= 1;
                            Err(Fault::DataTooShort)
                        },
                        Some(hs) => {
                            if hs != 0 && n > room / hs {
                                assert(n * hs > room) by (nonlinear_arith)
                                    requires n > room / hs, hs > 0;
                                Err(Fault::DataTooShort)
                            } else {
                                assert(n * hs <= room) by (nonlinear_arith)
                                    requires hs == 0 || n <= room / hs;
                                let vs = decode_list_exec(e, n, hs, d, b2, b2 + n * hs)?;
                                Ok(Value::List(vs))
                            }
                        },
                    }
                },
            }
        },
        TypeDescriptor::FixedArray(e, n) => {
            let dynamic = is_dynamic(e);
            let start = if dynamic {
                tail_start_exec(d, base, head_end, p)?
            } else {
                p
            };
            match region_size_within(t, len - start) {
                None => Err(Fault::DataTooShort),
                Some(size) => {
                    let hs = if *n == 0 {
                        0
                    } else {
                        match head_size_within(e, size) {
                            Some(h) => h,
                            None => {
                                assert(*n as nat * head_size(**e) >= head_size(**e)) by (nonlinear_arith)
                                    requires *n >= 1;
                                0
                            },
                        }
                    };
                    let ghost h = head_size(**e);
                    assert(*n == 0 || hs == h);
                    assert(*n as nat * hs == *n as nat * h) by (nonlinear_arith)
                        requires *n == 0 || hs == h;
                    let vs = decode_list_exec(e, *n, hs, d, start, start + size)?;
                    Ok(Value::List(vs))
                },
            }
        },
        TypeDescriptor::Tuple(cs) => {
            let dynamic = is_dynamic(t);
            let start = if dynamic {
                tail_start_exec(d, base, head_end, p)?
            } else {
                p
            };
            match region_size_within(t, len - start) {
                None => Err(Fault::DataTooShort),
                Some(size) => {
                    let vs = decode_tuple_exec(cs, d, start, start + size)?;
                    Ok(Value::Tuple(vs))
                },
            }
        },
        _ => {
            if len < 32 || p > len - 32 {
                Err(Fault::DataTooShort)
            } else if !scalar_ok_exec(t, d, p) {
                Err(Fault::Malformed)
            } else {
                Ok(scalar_exec(t, d, p))
            }
        },
    }
}

/// Decodes `n` elements of type `e`, each head `hs` bytes after the last,
/// from `base`.
fn decode_list_exec(e: &TypeDescriptor, n: usize, hs: usize, d: &Vec<u8>, base: usize, head_end: usize) -> (r: Result<Vec<Value>, Fault>)
    requires
        n == 0 || hs as nat == head_size(*e),
        head_end as nat == base + n * hs,
        head_end <= d@.len(),
    ensures
        same_list_outcome(r, decode_list(*e, n as nat, d@, base as nat, head_end as nat, 0, Seq::empty())),
    decreases e, 1nat, 0int,
{
    let mut out: Vec<Value> = Vec::new();
    let mut k: usize = 0;
    let mut p: usize = base;
    proof {
        assert(models(out@, 0) =~= Seq::<Decoded>::empty());
    }
    #[verifier::loop_isolation(false)]
    while k < n
        invariant
            k <= n,
            out@.len() == k,
            p as nat == base + k * hs,
            decode_list(*e, n as nat, d@, base as nat, head_end as nat, 0, Seq::empty())
                == decode_list(*e, n as nat, d@, base as nat, head_end as nat, k as nat, models(out@, k as int)),
        decreases n - k,
    {
        assert(p + hs <= head_end) by (nonlinear_arith)
            requires p == base + k * hs, k < n, head_end == base + n * hs;
        let v = decode_one_exec(e, d, base, head_end, p)?;
        proof {
            lemma_models_push(out@, v);
        }
        out.push(v);
        k = k + 1;
        p = p + hs;
        assert(p as nat == base + k * hs) by (nonlinear_arith)
            requires p == base + (k - 1) * hs + hs;
    }
    Ok(out)
}

/// Decodes the components of a tuple laid out from `base`.
fn decode_tuple_exec(cs: &Vec<TypeDescriptor>, d: &Vec<u8>, base: usize, head_end: usize) -> (r: Result<Vec<Value>, Fault>)
    requires
        head_end as nat == base + head_size_sum(cs@, cs@.len() as int),
        head_end <= d@.len(),
    ensures
        same_list_outcome(r, decode_tuple(cs@, d@, base as nat, head_end as nat, 0, base as nat, Seq::empty())),
    decreases cs, 1nat, 0int,
{
    let mut out: Vec<Value> = Vec::new();
    let mut k: usize = 0;
    let mut p: usize = base;
    proof {
        assert(models(out@, 0) =~= Seq::<Decoded>::empty());
    }
    #[verifier::loop_isolation(false)]
    while k < cs.len()
        invariant
            k <= cs@.len(),
            out@.len() == k,
            p as nat == base + head_size_sum(cs@, k as int),
            decode_tuple(cs@, d@, base as nat, head_end as nat, 0, base as nat, Seq::empty())
                == decode_tuple(cs@, d@, base as nat, head_end as nat, k as nat, p as nat, models(out@, k as int)),
        decreases cs@.len() - k,
    {
        proof {
            lemma_head_size_sum_mono(cs@, k + 1, cs@.len() as int);
        }
        let hs = match head_size_within(&cs[k], head_end - p) {
            Some(h) => h,
            None => 0,
        };
        let v = decode_one_exec(&cs[k], d, base, head_end, p)?;
        proof {
            lemma_models_push(out@, v);
        }
        out.push(v);
        k = k + 1;
        p = p + hs;
    }
    Ok(out)
}

} // verus!

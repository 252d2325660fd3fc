//! Event schemas and the decoding of one raw log against a schema.
use vstd::prelude::*;
use crate::abi_type::TypeDescriptor;
use crate::decoder::{
    decode_one, decode_one_exec, head_size, head_size_within, is_scalar,
    scalar_exec, scalar_ok, scalar_ok_exec, scalar_value, Fault,
};
use crate::registry::{bytes_eq, signature_hash, signature_hash_spec};
use crate::value::{copy_range, word};
use crate::value::{lemma_models_push, models, Decoded, Value};
use crate::hexcodec::{hex_decode, is_hex_text, parse_hex_bytes, parse_topic, strip_0x, HexError};

verus! {

/// Why a log could not be decoded against a schema.
#[derive(Debug, Clone, Copy, PartialEq, Eq)]
pub enum DecodeError {
    /// The number of topics is not the one the event declares.
    TopicCountMismatch,
    /// The first topic of a non-anonymous event is not its signature hash.
    SignatureMismatch,
    /// An offset, a length or a head claims bytes past the end of the data.
    /// `param` is the position of the parameter in the event, `offset` the
    /// byte offset of its head slot in the data.
    DataTooShort { param: usize, offset: usize },
    /// An offset points back into its head region, or a word does not encode
    /// a value of its type. `param` is the position of the parameter;
    /// `offset` is the byte offset of its head slot in the data, or for an
    /// indexed parameter the position of its topic.
    Malformed { param: usize, offset: usize },
}

/// One declared parameter of an event.
#[derive(Debug, PartialEq, Eq)]
pub struct EventParameter {
    /// May be empty.
    pub name: String,
    pub kind: TypeDescriptor,
    pub indexed: bool,
}

/// An event as the ABI declares it.
#[derive(Debug, PartialEq, Eq)]
pub struct EventSchema {
    pub name: String,
    pub inputs: Vec<EventParameter>,
    /// An anonymous event has no signature topic.
    pub anonymous: bool,
}

/// A log as it comes off the chain: topic words and a data blob.
#[derive(Debug, PartialEq, Eq)]
pub struct RawLog {
    pub topics: Vec<Vec<u8>>,
    pub data: Vec<u8>,
}

impl RawLog {
    /// Every topic is one 32-byte word.
    pub open spec fn wf(&self) -> bool {
        forall|i: int| 0 <= i < self.topics@.len() ==> (#[trigger] self.topics@[i])@.len() == 32
    }
}

/// Reads a log record given as hexadecimal text: each topic must be one
/// 32-byte word, the data any even number of digits; `0x` is optional.
pub fn raw_log_from_hex(topics: &Vec<String>, data: &str) -> (r: Result<RawLog, HexError>)
    ensures
        r matches Ok(log) ==> {
            &&& log.wf()
            &&& log.topics@.len() == topics@.len()
            &&& forall|i: int| 0 <= i < topics@.len() ==> (#[trigger] log.topics@[i])@ == hex_decode(strip_0x(topics@[i]@))
            &&& log.data@ == hex_decode(strip_0x(data@))
        },
        r is Ok <==> (forall|i: int| 0 <= i < topics@.len() ==> {
            &&& is_hex_text(strip_0x((#[trigger] topics@[i])@))
            &&& hex_decode(strip_0x(topics@[i]@)).len() == 32
        }) && is_hex_text(strip_0x(data@)),
{
    let mut words: Vec<Vec<u8>> = Vec::new();
    let mut i: usize = 0;
    while i < topics.len()
        invariant
            i <= topics@.len(),
            words@.len() == i,
            forall|k: int| 0 <= k < i ==> {
                &&& is_hex_text(strip_0x((#[trigger] topics@[k])@))
                &&& hex_decode(strip_0x(topics@[k]@)).len() == 32
                &&& words@[k]@ == hex_decode(strip_0x(topics@[k]@))
            },
        decreases topics@.len() - i,
    {
        let w = parse_topic(topics[i].as_str())?;
        words.push(w);
        i = i + 1;
    }
    let bytes = parse_hex_bytes(data)?;
    let log = RawLog { topics: words, data: bytes };
    assert forall|k: int| 0 <= k < log.topics@.len() implies (#[trigger] log.topics@[k])@.len() == 32 by {
        assert(is_hex_text(strip_0x(topics@[k]@)));
    }
    Ok(log)
}

/// Number of indexed parameters among the first `k`.
pub open spec fn indexed_count(ps: Seq<EventParameter>, k: int) -> nat
    decreases k,
{
    if k <= 0 || k > ps.len() {
        0
    } else {
        indexed_count(ps, k - 1) + if ps[k - 1].indexed { 1nat } else { 0nat }
    }
}

/// Bytes of head that the non-indexed parameters among the first `k` take.
pub open spec fn data_head_size(ps: Seq<EventParameter>, k: int) -> nat
    decreases k,
{
    if k <= 0 || k > ps.len() {
        0
    } else {
        data_head_size(ps, k - 1) + if ps[k - 1].indexed { 0nat } else { head_size(ps[k - 1].kind) }
    }
}

/// Topics a log of this schema carries: one per indexed parameter, plus the
/// signature topic unless the event is anonymous.
pub open spec fn expected_topics(s: EventSchema) -> nat {
    indexed_count(s.inputs@, s.inputs@.len() as int) + if s.anonymous { 0nat } else { 1nat }
}

/// An indexed parameter's value: a scalar is read from its topic word; for
/// any other type the topic holds only a hash of the value, which is given
/// back as 32 opaque bytes.
pub open spec fn topic_value(t: TypeDescriptor, w: Seq<u8>) -> Decoded {
    if is_scalar(t) {
        scalar_value(t, w)
    } else {
        Decoded::FixedBytes(w)
    }
}

/// A fault of the data decoder, with the parameter and its head slot.
pub open spec fn with_context(f: Fault, param: nat, offset: nat) -> DecodeError {
    match f {
        Fault::DataTooShort => DecodeError::DataTooShort { param: param as usize, offset: offset as usize },
        Fault::Malformed => DecodeError::Malformed { param: param as usize, offset: offset as usize },
    }
}

/// Parameters `k..` in declaration order, appended to `acc`: an indexed one
/// takes topic `ti`, a non-indexed one the data head slot at `p`.
pub open spec fn decode_params(
    ps: Seq<EventParameter>,
    topics: Seq<Seq<u8>>,
    d: Seq<u8>,
    head_end: nat,
    k: nat,
    ti: nat,
    p: nat,
    acc: Seq<Decoded>,
) -> Result<Seq<Decoded>, DecodeError>
    decreases ps.len() - k,
{
    if k >= ps.len() {
        Ok(acc)
    } else if ps[k as int].indexed {
        let t = ps[k as int].kind;
        if is_scalar(t) && !scalar_ok(t, topics[ti as int]) {
            Err(DecodeError::Malformed { param: k as usize, offset: ti as usize })
        } else {
            decode_params(ps, topics, d, head_end, k + 1, ti + 1, p, acc.push(topic_value(t, topics[ti as int])))
        }
    } else {
        match decode_one(ps[k as int].kind, d, 0, head_end, p) {
            Err(x) => Err(with_context(x, k, p)),
            Ok(v) => decode_params(ps, topics, d, head_end, k + 1, ti, p + head_size(ps[k as int].kind),
                acc.push(v)),
        }
    }
}

/// The first non-indexed parameter from `k` on whose head slot, laid out
/// from `p`, ends past `len`, with the offset of that slot.
pub open spec fn head_overrun(ps: Seq<EventParameter>, len: nat, k: nat, p: nat) -> Option<(nat, nat)>
    decreases ps.len() - k,
{
    if k >= ps.len() {
        None
    } else if ps[k as int].indexed {
        head_overrun(ps, len, k + 1, p)
    } else if p + head_size(ps[k as int].kind) > len {
        Some((k, p))
    } else {
        head_overrun(ps, len, k + 1, p + head_size(ps[k as int].kind))
    }
}

/// The values of all parameters of `s`, in declaration order, from a log.
pub open spec fn decode_log_spec(s: EventSchema, topics: Seq<Seq<u8>>, d: Seq<u8>) -> Result<Seq<Decoded>, DecodeError> {
    let ps = s.inputs@;
    if topics.len() != expected_topics(s) {
        Err(DecodeError::TopicCountMismatch)
    } else if !s.anonymous && topics[0] != signature_hash_spec(s) {
        Err(DecodeError::SignatureMismatch)
    } else {
        match head_overrun(ps, d.len(), 0, 0) {
            Some((k, p)) => Err(DecodeError::DataTooShort { param: k as usize, offset: p as usize }),
            None => decode_params(ps, topics, d, data_head_size(ps, ps.len() as int), 0,
                if s.anonymous { 0 } else { 1 }, 0, Seq::empty()),
        }
    }
}

proof fn lemma_indexed_count_mono(ps: Seq<EventParameter>, k: int, j: int)
    requires
        0 <= k <= j <= ps.len(),
    ensures
        indexed_count(ps, k) + (j - k) >= indexed_count(ps, j) >= indexed_count(ps, k),
    decreases j - k,
{
    if k < j {
        lemma_indexed_count_mono(ps, k, j - 1);
    }
}

proof fn lemma_data_head_size_mono(ps: Seq<EventParameter>, k: int, j: int)
    requires
        0 <= k <= j <= ps.len(),
    ensures
        data_head_size(ps, k) <= data_head_size(ps, j),
    decreases j - k,
{
    if k < j {
        lemma_data_head_size_mono(ps, k, j - 1);
    }
}

proof fn lemma_head_overrun_none(ps: Seq<EventParameter>, len: nat, k: nat, p: nat)
    requires
        k <= ps.len(),
        p == data_head_size(ps, k as int),
        p <= len,
        head_overrun(ps, len, k, p) is None,
    ensures
        data_head_size(ps, ps.len() as int) <= len,
    decreases ps.len() - k,
{
    if k < ps.len() {
        if ps[k as int].indexed {
            lemma_head_overrun_none(ps, len, k + 1, p);
        } else {
            lemma_head_overrun_none(ps, len, k + 1, p + head_size(ps[k as int].kind));
        }
    }
}

proof fn lemma_params_extend(
    ps: Seq<EventParameter>,
    topics: Seq<Seq<u8>>,
    d: Seq<u8>,
    head_end: nat,
    k: nat,
    ti: nat,
    p: nat,
    acc: Seq<Decoded>,
)
    requires
        k <= ps.len(),
    ensures
        decode_params(ps, topics, d, head_end, k, ti, p, acc) matches Ok(vs) ==> {
            &&& vs.len() == acc.len() + ps.len() - k
            &&& forall|i: int| 0 <= i < acc.len() ==> vs[i] == acc[i]
        },
    decreases ps.len() - k,
{
    if k < ps.len() {
        if ps[k as int].indexed {
            let a2 = acc.push(topic_value(ps[k as int].kind, topics[ti as int]));
            lemma_params_extend(ps, topics, d, head_end, k + 1, ti + 1, p, a2);
        } else {
            match decode_one(ps[k as int].kind, d, 0, head_end, p) {
                Err(_) => {},
                Ok(v) => {
                    lemma_params_extend(ps, topics, d, head_end, k + 1, ti,
                        p + head_size(ps[k as int].kind), acc.push(v));
                },
            }
        }
    }
}

proof fn lemma_params_indexed(
    ps: Seq<EventParameter>,
    topics: Seq<Seq<u8>>,
    d: Seq<u8>,
    head_end: nat,
    k: nat,
    ti: nat,
    p: nat,
    acc: Seq<Decoded>,
    j: int,
)
    requires
        k <= j < ps.len(),
        acc.len() == k,
        ps[j].indexed,
    ensures
        decode_params(ps, topics, d, head_end, k, ti, p, acc) matches Ok(vs) ==> vs[j] == topic_value(
            ps[j].kind,
            topics[ti + indexed_count(ps, j) - indexed_count(ps, k as int)],
        ),
    decreases ps.len() - k,
{
    if ps[k as int].indexed {
        let a2 = acc.push(topic_value(ps[k as int].kind, topics[ti as int]));
        if k == j {
            lemma_params_extend(ps, topics, d, head_end, k + 1, ti + 1, p, a2);
        } else {
            lemma_params_indexed(ps, topics, d, head_end, k + 1, ti + 1, p, a2, j);
        }
    } else {
        match decode_one(ps[k as int].kind, d, 0, head_end, p) {
            Err(_) => {},
            Ok(v) => {
                lemma_params_indexed(ps, topics, d, head_end, k + 1, ti,
                    p + head_size(ps[k as int].kind), acc.push(v), j);
            },
        }
    }
}

/// An indexed parameter whose type is not a single-word scalar (a string,
/// bytes, an array or a tuple) decodes to the 32 bytes of its topic, which
/// hold only a hash of the value, never to the value itself.
pub proof fn lemma_indexed_non_scalar_is_hash(s: EventSchema, topics: Seq<Seq<u8>>, d: Seq<u8>, j: int)
    requires
        0 <= j < s.inputs@.len(),
        s.inputs@[j].indexed,
        !is_scalar(s.inputs@[j].kind),
    ensures
        decode_log_spec(s, topics, d) matches Ok(vs) ==> vs[j] == Decoded::FixedBytes(
            topics[(if s.anonymous { 0int } else { 1int }) + indexed_count(s.inputs@, j)],
        ),
{
    let ps = s.inputs@;
    let head_end = data_head_size(ps, ps.len() as int);
    lemma_params_indexed(ps, topics, d, head_end, 0, if s.anonymous { 0 } else { 1 }, 0, Seq::empty(), j);
}

/// A log with fewer topics than the event declares (one per indexed
/// parameter, plus the signature topic unless anonymous), an empty topic
/// list among them, is refused with `TopicCountMismatch`.
pub proof fn lemma_too_few_topics(s: EventSchema, topics: Seq<Seq<u8>>, d: Seq<u8>)
    requires
        topics.len() < expected_topics(s),
    ensures
        decode_log_spec(s, topics, d) == Err::<Seq<Decoded>, DecodeError>(DecodeError::TopicCountMismatch),
{
}

/// With the right topics, data shorter than the heads of the non-indexed
/// parameters is refused with `DataTooShort`; the outcome is a function of
/// the schema and the log, so the same record gives the same error every
/// time.
pub proof fn lemma_short_data(s: EventSchema, topics: Seq<Seq<u8>>, d: Seq<u8>, d2: Seq<u8>)
    requires
        topics.len() == expected_topics(s),
        s.anonymous || topics[0] == signature_hash_spec(s),
        d.len() < data_head_size(s.inputs@, s.inputs@.len() as int),
        d2 == d,
    ensures
        decode_log_spec(s, topics, d) matches Err(DecodeError::DataTooShort { .. }),
        decode_log_spec(s, topics, d2) == decode_log_spec(s, topics, d),
{
    if head_overrun(s.inputs@, d.len(), 0, 0) is None {
        lemma_head_overrun_none(s.inputs@, d.len(), 0, 0);
    }
}

fn is_scalar_exec(t: &TypeDescriptor) -> (r: bool)
    ensures
        r == is_scalar(*t),
{
    match t {
        TypeDescriptor::Address | TypeDescriptor::Bool | TypeDescriptor::FixedBytes(_)
        | TypeDescriptor::Uint(_) | TypeDescriptor::Int(_) => true,
        _ => false,
    }
}

fn topic_value_exec(t: &TypeDescriptor, w: &Vec<u8>) -> (r: Value)
    requires
        w@.len() == 32,
    ensures
        r.model() == topic_value(*t, w@),
{
    assert(word(w@, 0) =~= w@);
    if is_scalar_exec(t) {
        scalar_exec(t, w, 0)
    } else {
        Value::FixedBytes(copy_range(w, 0, 32))
    }
}

/// Decodes every parameter of the event from a log, in declaration order.
/// Indexed parameters come from the topics, after the signature topic unless
/// the event is anonymous; the others from the data, as one ABI tuple.
pub fn decode_log(schema: &EventSchema, log: &RawLog) -> (r: Result<Vec<Value>, DecodeError>)
    requires
        log.wf(),
    ensures
        match r {
            Ok(vs) => decode_log_spec(*schema, log.topics@.map_values(|t: Vec<u8>| t@), log.data@)
                == Ok::<Seq<Decoded>, DecodeError>(models(vs@, vs@.len() as int)),
            Err(x) => decode_log_spec(*schema, log.topics@.map_values(|t: Vec<u8>| t@), log.data@)
                == Err::<Seq<Decoded>, DecodeError>(x),
        },
{
    let ps = &schema.inputs;
    let d = &log.data;
    let ghost topics = log.topics@.map_values(|t: Vec<u8>| t@);
    let len = d.len();
    // count the topics and the data head that the parameters claim
    let mut n_indexed: usize = 0;
    let mut head_end: usize = 0;
    let mut overrun: Option<(usize, usize)> = None;
    let mut i: usize = 0;
    while i < ps.len()
        invariant
            i <= ps@.len(),
            n_indexed as nat == indexed_count(ps@, i as int),
            n_indexed <= i,
            len == d@.len(),
            overrun is None ==> head_end as nat == data_head_size(ps@, i as int) && head_end <= len
                && head_overrun(ps@, len as nat, 0, 0) == head_overrun(ps@, len as nat, i as nat, head_end as nat),
            overrun matches Some((k, p)) ==> head_overrun(ps@, len as nat, 0, 0) == Some((k as nat, p as nat)),
        decreases ps@.len() - i,
    {
        if ps[i].indexed {
            n_indexed = n_indexed + 1;
        } else if overrun.is_none() {
            match head_size_within(&ps[i].kind, len - head_end) {
                Some(h) => {
                    head_end = head_end + h;
                },
                None => {
                    overrun = Some((i, head_end));
                },
            }
        }
        i = i + 1;
    }
    let first: usize = if schema.anonymous { 0 } else { 1 };
    let n_topics = log.topics.len();
    if n_topics < first || n_topics - first != n_indexed {
        return Err(DecodeError::TopicCountMismatch);
    }
    if !schema.anonymous {
        let sig = signature_hash(schema);
        if !bytes_eq(&log.topics[0], &sig) {
            return Err(DecodeError::SignatureMismatch);
        }
    }
    if let Some((k, p)) = overrun {
        return Err(DecodeError::DataTooShort { param: k, offset: p });
    }
    let mut out: Vec<Value> = Vec::new();
    let mut k: usize = 0;
    let mut ti: usize = first;
    let mut p: usize = 0;
    proof {
        assert(models(out@, 0) =~= Seq::<Decoded>::empty());
    }
    while k < ps.len()
        invariant
            k <= ps@.len(),
            out@.len() == k,
            ti as nat == first + indexed_count(ps@, k as int),
            log.topics@.len() == first + indexed_count(ps@, ps@.len() as int),
            p as nat == data_head_size(ps@, k as int),
            head_end as nat == data_head_size(ps@, ps@.len() as int),
            head_end <= d@.len(),
            log.wf(),
            n_topics == log.topics@.len(),
            topics == log.topics@.map_values(|t: Vec<u8>| t@),
            ps == &schema.inputs,
            d == &log.data,
            decode_log_spec(*schema, topics, d@) == decode_params(ps@, topics, d@, head_end as nat, k as nat, ti as nat, p as nat, models(out@, k as int)),
        decreases ps@.len() - k,
    {
        proof {
            lemma_indexed_count_mono(ps@, k + 1, ps@.len() as int);
            lemma_data_head_size_mono(ps@, k + 1, ps@.len() as int);
        }
        let param = &ps[k];
        let v = if param.indexed {
            let w = &log.topics[ti];
            assert(word(w@, 0) =~= w@);
            if is_scalar_exec(&param.kind) && !scalar_ok_exec(&param.kind, w, 0) {
                return Err(DecodeError::Malformed { param: k, offset: ti });
            }
            let v = topic_value_exec(&param.kind, w);
            ti = ti + 1;
            v
        } else {
            let v = match decode_one_exec(&param.kind, d, 0, head_end, p) {
                Ok(v) => v,
                Err(Fault::DataTooShort) => return Err(DecodeError::DataTooShort { param: k, offset: p }),
                Err(Fault::Malformed) => return Err(DecodeError::Malformed { param: k, offset: p }),
            };
            let h = match head_size_within(&param.kind, head_end - p) {
                Some(h) => h,
                None => 0,
            };
            p = p + h;
            v
        };
        proof {
            lemma_models_push(out@, v);
        }
        out.push(v);
        k = k + 1;
    }
    Ok(out)
}

} // verus!

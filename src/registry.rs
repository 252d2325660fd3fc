//! Event signatures, their hashes, and the choice of schema for a log.
use vstd::prelude::*;
use vstd::string::*;
use crate::abi_type::{render_list, TypeDescriptor};
use crate::event::{decode_log, decode_log_spec, DecodeError, EventParameter, EventSchema, RawLog};
use crate::text::{decimal, digit_char};
use crate::value::{models, Decoded, Value};

verus! {

/// Why no schema could be had, or chosen for a log.
#[derive(Debug, Clone, PartialEq, Eq)]
pub enum SchemaError {
    /// The ABI document is neither an array nor an object with an `abi` or
    /// `events` array.
    UnsupportedStructure,
    /// No event of that name.
    EventNotFound(String),
    /// No event at all.
    EmptyAbi,
    /// No schema's signature hash is the log's first topic.
    UnknownTopic0,
}

/// Why a log could not be decoded in dispatch mode.
#[derive(Debug, Clone, PartialEq, Eq)]
pub enum LogError {
    Schema(SchemaError),
    Decode(DecodeError),
}

/// The parameter types of an event, in order.
pub open spec fn kinds(ps: Seq<EventParameter>) -> Seq<TypeDescriptor> {
    ps.map_values(|p: EventParameter| p.kind)
}

/// `name(t1,t2,...)` with canonical type spellings.
pub open spec fn signature_text(s: EventSchema) -> Seq<char> {
    s.name@ + "("@ + render_list(kinds(s.inputs@), s.inputs@.len() as int) + ")"@
}

/// Names the Keccak-256 digest of the UTF-8 encoding of a text.
pub uninterp spec fn keccak256_of_text(s: Seq<char>) -> Seq<u8>;

/// The topic that identifies logs of a non-anonymous event.
pub open spec fn signature_hash_spec(s: EventSchema) -> Seq<u8> {
    keccak256_of_text(signature_text(s))
}

/// Relies on sha3::Keccak256 (the hasher that ethabi signs events with):
/// the 32-byte Keccak-256 digest of the text's UTF-8 bytes.
#[verifier::external_body]
fn keccak256_text(s: &str) -> (r: Vec<u8>)
    ensures
        r@ == keccak256_of_text(s@),
        r@.len() == 32,
{
    <sha3::Keccak256 as sha3::Digest>::digest(s.as_bytes()).to_vec()
}

fn digit_str(d: usize) -> (r: &'static str)
    requires
        d < 10,
    ensures
        r@ == seq![digit_char(d as nat)],
{
    proof {
        reveal_strlit("0");
        reveal_strlit("1");
        reveal_strlit("2");
        reveal_strlit("3");
        reveal_strlit("4");
        reveal_strlit("5");
        reveal_strlit("6");
        reveal_strlit("7");
        reveal_strlit("8");
        reveal_strlit("9");
    }
    let r = if d == 0 { "0" } else if d == 1 { "1" } else if d == 2 { "2" } else if d == 3 { "3" }
        else if d == 4 { "4" } else if d == 5 { "5" } else if d == 6 { "6" } else if d == 7 { "7" }
        else if d == 8 { "8" } else { "9" };
    assert(r@ =~= seq![digit_char(d as nat)]);
    r
}

/// Appends the decimal spelling of `n`.
pub(crate) fn push_decimal(out: &mut String, n: usize)
    ensures
        final(out)@ == old(out)@ + decimal(n as nat),
    decreases n,
{
    if n < 10 {
        out.append(digit_str(n));
    } else {
        push_decimal(out, n / 10);
        out.append(digit_str(n % 10));
        assert(decimal(n as nat) == decimal((n / 10) as nat).push(digit_char((n % 10) as nat)));
        assert(final(out)@ =~= old(out)@ + decimal(n as nat));
    }
}

/// Appends the canonical spelling of a type.
fn push_type(out: &mut String, t: &TypeDescriptor)
    ensures
        final(out)@ == old(out)@ + t.render(),
    decreases t, 1nat,
{
    proof {
        reveal_strlit("address");
        reveal_strlit("bool");
        reveal_strlit("string");
        reveal_strlit("bytes");
        reveal_strlit("uint");
        reveal_strlit("int");
        reveal_strlit("[]");
        reveal_strlit("[");
        reveal_strlit("]");
        reveal_strlit("(");
        reveal_strlit(")");
    }
    let ghost start = out@;
    match t {
        TypeDescriptor::Address => out.append("address"),
        TypeDescriptor::Bool => out.append("bool"),
        TypeDescriptor::String => out.append("string"),
        TypeDescriptor::Bytes => out.append("bytes"),
        TypeDescriptor::FixedBytes(n) => {
            out.append("bytes");
            push_decimal(out, *n);
        },
        TypeDescriptor::Uint(b) => {
            out.append("uint");
            push_decimal(out, *b);
        },
        TypeDescriptor::Int(b) => {
            out.append("int");
            push_decimal(out, *b);
        },
        TypeDescriptor::Array(e) => {
            push_type(out, e);
            out.append("[]");
        },
        TypeDescriptor::FixedArray(e, n) => {
            push_type(out, e);
            out.append("[");
            push_decimal(out, *n);
            out.append("]");
        },
        TypeDescriptor::Tuple(cs) => {
            out.append("(");
            push_type_list(out, cs);
            out.append(")");
        },
    }
    assert(out@ =~= start + t.render());
}

/// Appends the spellings of the types, separated by commas.
fn push_type_list(out: &mut String, cs: &Vec<TypeDescriptor>)
    ensures
        final(out)@ == old(out)@ + render_list(cs@, cs@.len() as int),
    decreases cs, 0nat,
{
    proof {
        reveal_strlit(",");
    }
    let ghost start = out@;
    let mut i: usize = 0;
    #[verifier::loop_isolation(false)]
    while i < cs.len()
        invariant
            i <= cs@.len(),
            out@ == start + render_list(cs@, i as int),
        decreases cs@.len() - i,
    {
        if i > 0 {
            out.append(",");
        }
        push_type(out, &cs[i]);
        i = i + 1;
        assert(out@ =~= start + render_list(cs@, i as int));
    }
}

/// The signature text of an event, such as `Transfer(address,address,uint256)`.
pub fn signature_string(schema: &EventSchema) -> (r: String)
    ensures
        r@ == signature_text(*schema),
{
    proof {
        reveal_strlit("(");
        reveal_strlit(")");
        reveal_strlit(",");
    }
    let mut out = String::from_str(schema.name.as_str());
    out.append("(");
    let ghost start = out@;
    let ps = &schema.inputs;
    let mut i: usize = 0;
    while i < ps.len()
        invariant
            i <= ps@.len(),
            ps == &schema.inputs,
            out@ == start + render_list(kinds(ps@), i as int),
            start == schema.name@ + "("@,
        decreases ps@.len() - i,
    {
        if i > 0 {
            out.append(",");
        }
        push_type(&mut out, &ps[i].kind);
        i = i + 1;
        assert(kinds(ps@)[i - 1] == ps@[i - 1].kind);
        assert(out@ =~= start + render_list(kinds(ps@), i as int));
    }
    out.append(")");
    assert(out@ =~= signature_text(*schema));
    out
}

/// The Keccak-256 hash of the event's signature text: the first topic of
/// its logs unless it is anonymous.
pub fn signature_hash(schema: &EventSchema) -> (r: Vec<u8>)
    ensures
        r@ == signature_hash_spec(*schema),
        r@.len() == 32,
{
    let text = signature_string(schema);
    keccak256_text(text.as_str())
}

/// The schema a caller names: the first whose name matches; with an empty
/// name, the first schema of all.
pub fn find_event(schemas: &Vec<EventSchema>, name: &str) -> (r: Result<usize, SchemaError>)
    ensures
        name@.len() == 0 ==> (match r {
            Ok(i) => i == 0 && schemas@.len() > 0,
            Err(e) => e == SchemaError::EmptyAbi && schemas@.len() == 0,
        }),
        name@.len() > 0 ==> (match r {
            Ok(i) => i < schemas@.len() && schemas@[i as int].name@ == name@
                && forall|j: int| 0 <= j < i ==> (#[trigger] schemas@[j]).name@ != name@,
            Err(e) => (e matches SchemaError::EventNotFound(m) && m@ == name@)
                && forall|j: int| 0 <= j < schemas@.len() ==> (#[trigger] schemas@[j]).name@ != name@,
        }),
{
    if name.unicode_len() == 0 {
        if schemas.len() == 0 {
            return Err(SchemaError::EmptyAbi);
        }
        return Ok(0);
    }
    let mut i: usize = 0;
    while i < schemas.len()
        invariant
            i <= schemas@.len(),
            name@.len() > 0,
            forall|j: int| 0 <= j < i ==> (#[trigger] schemas@[j]).name@ != name@,
        decreases schemas@.len() - i,
    {
        if string_eq(&schemas[i].name, name) {
            return Ok(i);
        }
        i = i + 1;
    }
    Err(SchemaError::EventNotFound(String::from_str(name)))
}

pub(crate) fn string_eq(a: &String, b: &str) -> (r: bool)
    ensures
        r == (a@ == b@),
{
    let n = a.as_str().unicode_len();
    if n != b.unicode_len() {
        return false;
    }
    let mut i: usize = 0;
    while i < n
        invariant
            n == a@.len(),
            n == b@.len(),
            i <= n,
            forall|j: int| 0 <= j < i ==> a@[j] == b@[j],
        decreases n - i,
    {
        if a.as_str().get_char(i) != b.get_char(i) {
            return false;
        }
        i = i + 1;
    }
    assert(a@ =~= b@);
    true
}

pub(crate) fn bytes_eq(a: &Vec<u8>, b: &Vec<u8>) -> (r: bool)
    ensures
        r == (a@ == b@),
{
    if a.len() != b.len() {
        return false;
    }
    let mut i: usize = 0;
    while i < a.len()
        invariant
            a@.len() == b@.len(),
            i <= a@.len(),
            forall|j: int| 0 <= j < i ==> a@[j] == b@[j],
        decreases a@.len() - i,
    {
        if a[i] != b[i] {
            return false;
        }
        i = i + 1;
    }
    assert(a@ =~= b@);
    true
}

/// Schemas indexed by signature hash, for choosing a schema by a log's first
/// topic. Where two schemas share a hash the later one wins.
pub struct Registry {
    schemas: Vec<EventSchema>,
    hashes: Vec<Vec<u8>>,
}

/// Whether schema `i` is the one that the topic selects: non-anonymous, with
/// that hash, and no later such schema.
pub open spec fn selects(schemas: Seq<EventSchema>, topic: Seq<u8>, i: int) -> bool {
    &&& 0 <= i < schemas.len()
    &&& !schemas[i].anonymous
    &&& signature_hash_spec(schemas[i]) == topic
    &&& forall|j: int| i < j < schemas.len() ==> !(!(#[trigger] schemas[j]).anonymous && signature_hash_spec(schemas[j]) == topic)
}

impl Registry {
    pub closed spec fn schemas_view(&self) -> Seq<EventSchema> {
        self.schemas@
    }

    pub closed spec fn wf(&self) -> bool {
        &&& self.hashes@.len() == self.schemas@.len()
        &&& forall|i: int| 0 <= i < self.schemas@.len() ==> (#[trigger] self.hashes@[i])@ == signature_hash_spec(self.schemas@[i])
    }

    /// Takes the schemas and hashes each one's signature.
    pub fn new(schemas: Vec<EventSchema>) -> (r: Registry)
        ensures
            r.wf(),
            r.schemas_view() == schemas@,
    {
        let mut hashes: Vec<Vec<u8>> = Vec::new();
        let mut i: usize = 0;
        while i < schemas.len()
            invariant
                i <= schemas@.len(),
                hashes@.len() == i,
                forall|j: int| 0 <= j < i ==> (#[trigger] hashes@[j])@ == signature_hash_spec(schemas@[j]),
            decreases schemas@.len() - i,
        {
            hashes.push(signature_hash(&schemas[i]));
            i = i + 1;
        }
        Registry { schemas, hashes }
    }

    /// The schemas, in load order.
    pub fn schemas(&self) -> (r: &Vec<EventSchema>)
        ensures
            r@ == self.schemas_view(),
    {
        &self.schemas
    }

    /// The index of the schema whose signature hash is `topic0`; the later
    /// one where several share it.
    pub fn lookup(&self, topic0: &Vec<u8>) -> (r: Result<usize, SchemaError>)
        requires
            self.wf(),
        ensures
            match r {
                Ok(i) => selects(self.schemas_view(), topic0@, i as int),
                Err(e) => e == SchemaError::UnknownTopic0
                    && forall|i: int| !selects(self.schemas_view(), topic0@, i),
            },
    {
        let mut i: usize = self.schemas.len();
        while i > 0
            invariant
                i <= self.schemas@.len(),
                self.wf(),
                forall|j: int| i <= j < self.schemas@.len() ==> !(!(#[trigger] self.schemas@[j]).anonymous && signature_hash_spec(self.schemas@[j]) == topic0@),
            decreases i,
        {
            i = i - 1;
            if !self.schemas[i].anonymous && bytes_eq(&self.hashes[i], topic0) {
                return Ok(i);
            }
        }
        Err(SchemaError::UnknownTopic0)
    }

    /// Chooses the schema by the log's first topic, then decodes the log
    /// with it.
    pub fn decode(&self, log: &RawLog) -> (r: Result<(usize, Vec<Value>), LogError>)
        requires
            self.wf(),
            log.wf(),
        ensures
            log.topics@.len() == 0 ==> r == Err::<(usize, Vec<Value>), LogError>(LogError::Decode(DecodeError::TopicCountMismatch)),
            log.topics@.len() > 0 ==> match r {
                Ok((i, vs)) => selects(self.schemas_view(), log.topics@[0]@, i as int)
                    && decode_log_spec(self.schemas_view()[i as int], log.topics@.map_values(|t: Vec<u8>| t@), log.data@)
                        == Ok::<Seq<Decoded>, DecodeError>(models(vs@, vs@.len() as int)),
                Err(LogError::Schema(e)) => e == SchemaError::UnknownTopic0
                    && forall|i: int| !selects(self.schemas_view(), log.topics@[0]@, i),
                Err(LogError::Decode(x)) => exists|i: int| selects(self.schemas_view(), log.topics@[0]@, i)
                    && decode_log_spec(self.schemas_view()[i], log.topics@.map_values(|t: Vec<u8>| t@), log.data@)
                        == Err::<Seq<Decoded>, DecodeError>(x),
            },
    {
        if log.topics.len() == 0 {
            return Err(LogError::Decode(DecodeError::TopicCountMismatch));
        }
        let i = match self.lookup(&log.topics[0]) {
            Ok(i) => i,
            Err(e) => return Err(LogError::Schema(e)),
        };
        match decode_log(&self.schemas[i], log) {
            Ok(vs) => Ok((i, vs)),
            Err(x) => Err(LogError::Decode(x)),
        }
    }
}

/// Two schemas with the same name and parameter types have the same
/// signature hash: the hash depends on nothing else, so building the same
/// ABI twice gives the same hashes.
pub proof fn lemma_signature_hash_stable(a: EventSchema, b: EventSchema)
    requires
        a.name@ == b.name@,
        kinds(a.inputs@) == kinds(b.inputs@),
    ensures
        signature_hash_spec(a) == signature_hash_spec(b),
{
    assert(a.inputs@.len() == kinds(a.inputs@).len());
    assert(b.inputs@.len() == kinds(b.inputs@).len());
}

} // verus!

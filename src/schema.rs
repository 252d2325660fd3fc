//! A JSON document model and the building of event schemas from an ABI.
use vstd::prelude::*;
use vstd::string::*;
use crate::abi_type::{parse_param_type, parse_spec, TypeDescriptor};
use crate::text::{chars_of, has_prefix, range_has_prefix};
use crate::event::{EventParameter, EventSchema};
use crate::abi_type::render_list;
use crate::registry::{kinds, signature_hash_spec, signature_text, string_eq, SchemaError};

verus! {

broadcast use vstd::std_specs::vec::axiom_vec_index_decreases;

/// A JSON value. Object members keep their order.
#[derive(Debug, PartialEq, Eq)]
pub enum Json {
    Null,
    Bool(bool),
    /// A number, as written.
    Number(String),
    Str(String),
    Array(Vec<Json>),
    Object(Vec<(String, Json)>),
}

/// The value of the first member named `key` among `ms[..k]`.
pub open spec fn member(ms: Seq<(String, Json)>, key: Seq<char>, k: int) -> Option<Json>
    decreases k,
{
    if k <= 0 || k > ms.len() {
        None
    } else {
        match member(ms, key, k - 1) {
            Some(v) => Some(v),
            None => if ms[k - 1].0@ == key { Some(ms[k - 1].1) } else { None },
        }
    }
}

/// The member `key` of an object.
pub open spec fn field(v: Json, key: Seq<char>) -> Option<Json> {
    match v {
        Json::Object(ms) => member(ms@, key, ms@.len() as int),
        _ => None,
    }
}

pub open spec fn str_field(v: Json, key: Seq<char>) -> Option<Seq<char>> {
    match field(v, key) {
        Some(Json::Str(s)) => Some(s@),
        _ => None,
    }
}

pub open spec fn bool_field(v: Json, key: Seq<char>) -> Option<bool> {
    match field(v, key) {
        Some(Json::Bool(b)) => Some(b),
        _ => None,
    }
}

pub open spec fn array_field(v: Json, key: Seq<char>) -> Option<Seq<Json>> {
    match field(v, key) {
        Some(Json::Array(a)) => Some(a@),
        _ => None,
    }
}

/// Position of the first member named `key` among `ms[..k]`, or -1.
pub open spec fn member_index(ms: Seq<(String, Json)>, key: Seq<char>, k: int) -> int
    decreases k,
{
    if k <= 0 || k > ms.len() {
        -1
    } else {
        let j = member_index(ms, key, k - 1);
        if j >= 0 {
            j
        } else if ms[k - 1].0@ == key {
            k - 1
        } else {
            -1
        }
    }
}

/// `t` is `shape` with its innermost element type replaced by a tuple of
/// `ks`.
pub open spec fn tuple_shaped(t: TypeDescriptor, shape: TypeDescriptor, ks: Seq<TypeDescriptor>) -> bool
    decreases shape,
{
    match shape {
        TypeDescriptor::Array(e) => t matches TypeDescriptor::Array(te) && tuple_shaped(*te, *e, ks),
        TypeDescriptor::FixedArray(e, n) => t matches TypeDescriptor::FixedArray(te, tn) && tn == n
            && tuple_shaped(*te, *e, ks),
        _ => t matches TypeDescriptor::Tuple(v) && v@ == ks,
    }
}

/// `t` is the type an ABI input declares: its `type` string parsed, or for
/// `tuple` (with any array suffix) a tuple of the types of its
/// `components`, wrapped in that suffix.
pub open spec fn kind_from(t: TypeDescriptor, i: Json) -> bool
    decreases i,
{
    match i {
        Json::Object(ms) => match str_field(i, "type"@) {
            Some(ty) => if has_prefix(ty, "tuple"@) {
                let j = member_index(ms@, "components"@, ms@.len() as int);
                if 0 <= j < ms@.len() {
                    match ms@[j].1 {
                        Json::Array(cs) => match parse_spec("bool"@ + ty.subrange(5, ty.len() as int)) {
                            Some(shape) => exists|ks: Seq<TypeDescriptor>| {
                                &&& ks.len() == cs@.len()
                                &&& forall|k: int| 0 <= k < cs@.len() ==> kind_from(#[trigger] ks[k], cs@[k])
                                &&& tuple_shaped(t, shape, ks)
                            },
                            None => false,
                        },
                        _ => false,
                    }
                } else {
                    false
                }
            } else {
                parse_spec(ty) == Some(t)
            },
            None => false,
        },
        _ => false,
    }
}

/// An input whose type resolves.
pub open spec fn input_ok(i: Json) -> bool {
    exists|t: TypeDescriptor| kind_from(t, i)
}

/// An entry that becomes a schema: `type` is `"event"`, `name` a string,
/// `inputs` an array of inputs whose types resolve.
pub open spec fn is_event_entry(v: Json) -> bool {
    &&& str_field(v, "type"@) == Some("event"@)
    &&& str_field(v, "name"@) is Some
    &&& array_field(v, "inputs"@) matches Some(ins)
    &&& forall|k: int| 0 <= k < ins.len() ==> input_ok(#[trigger] ins[k])
}

/// A parameter built from an input: name and `indexed` default to empty
/// and false.
pub open spec fn param_from(p: EventParameter, i: Json) -> bool {
    &&& p.name@ == (match str_field(i, "name"@) { Some(s) => s, None => Seq::empty() })
    &&& p.indexed == (match bool_field(i, "indexed"@) { Some(b) => b, None => false })
    &&& kind_from(p.kind, i)
}

/// A schema built from an event entry; `anonymous` defaults to false.
pub open spec fn schema_from(s: EventSchema, v: Json) -> bool {
    let ins = array_field(v, "inputs"@)->Some_0;
    &&& s.name@ == str_field(v, "name"@)->Some_0
    &&& s.anonymous == (match bool_field(v, "anonymous"@) { Some(b) => b, None => false })
    &&& s.inputs@.len() == ins.len()
    &&& forall|k: int| 0 <= k < ins.len() ==> param_from(#[trigger] s.inputs@[k], ins[k])
}

/// The event entries among the first `k` entries, in order.
pub open spec fn event_entries(es: Seq<Json>, k: int) -> Seq<Json>
    decreases k,
{
    if k <= 0 || k > es.len() {
        Seq::empty()
    } else if is_event_entry(es[k - 1]) {
        event_entries(es, k - 1).push(es[k - 1])
    } else {
        event_entries(es, k - 1)
    }
}

/// The entry list of an ABI document: the document itself if it is an
/// array, else its `abi` array, else its `events` array.
pub open spec fn abi_entries(doc: Json) -> Option<Seq<Json>> {
    match doc {
        Json::Array(a) => Some(a@),
        Json::Object(_) => match array_field(doc, "abi"@) {
            Some(a) => Some(a),
            None => array_field(doc, "events"@),
        },
        _ => None,
    }
}

/// Two schemas built from the same ABI entry have the same signature
/// hash: building the same ABI twice gives the same dispatch topics.
pub proof fn lemma_rebuilt_schema_same_hash(a: EventSchema, b: EventSchema, v: Json)
    requires
        schema_from(a, v),
        schema_from(b, v),
    ensures
        signature_hash_spec(a) == signature_hash_spec(b),
{
    let ins = array_field(v, "inputs"@)->Some_0;
    let n = a.inputs@.len() as int;
    assert forall|k: int| 0 <= k < n implies (#[trigger] kinds(a.inputs@)[k]).render() == kinds(b.inputs@)[k].render() by {
        assert(param_from(a.inputs@[k], ins[k]));
        assert(param_from(b.inputs@[k], ins[k]));
        lemma_kind_from_render(a.inputs@[k].kind, b.inputs@[k].kind, ins[k]);
    }
    lemma_render_list_eq(kinds(a.inputs@), kinds(b.inputs@), n);
    assert(signature_text(a) == signature_text(b));
}

proof fn lemma_render_list_eq(xs: Seq<TypeDescriptor>, ys: Seq<TypeDescriptor>, k: int)
    requires
        0 <= k <= xs.len(),
        xs.len() == ys.len(),
        forall|i: int| 0 <= i < xs.len() ==> (#[trigger] xs[i]).render() == ys[i].render(),
    ensures
        render_list(xs, k) == render_list(ys, k),
    decreases k,
{
    if k > 1 {
        lemma_render_list_eq(xs, ys, k - 1);
        assert(xs[k - 1].render() == ys[k - 1].render());
    } else if k == 1 {
        assert(xs[0].render() == ys[0].render());
    }
}

proof fn lemma_shaped_render(
    a: TypeDescriptor,
    b: TypeDescriptor,
    shape: TypeDescriptor,
    xs: Seq<TypeDescriptor>,
    ys: Seq<TypeDescriptor>,
)
    requires
        tuple_shaped(a, shape, xs),
        tuple_shaped(b, shape, ys),
        xs.len() == ys.len(),
        forall|i: int| 0 <= i < xs.len() ==> (#[trigger] xs[i]).render() == ys[i].render(),
    ensures
        a.render() == b.render(),
    decreases shape,
{
    match shape {
        TypeDescriptor::Array(e) => {
            lemma_shaped_render(*(a->Array_0), *(b->Array_0), *e, xs, ys);
        },
        TypeDescriptor::FixedArray(e, _) => {
            lemma_shaped_render(*(a->FixedArray_0), *(b->FixedArray_0), *e, xs, ys);
        },
        _ => {
            lemma_render_list_eq(xs, ys, xs.len() as int);
        },
    }
}

/// The type that an input declares is spelled one way only.
proof fn lemma_kind_from_render(a: TypeDescriptor, b: TypeDescriptor, i: Json)
    requires
        kind_from(a, i),
        kind_from(b, i),
    ensures
        a.render() == b.render(),
    decreases i,
{
    match i {
        Json::Object(ms) => {
            let ty = str_field(i, "type"@)->Some_0;
            if has_prefix(ty, "tuple"@) {
                let j = member_index(ms@, "components"@, ms@.len() as int);
                let cs = ms@[j].1->Array_0;
                let shape = parse_spec("bool"@ + ty.subrange(5, ty.len() as int))->Some_0;
                let xs = choose|ks: Seq<TypeDescriptor>| {
                    &&& ks.len() == cs@.len()
                    &&& forall|k: int| 0 <= k < cs@.len() ==> kind_from(#[trigger] ks[k], cs@[k])
                    &&& tuple_shaped(a, shape, ks)
                };
                let ys = choose|ks: Seq<TypeDescriptor>| {
                    &&& ks.len() == cs@.len()
                    &&& forall|k: int| 0 <= k < cs@.len() ==> kind_from(#[trigger] ks[k], cs@[k])
                    &&& tuple_shaped(b, shape, ks)
                };
                assert forall|k: int| 0 <= k < xs.len() implies (#[trigger] xs[k]).render() == ys[k].render() by {
                    lemma_kind_from_render(xs[k], ys[k], cs@[k]);
                }
                lemma_shaped_render(a, b, shape, xs, ys);
            }
        },
        _ => {},
    }
}

proof fn lemma_member_index_found(ms: Seq<(String, Json)>, key: Seq<char>, i: int, k: int)
    requires
        0 <= i < k <= ms.len(),
        member_index(ms, key, i) < 0,
        ms[i].0@ == key,
    ensures
        member_index(ms, key, k) == i,
    decreases k,
{
    if k > i + 1 {
        lemma_member_index_found(ms, key, i, k - 1);
    }
}

fn find_member(ms: &Vec<(String, Json)>, key: &str) -> (r: Option<usize>)
    ensures
        r matches Some(j) ==> j as int == member_index(ms@, key@, ms@.len() as int) && j < ms@.len(),
        r is None ==> member_index(ms@, key@, ms@.len() as int) < 0,
{
    let mut i: usize = 0;
    while i < ms.len()
        invariant
            i <= ms@.len(),
            member_index(ms@, key@, i as int) < 0,
        decreases ms@.len() - i,
    {
        if string_eq(&ms[i].0, key) {
            proof {
                lemma_member_index_found(ms@, key@, i as int, ms@.len() as int);
            }
            return Some(i);
        }
        i = i + 1;
    }
    None
}

fn wrap_shape(shape: TypeDescriptor, items: Vec<TypeDescriptor>) -> (r: TypeDescriptor)
    ensures
        tuple_shaped(r, shape, items@),
    decreases shape,
{
    match shape {
        TypeDescriptor::Array(e) => TypeDescriptor::Array(Box::new(wrap_shape(*e, items))),
        TypeDescriptor::FixedArray(e, n) => TypeDescriptor::FixedArray(Box::new(wrap_shape(*e, items)), n),
        _ => TypeDescriptor::Tuple(items),
    }
}

/// The type an ABI input declares, resolving `tuple` types through their
/// `components`.
pub fn input_kind(i: &Json) -> (r: Option<TypeDescriptor>)
    ensures
        r matches Some(t) ==> kind_from(t, *i),
        r is None ==> forall|t: TypeDescriptor| !kind_from(t, *i),
    decreases i,
{
    proof {
        reveal_strlit("type");
        reveal_strlit("tuple");
        reveal_strlit("components");
        reveal_strlit("bool");
    }
    match i {
        Json::Object(ms) => {
            let ty = match get_str(i, "type") {
                Some(ty) => ty,
                None => return None,
            };
            let chars = chars_of(ty.as_str());
            assert(chars@.subrange(0, chars@.len() as int) =~= ty@);
            if !range_has_prefix(&chars, 0, chars.len(), "tuple") {
                return match parse_param_type(ty.as_str()) {
                    Ok(t) => Some(t),
                    Err(_) => None,
                };
            }
            let j = match find_member(ms, "components") {
                Some(j) => j,
                None => return None,
            };
            let cs = match &ms[j].1 {
                Json::Array(cs) => cs,
                _ => return None,
            };
            let n = ty.as_str().unicode_len();
            let suffix = ty.as_str().substring_char(5, n);
            let text = String::from_str("bool").concat(suffix);
            let shape = match parse_param_type(text.as_str()) {
                Ok(shape) => shape,
                Err(_) => return None,
            };
            let mut ks: Vec<TypeDescriptor> = Vec::new();
            let mut k: usize = 0;
            #[verifier::loop_isolation(false)]
            while k < cs.len()
                invariant
                    k <= cs@.len(),
                    ks@.len() == k,
                    forall|m: int| 0 <= m < k ==> kind_from(#[trigger] ks@[m], cs@[m]),
                decreases cs@.len() - k,
            {
                proof {
                    assert(decreases_to!(ms@[j as int] => ms@[j as int].1));
                    assert(decreases_to!(*ms => ms@[j as int]));
                    assert(decreases_to!(*i => *ms));
                    assert(decreases_to!(*cs => cs@[k as int]));
                }
                match input_kind(&cs[k]) {
                    Some(t) => ks.push(t),
                    None => {
                        assert forall|t: TypeDescriptor| !kind_from(t, *i) by {
                            if kind_from(t, *i) {
                                let w = choose|w: Seq<TypeDescriptor>| {
                                    &&& w.len() == cs@.len()
                                    &&& forall|m: int| 0 <= m < cs@.len() ==> kind_from(#[trigger] w[m], cs@[m])
                                    &&& tuple_shaped(t, shape, w)
                                };
                                assert(kind_from(w[k as int], cs@[k as int]));
                            }
                        }
                        return None;
                    },
                }
                k = k + 1;
            }
            let t = wrap_shape(shape, ks);
            Some(t)
        },
        _ => None,
    }
}

/// The member named `key`, the first if several are.
pub fn get_field<'a>(v: &'a Json, key: &str) -> (r: Option<&'a Json>)
    ensures
        r matches Some(j) ==> field(*v, key@) == Some(*j),
        r is None ==> field(*v, key@) is None,
{
    match v {
        Json::Object(ms) => {
            let mut i: usize = 0;
            #[verifier::loop_isolation(false)]
            while i < ms.len()
                invariant
                    i <= ms@.len(),
                    member(ms@, key@, i as int) is None,
                decreases ms@.len() - i,
            {
                if string_eq(&ms[i].0, key) {
                    proof {
                        lemma_member_found(ms@, key@, i as int, ms@.len() as int);
                    }
                    return Some(&ms[i].1);
                }
                i = i + 1;
            }
            None
        },
        _ => None,
    }
}

proof fn lemma_member_found(ms: Seq<(String, Json)>, key: Seq<char>, i: int, k: int)
    requires
        0 <= i < k <= ms.len(),
        member(ms, key, i) is None,
        ms[i].0@ == key,
    ensures
        member(ms, key, k) == Some(ms[i].1),
    decreases k,
{
    if k > i + 1 {
        lemma_member_found(ms, key, i, k - 1);
    }
}

fn get_str<'a>(v: &'a Json, key: &str) -> (r: Option<&'a String>)
    ensures
        r matches Some(s) ==> str_field(*v, key@) == Some(s@),
        r is None ==> str_field(*v, key@) is None,
{
    match get_field(v, key) {
        Some(Json::Str(s)) => Some(s),
        _ => None,
    }
}

fn get_bool(v: &Json, key: &str) -> (r: Option<bool>)
    ensures
        r == bool_field(*v, key@),
{
    match get_field(v, key) {
        Some(Json::Bool(b)) => Some(*b),
        _ => None,
    }
}

fn get_array<'a>(v: &'a Json, key: &str) -> (r: Option<&'a Vec<Json>>)
    ensures
        r matches Some(a) ==> array_field(*v, key@) == Some(a@),
        r is None ==> array_field(*v, key@) is None,
{
    match get_field(v, key) {
        Some(Json::Array(a)) => Some(a),
        _ => None,
    }
}

/// Builds the schema of an ABI entry, if the entry is an event whose
/// parameter types all parse.
pub fn parse_event_from_value(v: &Json) -> (r: Option<EventSchema>)
    ensures
        r is Some <==> is_event_entry(*v),
        r matches Some(s) ==> schema_from(s, *v),
{
    proof {
        reveal_strlit("type");
        reveal_strlit("event");
        reveal_strlit("name");
        reveal_strlit("inputs");
        reveal_strlit("indexed");
        reveal_strlit("anonymous");
    }
    match get_str(v, "type") {
        Some(t) => {
            if !string_eq(t, "event") {
                return None;
            }
        },
        None => return None,
    }
    let name = match get_str(v, "name") {
        Some(n) => n,
        None => return None,
    };
    let ins = match get_array(v, "inputs") {
        Some(a) => a,
        None => return None,
    };
    let mut inputs: Vec<EventParameter> = Vec::new();
    let mut k: usize = 0;
    #[verifier::loop_isolation(false)]
    while k < ins.len()
        invariant
            k <= ins@.len(),
            inputs@.len() == k,
            forall|j: int| 0 <= j < k ==> input_ok(#[trigger] ins@[j]),
            forall|j: int| 0 <= j < k ==> param_from(#[trigger] inputs@[j], ins@[j]),
        decreases ins@.len() - k,
    {
        let i = &ins[k];
        let kind = match input_kind(i) {
            Some(kind) => kind,
            None => {
                assert(!input_ok(ins@[k as int]));
                assert(!is_event_entry(*v)) by {
                    let es = array_field(*v, "inputs"@)->Some_0;
                    assert(es == ins@);
                    assert(!input_ok(es[k as int]));
                }
                return None;
            },
        };
        let pname = match get_str(i, "name") {
            Some(s) => String::from_str(s.as_str()),
            None => String::new(),
        };
        let indexed = match get_bool(i, "indexed") {
            Some(b) => b,
            None => false,
        };
        inputs.push(EventParameter { name: pname, kind, indexed });
        k = k + 1;
    }
    let anonymous = match get_bool(v, "anonymous") {
        Some(b) => b,
        None => false,
    };
    Some(EventSchema { name: String::from_str(name.as_str()), inputs, anonymous })
}

/// Builds a schema for every event entry of an ABI document, in order,
/// leaving out entries that are not events or whose types do not parse.
pub fn build_schemas(doc: &Json) -> (r: Result<Vec<EventSchema>, SchemaError>)
    ensures
        r is Ok <==> abi_entries(*doc) is Some,
        r matches Err(e) ==> e == SchemaError::UnsupportedStructure,
        r matches Ok(ss) ==> ({
            let es = abi_entries(*doc)->Some_0;
            let evs = event_entries(es, es.len() as int);
            &&& ss@.len() == evs.len()
            &&& forall|k: int| 0 <= k < evs.len() ==> schema_from(#[trigger] ss@[k], evs[k])
        }),
{
    proof {
        reveal_strlit("abi");
        reveal_strlit("events");
    }
    let es: &Vec<Json> = match doc {
        Json::Array(a) => a,
        Json::Object(_) => match get_array(doc, "abi") {
            Some(a) => a,
            None => match get_array(doc, "events") {
                Some(a) => a,
                None => return Err(SchemaError::UnsupportedStructure),
            },
        },
        _ => return Err(SchemaError::UnsupportedStructure),
    };
    let ghost entries = es@;
    assert(abi_entries(*doc) == Some(entries));
    let mut out: Vec<EventSchema> = Vec::new();
    let mut i: usize = 0;
    while i < es.len()
        invariant
            i <= es@.len(),
            entries == es@,
            out@.len() == event_entries(es@, i as int).len(),
            forall|k: int| 0 <= k < out@.len() ==> schema_from(#[trigger] out@[k], event_entries(es@, i as int)[k]),
        decreases es@.len() - i,
    {
        match parse_event_from_value(&es[i]) {
            Some(s) => {
                out.push(s);
            },
            None => {},
        }
        i = i + 1;
        assert(forall|k: int| 0 <= k < out@.len() ==> schema_from(#[trigger] out@[k], event_entries(es@, i as int)[k]));
    }
    Ok(out)
}

} // verus!

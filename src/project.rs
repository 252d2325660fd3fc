//! The JSON form of decoded values.
use vstd::prelude::*;
use vstd::string::*;
use vstd::arithmetic::power2::pow2;
use crate::event::EventSchema;
use crate::hexcodec::{prefixed_hex, to_prefixed_hex};
use crate::schema::Json;
use crate::text::decimal;
use crate::value::{be_nat, models, Decoded, Value};

verus! {

/// The magnitude of a 256-bit word read as a negative two's-complement
/// number.
pub open spec fn neg_mod(n: nat) -> nat {
    if n == 0 {
        0
    } else {
        (pow2(256) - n) as nat
    }
}

/// A 256-bit two's-complement word in decimal, with a leading `-` when the
/// top bit is set.
pub open spec fn signed_decimal(w: Seq<u8>) -> Seq<char> {
    if w[0] >= 128 {
        seq!['-'] + decimal(neg_mod(be_nat(w)))
    } else {
        decimal(be_nat(w))
    }
}

/// `j` is the JSON form of `d`: addresses and byte strings as `0x` and
/// lower-case hex, integers as decimal strings, text as is, lists and
/// tuples as arrays. An integer that is not a 256-bit word (which the
/// decoder never yields) becomes `null`.
pub open spec fn projects(j: Json, d: Decoded) -> bool
    decreases j,
{
    match d {
        Decoded::Address(b) => j matches Json::Str(s) && s@ == prefixed_hex(b),
        Decoded::Bool(b) => j == Json::Bool(b),
        Decoded::Str(t) => j matches Json::Str(s) && s@ == t,
        Decoded::Bytes(b) => j matches Json::Str(s) && s@ == prefixed_hex(b),
        Decoded::FixedBytes(b) => j matches Json::Str(s) && s@ == prefixed_hex(b),
        Decoded::Uint(w) => if w.len() <= 32 {
            j matches Json::Str(s) && s@ == decimal(be_nat(w))
        } else {
            j == Json::Null
        },
        Decoded::Int(w) => if w.len() == 32 {
            j matches Json::Str(s) && s@ == signed_decimal(w)
        } else {
            j == Json::Null
        },
        Decoded::List(ds) => projects_all(j, ds),
        Decoded::Tuple(ds) => projects_all(j, ds),
    }
}

pub open spec fn projects_all(j: Json, ds: Seq<Decoded>) -> bool
    decreases j, 0nat,
{
    match j {
        Json::Array(js) => js@.len() == ds.len()
            && forall|i: int| 0 <= i < ds.len() ==> projects(#[trigger] js@[i], ds[i]),
        _ => false,
    }
}

/// Relies on ethereum_types::U256: `from_big_endian` reads up to 32 bytes
/// as a number, and its `Display` writes it in decimal without leading
/// zeros.
#[verifier::external_body]
fn decimal_of_word(w: &[u8]) -> (r: String)
    requires
        w@.len() <= 32,
    ensures
        r@ == decimal(be_nat(w@)),
{
    ethereum_types::U256::from_big_endian(w).to_string()
}

/// Relies on ethereum_types::U256::overflowing_neg: the two's-complement
/// negation of a 256-bit number (zero stays zero), written in decimal by
/// U256's `Display`.
#[verifier::external_body]
fn decimal_of_negated_word(w: &[u8]) -> (r: String)
    requires
        w@.len() == 32,
    ensures
        r@ == decimal(neg_mod(be_nat(w@))),
{
    ethereum_types::U256::from_big_endian(w).overflowing_neg().0.to_string()
}

proof fn lemma_models_index(vs: Seq<Value>, k: int, i: int)
    requires
        0 <= i < k <= vs.len(),
    ensures
        models(vs, k).len() == k,
        models(vs, k)[i] == vs[i].model(),
    decreases k,
{
    lemma_models_len(vs, k - 1);
    if i < k - 1 {
        lemma_models_index(vs, k - 1, i);
    }
}

proof fn lemma_models_len(vs: Seq<Value>, k: int)
    requires
        0 <= k <= vs.len(),
    ensures
        models(vs, k).len() == k,
    decreases k,
{
    if k > 0 {
        lemma_models_len(vs, k - 1);
    }
}

/// The JSON form of one decoded value.
pub fn token_to_json(v: &Value) -> (r: Json)
    ensures
        projects(r, v.model()),
    decreases v,
{
    match v {
        Value::Address(b) => Json::Str(to_prefixed_hex(b.as_slice())),
        Value::Bool(b) => Json::Bool(*b),
        Value::Str(s) => Json::Str(String::from_str(s.as_str())),
        Value::Bytes(b) => Json::Str(to_prefixed_hex(b.as_slice())),
        Value::FixedBytes(b) => Json::Str(to_prefixed_hex(b.as_slice())),
        Value::Uint(w) => {
            if w.len() <= 32 {
                Json::Str(decimal_of_word(w.as_slice()))
            } else {
                Json::Null
            }
        },
        Value::Int(w) => {
            if w.len() == 32 {
                if w[0] >= 128 {
                    proof {
                        reveal_strlit("-");
                    }
                    let s = String::from_str("-").concat(decimal_of_negated_word(w.as_slice()).as_str());
                    assert(s@ =~= signed_decimal(w@));
                    Json::Str(s)
                } else {
                    Json::Str(decimal_of_word(w.as_slice()))
                }
            } else {
                Json::Null
            }
        },
        Value::List(vs) => Json::Array(project_list(vs)),
        Value::Tuple(vs) => Json::Array(project_list(vs)),
    }
}

fn project_list(vs: &Vec<Value>) -> (r: Vec<Json>)
    ensures
        projects_all(Json::Array(r), models(vs@, vs@.len() as int)),
    decreases vs, 0nat,
{
    let mut out: Vec<Json> = Vec::new();
    let mut i: usize = 0;
    proof {
        lemma_models_len(vs@, vs@.len() as int);
    }
    #[verifier::loop_isolation(false)]
    while i < vs.len()
        invariant
            i <= vs@.len(),
            out@.len() == i,
            forall|k: int| 0 <= k < i ==> projects(#[trigger] out@[k], vs@[k].model()),
        decreases vs@.len() - i,
    {
        out.push(token_to_json(&vs[i]));
        i = i + 1;
    }
    proof {
        assert forall|k: int| 0 <= k < vs@.len() implies projects(#[trigger] out@[k], models(vs@, vs@.len() as int)[k]) by {
            lemma_models_index(vs@, vs@.len() as int, k);
        }
    }
    out
}

/// The key of parameter `i`: its name, or `argN` with its position where
/// the ABI gave none.
pub open spec fn key_for(name: Seq<char>, i: nat) -> Seq<char> {
    if name.len() == 0 {
        "arg"@ + decimal(i)
    } else {
        name
    }
}

/// The name of parameter `i` of the schema, empty past its end.
pub open spec fn param_name(s: EventSchema, i: int) -> Seq<char> {
    if 0 <= i < s.inputs@.len() {
        s.inputs@[i].name@
    } else {
        Seq::empty()
    }
}

/// The JSON object of a decoded log: one member per value, keyed by the
/// parameter's name (or `argN`), in declaration order.
pub fn tokens_to_json(schema: &EventSchema, values: &Vec<Value>) -> (r: Json)
    ensures
        r matches Json::Object(ms) && ms@.len() == values@.len()
            && forall|i: int| 0 <= i < values@.len() ==> {
                &&& (#[trigger] ms@[i]).0@ == key_for(param_name(*schema, i), i as nat)
                &&& projects(ms@[i].1, values@[i].model())
            },
{
    let mut ms: Vec<(String, Json)> = Vec::new();
    let mut i: usize = 0;
    while i < values.len()
        invariant
            i <= values@.len(),
            ms@.len() == i,
            forall|k: int| 0 <= k < i ==> {
                &&& (#[trigger] ms@[k]).0@ == key_for(param_name(*schema, k), k as nat)
                &&& projects(ms@[k].1, values@[k].model())
            },
        decreases values@.len() - i,
    {
        let key = if i < schema.inputs.len() && schema.inputs[i].name.as_str().unicode_len() > 0 {
            String::from_str(schema.inputs[i].name.as_str())
        } else {
            proof {
                reveal_strlit("arg");
            }
            let mut k = String::from_str("arg");
            crate::registry::push_decimal(&mut k, i);
            k
        };
        ms.push((key, token_to_json(&values[i])));
        i = i + 1;
    }
    Json::Object(ms)
}

} // verus!

//! ABI type descriptors: their canonical spelling and the parser for it.
use vstd::prelude::*;
use vstd::string::*;
use crate::text::{all_digits, lemma_decimal, chars_of, decimal, digits_value, has_prefix, range_equals, range_has_prefix, read_decimal};

verus! {

/// The type of one ABI value.
#[derive(Debug, PartialEq, Eq)]
pub enum TypeDescriptor {
    Address,
    Bool,
    String,
    Bytes,
    /// `bytesN`, with N in 1..=32.
    FixedBytes(usize),
    /// `uintN`, with N a multiple of 8 in 8..=256.
    Uint(usize),
    /// `intN`, with N a multiple of 8 in 8..=256.
    Int(usize),
    /// `T[]`
    Array(Box<TypeDescriptor>),
    /// `T[N]`
    FixedArray(Box<TypeDescriptor>, usize),
    /// `(T1,T2,...)`
    Tuple(Vec<TypeDescriptor>),
}

/// Why a type string was refused.
#[derive(Debug, Clone, PartialEq, Eq)]
pub enum ParseError {
    UnknownType(String),
}

pub open spec fn valid_bits(b: nat) -> bool {
    8 <= b <= 256 && b % 8 == 0
}

impl TypeDescriptor {
    /// Widths and lengths are in range, all the way down.
    pub open spec fn wf(&self) -> bool
        decreases self,
    {
        match self {
            TypeDescriptor::FixedBytes(n) => 1 <= *n <= 32,
            TypeDescriptor::Uint(b) => valid_bits(*b as nat),
            TypeDescriptor::Int(b) => valid_bits(*b as nat),
            TypeDescriptor::Array(e) => e.wf(),
            TypeDescriptor::FixedArray(e, _) => e.wf(),
            TypeDescriptor::Tuple(cs) => forall|i: int| 0 <= i < cs.len() ==> (#[trigger] cs[i]).wf(),
            _ => true,
        }
    }

    /// Built from the spellable primitives and array suffixes only.
    pub open spec fn tuple_free(&self) -> bool
        decreases self,
    {
        match self {
            TypeDescriptor::Array(e) => e.tuple_free(),
            TypeDescriptor::FixedArray(e, _) => e.tuple_free(),
            TypeDescriptor::Tuple(_) => false,
            _ => true,
        }
    }

    /// Its encoded size is not fixed: `string`, `bytes`, `T[]`, or an
    /// aggregate with such a part.
    pub open spec fn is_dynamic(&self) -> bool
        decreases self,
    {
        match self {
            TypeDescriptor::String => true,
            TypeDescriptor::Bytes => true,
            TypeDescriptor::Array(_) => true,
            TypeDescriptor::FixedArray(e, _) => e.is_dynamic(),
            TypeDescriptor::Tuple(cs) => exists|i: int| 0 <= i < cs.len() && (#[trigger] cs[i]).is_dynamic(),
            _ => false,
        }
    }

    /// The canonical spelling, as it stands in an event signature.
    pub open spec fn render(&self) -> Seq<char>
        decreases self, 0nat,
    {
        match self {
            TypeDescriptor::Address => "address"@,
            TypeDescriptor::Bool => "bool"@,
            TypeDescriptor::String => "string"@,
            TypeDescriptor::Bytes => "bytes"@,
            TypeDescriptor::FixedBytes(n) => "bytes"@ + decimal(*n as nat),
            TypeDescriptor::Uint(b) => "uint"@ + decimal(*b as nat),
            TypeDescriptor::Int(b) => "int"@ + decimal(*b as nat),
            TypeDescriptor::Array(e) => e.render() + "[]"@,
            TypeDescriptor::FixedArray(e, n) => e.render() + "["@ + decimal(*n as nat) + "]"@,
            TypeDescriptor::Tuple(cs) => "("@ + render_list(cs@, cs@.len() as int) + ")"@,
        }
    }
}

/// The spellings of the first `k` types, separated by commas.
pub open spec fn render_list(cs: Seq<TypeDescriptor>, k: int) -> Seq<char>
    decreases cs, k,
{
    if k <= 0 || k > cs.len() {
        Seq::empty()
    } else if k == 1 {
        cs[0].render()
    } else {
        render_list(cs, k - 1) + ","@ + cs[k - 1].render()
    }
}

/// Position of the last `[` before position `i`, or -1.
pub open spec fn rfind_open(s: Seq<char>, i: int) -> int
    decreases i,
{
    if i <= 0 {
        -1
    } else if s[i - 1] == '[' {
        i - 1
    } else {
        rfind_open(s, i - 1)
    }
}

/// A width or length given after a base name: present, all digits, in range.
pub open spec fn sized(r: Seq<char>, lo: nat, hi: nat) -> bool {
    r.len() > 0 && all_digits(r) && lo <= digits_value(r) <= hi
}

/// The descriptor that a spelling without array suffix names, if any.
pub open spec fn parse_base(s: Seq<char>) -> Option<TypeDescriptor> {
    if s == "address"@ {
        Some(TypeDescriptor::Address)
    } else if s == "bool"@ {
        Some(TypeDescriptor::Bool)
    } else if s == "string"@ {
        Some(TypeDescriptor::String)
    } else if s == "bytes"@ {
        Some(TypeDescriptor::Bytes)
    } else if has_prefix(s, "bytes"@) {
        let r = s.subrange(5, s.len() as int);
        if sized(r, 1, 32) {
            Some(TypeDescriptor::FixedBytes(digits_value(r) as usize))
        } else {
            None
        }
    } else if has_prefix(s, "uint"@) {
        let r = s.subrange(4, s.len() as int);
        if r.len() == 0 {
            Some(TypeDescriptor::Uint(256))
        } else if sized(r, 8, 256) && digits_value(r) % 8 == 0 {
            Some(TypeDescriptor::Uint(digits_value(r) as usize))
        } else {
            None
        }
    } else if has_prefix(s, "int"@) {
        let r = s.subrange(3, s.len() as int);
        if r.len() == 0 {
            Some(TypeDescriptor::Int(256))
        } else if sized(r, 8, 256) && digits_value(r) % 8 == 0 {
            Some(TypeDescriptor::Int(digits_value(r) as usize))
        } else {
            None
        }
    } else {
        None
    }
}

/// The descriptor that a type string names: the rightmost `[]` or `[N]` is
/// peeled first, then the rest is read the same way.
pub open spec fn parse_spec(s: Seq<char>) -> Option<TypeDescriptor>
    decreases s.len(),
{
    if s.len() > 0 && s.last() == ']' {
        let k = rfind_open(s, s.len() - 1);
        if k < 0 || k >= s.len() {
            None
        } else {
            let idx = s.subrange(k + 1, s.len() - 1);
            match parse_spec(s.subrange(0, k)) {
                None => None,
                Some(e) => if idx.len() == 0 {
                    Some(TypeDescriptor::Array(Box::new(e)))
                } else if sized(idx, 0, usize::MAX as nat) {
                    Some(TypeDescriptor::FixedArray(Box::new(e), digits_value(idx) as usize))
                } else {
                    None
                },
            }
        }
    } else {
        parse_base(s)
    }
}

proof fn lemma_rfind_open_at(s: Seq<char>, i: int, k: int)
    requires
        0 <= k < i <= s.len(),
        s[k] == '[',
        forall|j: int| k < j < i ==> s[j] != '[',
    ensures
        rfind_open(s, i) == k,
    decreases i,
{
    if i - 1 > k {
        lemma_rfind_open_at(s, i - 1, k);
    }
}

proof fn lemma_parse_base_render(t: TypeDescriptor)
    requires
        t.wf(),
        !(t is Array),
        !(t is FixedArray),
        !(t is Tuple),
    ensures
        parse_base(t.render()) == Some(t),
        t.render().len() > 0,
        t.render().last() != ']',
{
    reveal_strlit("address");
    reveal_strlit("bool");
    reveal_strlit("string");
    reveal_strlit("bytes");
    reveal_strlit("uint");
    reveal_strlit("int");
    let s = t.render();
    match t {
        TypeDescriptor::FixedBytes(n) => {
            lemma_decimal(n as nat);
            assert(s[0] == 'b' && s[1] == 'y' && s.len() > 5);
            assert(s != "address"@ && s != "bool"@ && s != "string"@);
            assert(s.subrange(0, 5) =~= "bytes"@);
            assert(s.subrange(5, s.len() as int) =~= decimal(n as nat));
            assert(is_digit_at(s, s.len() - 1));
        },
        TypeDescriptor::Uint(b) => {
            lemma_decimal(b as nat);
            assert(s[0] == 'u');
            assert(s != "address"@ && s != "bool"@ && s != "string"@ && s != "bytes"@);
            assert(!has_prefix(s, "bytes"@)) by {
                if s.len() >= 5 {
                    assert(s.subrange(0, 5)[0] == 'u');
                }
            }
            assert(s.subrange(0, 4) =~= "uint"@);
            assert(s.subrange(4, s.len() as int) =~= decimal(b as nat));
            assert(is_digit_at(s, s.len() - 1));
        },
        TypeDescriptor::Int(b) => {
            lemma_decimal(b as nat);
            assert(s[0] == 'i');
            assert(s != "address"@ && s != "bool"@ && s != "string"@ && s != "bytes"@);
            assert(!has_prefix(s, "bytes"@)) by {
                if s.len() >= 5 {
                    assert(s.subrange(0, 5)[0] == 'i');
                }
            }
            assert(!has_prefix(s, "uint"@)) by {
                if s.len() >= 4 {
                    assert(s.subrange(0, 4)[0] == 'i');
                }
            }
            assert(s.subrange(0, 3) =~= "int"@);
            assert(s.subrange(3, s.len() as int) =~= decimal(b as nat));
            assert(is_digit_at(s, s.len() - 1));
        },
        _ => {},
    }
}

spec fn is_digit_at(s: Seq<char>, i: int) -> bool {
    '0' <= s[i] && s[i] <= '9'
}

/// Reading back the canonical spelling of a well-formed descriptor made of
/// primitives and array suffixes gives that descriptor again.
pub proof fn lemma_parse_render_round_trip(t: TypeDescriptor)
    requires
        t.wf(),
        t.tuple_free(),
    ensures
        parse_spec(t.render()) == Some(t),
    decreases t,
{
    reveal_strlit("[]");
    reveal_strlit("[");
    reveal_strlit("]");
    let s = t.render();
    match t {
        TypeDescriptor::Array(e) => {
            lemma_parse_render_round_trip(*e);
            let n = s.len() as int;
            assert(s[n - 1] == ']' && s[n - 2] == '[');
            lemma_rfind_open_at(s, n - 1, n - 2);
            assert(s.subrange(0, n - 2) =~= e.render());
            assert(s.subrange(n - 1, n - 1).len() == 0);
        },
        TypeDescriptor::FixedArray(e, m) => {
            lemma_parse_render_round_trip(*e);
            lemma_decimal(m as nat);
            let n = s.len() as int;
            let k = e.render().len() as int;
            let d = decimal(m as nat);
            assert(s[k] == '[' && s[n - 1] == ']');
            assert forall|j: int| k < j < n - 1 implies s[j] != '[' by {
                assert(s[j] == d[j - k - 1]);
                assert(crate::text::is_digit(d[j - k - 1]));
            }
            lemma_rfind_open_at(s, n - 1, k);
            assert(s.subrange(0, k) =~= e.render());
            assert(s.subrange(k + 1, n - 1) =~= d);
        },
        TypeDescriptor::Tuple(_) => {},
        _ => {
            lemma_parse_base_render(t);
        },
    }
}

fn parse_base_range(cs: &Vec<char>, lo: usize, hi: usize) -> (r: Option<TypeDescriptor>)
    requires
        lo <= hi <= cs@.len(),
    ensures
        r == parse_base(cs@.subrange(lo as int, hi as int)),
{
    let ghost s = cs@.subrange(lo as int, hi as int);
    proof {
        reveal_strlit("address");
        reveal_strlit("bool");
        reveal_strlit("string");
        reveal_strlit("bytes");
        reveal_strlit("uint");
        reveal_strlit("int");
    }
    if range_equals(cs, lo, hi, "address") {
        Some(TypeDescriptor::Address)
    } else if range_equals(cs, lo, hi, "bool") {
        Some(TypeDescriptor::Bool)
    } else if range_equals(cs, lo, hi, "string") {
        Some(TypeDescriptor::String)
    } else if range_equals(cs, lo, hi, "bytes") {
        Some(TypeDescriptor::Bytes)
    } else if range_has_prefix(cs, lo, hi, "bytes") {
        assert(cs@.subrange(lo + 5, hi as int) =~= s.subrange(5, s.len() as int));
        match read_decimal(cs, lo + 5, hi) {
            Some(n) => if 1 <= n && n <= 32 {
                Some(TypeDescriptor::FixedBytes(n))
            } else {
                None
            },
            None => None,
        }
    } else if range_has_prefix(cs, lo, hi, "uint") {
        assert(cs@.subrange(lo + 4, hi as int) =~= s.subrange(4, s.len() as int));
        if lo + 4 == hi {
            Some(TypeDescriptor::Uint(256))
        } else {
            match read_decimal(cs, lo + 4, hi) {
                Some(n) => if 8 <= n && n <= 256 && n % 8 == 0 {
                    Some(TypeDescriptor::Uint(n))
                } else {
                    None
                },
                None => None,
            }
        }
    } else if range_has_prefix(cs, lo, hi, "int") {
        assert(cs@.subrange(lo + 3, hi as int) =~= s.subrange(3, s.len() as int));
        if lo + 3 == hi {
            Some(TypeDescriptor::Int(256))
        } else {
            match read_decimal(cs, lo + 3, hi) {
                Some(n) => if 8 <= n && n <= 256 && n % 8 == 0 {
                    Some(TypeDescriptor::Int(n))
                } else {
                    None
                },
                None => None,
            }
        }
    } else {
        None
    }
}

fn rfind_open_range(cs: &Vec<char>, lo: usize, i: usize) -> (r: Option<usize>)
    requires
        lo <= i <= cs@.len(),
    ensures
        rfind_open(cs@.subrange(lo as int, cs@.len() as int), i - lo) < 0 <==> r.is_none(),
        r matches Some(k) ==> lo <= k < i && k - lo == rfind_open(
            cs@.subrange(lo as int, cs@.len() as int),
            i - lo,
        ),
    decreases i - lo,
{
    let ghost s = cs@.subrange(lo as int, cs@.len() as int);
    if i == lo {
        None
    } else if cs[i - 1] == '[' {
        assert(s[i - 1 - lo] == cs@[i - 1]);
        Some(i - 1)
    } else {
        assert(s[i - 1 - lo] == cs@[i - 1]);
        rfind_open_range(cs, lo, i - 1)
    }
}

proof fn lemma_rfind_open_prefix(s: Seq<char>, t: Seq<char>, i: int)
    requires
        0 <= i <= t.len() <= s.len(),
        t == s.subrange(0, t.len() as int),
    ensures
        rfind_open(t, i) == rfind_open(s, i),
    decreases i,
{
    if i > 0 {
        assert(t[i - 1] == s[i - 1]);
        lemma_rfind_open_prefix(s, t, i - 1);
    }
}

fn parse_range(cs: &Vec<char>, lo: usize, hi: usize) -> (r: Option<TypeDescriptor>)
    requires
        lo <= hi <= cs@.len(),
    ensures
        r == parse_spec(cs@.subrange(lo as int, hi as int)),
    decreases hi - lo,
{
    let ghost s = cs@.subrange(lo as int, hi as int);
    if hi > lo && cs[hi - 1] == ']' {
        assert(s.last() == cs@[hi - 1]);
        let found = rfind_open_range(cs, lo, hi - 1);
        proof {
            assert(s =~= cs@.subrange(lo as int, cs@.len() as int).subrange(0, s.len() as int));
            lemma_rfind_open_prefix(cs@.subrange(lo as int, cs@.len() as int), s, s.len() - 1);
        }
        match found {
            None => None,
            Some(k) => {
                assert(s.subrange(0, k - lo) =~= cs@.subrange(lo as int, k as int));
                assert(s.subrange(k + 1 - lo, s.len() - 1) =~= cs@.subrange(k + 1, hi - 1));
                match parse_range(cs, lo, k) {
                    None => None,
                    Some(e) => if k + 1 == hi - 1 {
                        Some(TypeDescriptor::Array(Box::new(e)))
                    } else {
                        match read_decimal(cs, k + 1, hi - 1) {
                            Some(n) => Some(TypeDescriptor::FixedArray(Box::new(e), n)),
                            None => None,
                        }
                    },
                }
            },
        }
    } else {
        parse_base_range(cs, lo, hi)
    }
}

/// Reads an ABI type string such as `uint256`, `bytes32`, `address[]` or
/// `uint8[][3]`.
pub fn parse_param_type(s: &str) -> (r: Result<TypeDescriptor, ParseError>)
    ensures
        r is Ok <==> parse_spec(s@) is Some,
        r matches Ok(t) ==> parse_spec(s@) == Some(t),
        r matches Err(ParseError::UnknownType(m)) ==> m@ == s@,
{
    let cs = chars_of(s);
    assert(cs@.subrange(0, cs@.len() as int) =~= s@);
    match parse_range(&cs, 0, cs.len()) {
        Some(t) => Ok(t),
        None => Err(ParseError::UnknownType(String::from_str(s))),
    }
}

} // verus!

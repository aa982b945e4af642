use vstd::prelude::*;

verus! {

/// The 2-bit top-level type tag of every encoded object.
#[derive(Clone, Copy, Debug, PartialEq, Eq, Structural)]
pub enum ValueClass {
    String,
    Bytes,
    Collection,
    Fixed,
}

impl ValueClass {
    /// The 2-bit wire code of this class.
    pub fn code(self) -> (r: u8)
        ensures
            r == self.code_spec(),
    {
        match self {
            ValueClass::String => 0,
            ValueClass::Bytes => 1,
            ValueClass::Collection => 2,
            ValueClass::Fixed => 3,
        }
    }

    pub open spec fn code_spec(self) -> u8 {
        match self {
            ValueClass::String => 0,
            ValueClass::Bytes => 1,
            ValueClass::Collection => 2,
            ValueClass::Fixed => 3,
        }
    }

    /// The class named by a 2-bit wire code.
    pub fn from_code(code: u8) -> (r: ValueClass)
        requires
            code < 4,
        ensures
            r.code_spec() == code,
    {
        if code == 0 {
            ValueClass::String
        } else if code == 1 {
            ValueClass::Bytes
        } else if code == 2 {
            ValueClass::Collection
        } else {
            ValueClass::Fixed
        }
    }
}

/// A value tree. Strings carry their UTF-8 bytes; floats carry their IEEE-754
/// bit patterns, so that the codec is a pure function on bytes and integers.
#[derive(Debug, PartialEq)]
pub enum Value {
    String(Vec<u8>),
    Bytes(Vec<u8>),
    Dict(Vec<(Object, Object)>),
    List(Vec<Object>),
    Bool(bool),
    SInt(i128),
    UInt(u128),
    Float32(u32),
    Float64(u64),
    Null,
    Timestamp32(u32),
    UserDefined { id: u8, data: Vec<u8> },
}

/// A node of a value tree.
#[derive(Debug, PartialEq)]
pub struct Object {
    pub value: Value,
}

/// The mathematical model of a value tree.
pub enum SpecVal {
    Str(Seq<u8>),
    Bytes(Seq<u8>),
    Dict(Seq<(SpecVal, SpecVal)>),
    List(Seq<SpecVal>),
    Bool(bool),
    SInt(i128),
    UInt(u128),
    Float32(u32),
    Float64(u64),
    Null,
    Timestamp32(u32),
    UserDefined(u8, Seq<u8>),
}

impl Value {
    pub open spec fn deep_view(self) -> SpecVal
        decreases self,
    {
        match self {
            Value::String(s) => SpecVal::Str(s@),
            Value::Bytes(b) => SpecVal::Bytes(b@),
            Value::Dict(ps) => SpecVal::Dict(deep_view_pairs(ps@)),
            Value::List(es) => SpecVal::List(deep_view_list(es@)),
            Value::Bool(b) => SpecVal::Bool(b),
            Value::SInt(i) => SpecVal::SInt(i),
            Value::UInt(u) => SpecVal::UInt(u),
            Value::Float32(f) => SpecVal::Float32(f),
            Value::Float64(f) => SpecVal::Float64(f),
            Value::Null => SpecVal::Null,
            Value::Timestamp32(t) => SpecVal::Timestamp32(t),
            Value::UserDefined { id, data } => SpecVal::UserDefined(id, data@),
        }
    }

    /// The 2-bit class of this value.
    pub fn class(&self) -> (r: u8)
        ensures
            r == class_of(self.deep_view()),
    {
        match self {
            Value::String(_) => 0,
            Value::Bytes(_) => 1,
            Value::Dict(_) | Value::List(_) => 2,
            Value::Bool(_)
            | Value::SInt(_)
            | Value::UInt(_)
            | Value::Float32(_)
            | Value::Float64(_)
            | Value::Null
            | Value::Timestamp32(_)
            | Value::UserDefined { .. } => 3,
        }
    }
}

pub open spec fn deep_view_pairs(ps: Seq<(Object, Object)>) -> Seq<(SpecVal, SpecVal)>
    decreases ps,
{
    if ps.len() == 0 {
        Seq::empty()
    } else {
        seq![(ps[0].0.value.deep_view(), ps[0].1.value.deep_view())] + deep_view_pairs(
            ps.subrange(1, ps.len() as int),
        )
    }
}

pub open spec fn deep_view_list(es: Seq<Object>) -> Seq<SpecVal>
    decreases es,
{
    if es.len() == 0 {
        Seq::empty()
    } else {
        seq![es[0].value.deep_view()] + deep_view_list(es.subrange(1, es.len() as int))
    }
}

impl Object {
    /// The 2-bit class of this object.
    pub fn class(&self) -> (r: u8)
        ensures
            r == class_of(self@),
    {
        self.value.class()
    }

    /// A string object holding the given UTF-8 bytes.
    pub fn string(s: Vec<u8>) -> (r: Object)
        ensures
            r@ == SpecVal::Str(s@),
    {
        Object { value: Value::String(s) }
    }

    /// A byte-string object.
    pub fn bytes(b: Vec<u8>) -> (r: Object)
        ensures
            r@ == SpecVal::Bytes(b@),
    {
        Object { value: Value::Bytes(b) }
    }

    /// A map object; entries keep their order.
    pub fn map(m: Vec<(Object, Object)>) -> (r: Object)
        ensures
            r@ == SpecVal::Dict(deep_view_pairs(m@)),
    {
        Object { value: Value::Dict(m) }
    }

    /// A list object; elements keep their order.
    pub fn list(l: Vec<Object>) -> (r: Object)
        ensures
            r@ == SpecVal::List(deep_view_list(l@)),
    {
        Object { value: Value::List(l) }
    }

    pub fn bool(b: bool) -> (r: Object)
        ensures
            r@ == SpecVal::Bool(b),
    {
        Object { value: Value::Bool(b) }
    }

    pub fn sint(i: i128) -> (r: Object)
        ensures
            r@ == SpecVal::SInt(i),
    {
        Object { value: Value::SInt(i) }
    }

    pub fn uint(u: u128) -> (r: Object)
        ensures
            r@ == SpecVal::UInt(u),
    {
        Object { value: Value::UInt(u) }
    }

    /// A 32-bit float object, given as its IEEE-754 bit pattern.
    pub fn float32(bits: u32) -> (r: Object)
        ensures
            r@ == SpecVal::Float32(bits),
    {
        Object { value: Value::Float32(bits) }
    }

    /// A 64-bit float object, given as its IEEE-754 bit pattern.
    pub fn float64(bits: u64) -> (r: Object)
        ensures
            r@ == SpecVal::Float64(bits),
    {
        Object { value: Value::Float64(bits) }
    }

    pub fn null() -> (r: Object)
        ensures
            r@ == SpecVal::Null,
    {
        Object { value: Value::Null }
    }

    /// A 32-bit timestamp object (seconds).
    pub fn timestamp32(t: u32) -> (r: Object)
        ensures
            r@ == SpecVal::Timestamp32(t),
    {
        Object { value: Value::Timestamp32(t) }
    }

    /// An application-defined tagged blob; ids 39..=255 are the extension window.
    pub fn user_defined(id: u8, data: Vec<u8>) -> (r: Object)
        ensures
            r@ == SpecVal::UserDefined(id, data@),
    {
        Object { value: Value::UserDefined { id, data } }
    }
}

impl View for Object {
    type V = SpecVal;

    open spec fn view(&self) -> SpecVal {
        self.value.deep_view()
    }
}

/// A value tree that the encoder accepts: every map key is a string, every
/// collection is small enough that its length field `(count << 1) | is_list`
/// fits the machine word, and every user-defined blob has an id in the
/// application window 39..=255 and exactly `id` payload bytes — the length
/// field carries the id, so the payload size must be implied by it for the
/// message to be decodable. An unsigned zero is excluded: its length field
/// would be 16, which the discriminator table gives to signed integers.
/// Strings must be well-formed UTF-8, as the decoder insists.
pub open spec fn encodable(v: SpecVal) -> bool
    decreases v,
{
    match v {
        SpecVal::Str(s) => s.len() <= usize::MAX && valid_utf8(s),
        SpecVal::Bytes(b) => b.len() <= usize::MAX,
        SpecVal::Dict(ps) => ps.len() <= usize::MAX / 2 && pairs_encodable(ps),
        SpecVal::List(es) => es.len() <= usize::MAX / 2 && list_encodable(es),
        SpecVal::UserDefined(id, d) => 39 <= id && d.len() == id,
        SpecVal::UInt(u) => u != 0,
        _ => true,
    }
}

/// Every key of the entry sequence is a string and every entry value is
/// encodable.
pub open spec fn pairs_encodable(ps: Seq<(SpecVal, SpecVal)>) -> bool
    decreases ps,
{
    forall|i: int|
        0 <= i < ps.len() ==> (#[trigger] ps[i]).0 is Str && encodable(ps[i].0) && encodable(
            ps[i].1,
        )
}

/// Every element of the sequence is encodable.
pub open spec fn list_encodable(es: Seq<SpecVal>) -> bool
    decreases es,
{
    forall|i: int| 0 <= i < es.len() ==> encodable(#[trigger] es[i])
}

/// What `encode` accepts as a whole message: a map or list root whose tree is
/// encodable.
pub open spec fn encodable_root(v: SpecVal) -> bool {
    (v is Dict || v is List) && encodable(v)
}

pub proof fn lemma_deep_view_pairs_index(ps: Seq<(Object, Object)>)
    ensures
        deep_view_pairs(ps).len() == ps.len(),
        forall|i: int|
            0 <= i < ps.len() ==> #[trigger] deep_view_pairs(ps)[i] == (
                ps[i].0.value.deep_view(),
                ps[i].1.value.deep_view(),
            ),
    decreases ps.len(),
{
    if ps.len() > 0 {
        lemma_deep_view_pairs_index(ps.subrange(1, ps.len() as int));
    }
}

pub proof fn lemma_deep_view_list_index(es: Seq<Object>)
    ensures
        deep_view_list(es).len() == es.len(),
        forall|i: int|
            0 <= i < es.len() ==> #[trigger] deep_view_list(es)[i] == es[i].value.deep_view(),
    decreases es.len(),
{
    if es.len() > 0 {
        lemma_deep_view_list_index(es.subrange(1, es.len() as int));
    }
}

pub proof fn lemma_deep_view_pairs_push(ps: Seq<(Object, Object)>, p: (Object, Object))
    ensures
        deep_view_pairs(ps.push(p)) == deep_view_pairs(ps) + seq![
            (p.0.value.deep_view(), p.1.value.deep_view()),
        ],
{
    lemma_deep_view_pairs_index(ps);
    lemma_deep_view_pairs_index(ps.push(p));
    assert(deep_view_pairs(ps.push(p)) =~= deep_view_pairs(ps) + seq![
        (p.0.value.deep_view(), p.1.value.deep_view()),
    ]);
}

pub proof fn lemma_deep_view_list_push(es: Seq<Object>, e: Object)
    ensures
        deep_view_list(es.push(e)) == deep_view_list(es) + seq![e.value.deep_view()],
{
    lemma_deep_view_list_index(es);
    lemma_deep_view_list_index(es.push(e));
    assert(deep_view_list(es.push(e)) =~= deep_view_list(es) + seq![e.value.deep_view()]);
}

/// A UTF-8 continuation byte, `0b10xx_xxxx`.
pub open spec fn utf8_cont(b: u8) -> bool {
    0x80 <= b <= 0xBF
}

/// The bytes from position `i` on are well-formed UTF-8: each lead byte
/// opens a sequence of the right width, continuation bytes in range, with
/// overlong forms, surrogates and values past U+10FFFF excluded.
pub open spec fn valid_utf8_from(s: Seq<u8>, i: nat) -> bool
    decreases s.len() - i,
{
    if i >= s.len() {
        true
    } else {
        let b0 = s[i as int];
        if b0 < 0x80 {
            valid_utf8_from(s, i + 1)
        } else if 0xC2 <= b0 <= 0xDF {
            i + 2 <= s.len() && utf8_cont(s[(i + 1) as int]) && valid_utf8_from(s, i + 2)
        } else if b0 == 0xE0 {
            i + 3 <= s.len() && 0xA0 <= s[(i + 1) as int] <= 0xBF && utf8_cont(s[(i + 2) as int])
                && valid_utf8_from(s, i + 3)
        } else if 0xE1 <= b0 <= 0xEC || b0 == 0xEE || b0 == 0xEF {
            i + 3 <= s.len() && utf8_cont(s[(i + 1) as int]) && utf8_cont(s[(i + 2) as int]) && valid_utf8_from(
                s,
                i + 3,
            )
        } else if b0 == 0xED {
            i + 3 <= s.len() && 0x80 <= s[(i + 1) as int] <= 0x9F && utf8_cont(s[(i + 2) as int])
                && valid_utf8_from(s, i + 3)
        } else if b0 == 0xF0 {
            i + 4 <= s.len() && 0x90 <= s[(i + 1) as int] <= 0xBF && utf8_cont(s[(i + 2) as int]) && utf8_cont(
                s[(i + 3) as int],
            ) && valid_utf8_from(s, i + 4)
        } else if 0xF1 <= b0 <= 0xF3 {
            i + 4 <= s.len() && utf8_cont(s[(i + 1) as int]) && utf8_cont(s[(i + 2) as int]) && utf8_cont(s[(i + 3) as int])
                && valid_utf8_from(s, i + 4)
        } else if b0 == 0xF4 {
            i + 4 <= s.len() && 0x80 <= s[(i + 1) as int] <= 0x8F && utf8_cont(s[(i + 2) as int]) && utf8_cont(
                s[(i + 3) as int],
            ) && valid_utf8_from(s, i + 4)
        } else {
            false
        }
    }
}

/// The byte sequence is well-formed UTF-8.
pub open spec fn valid_utf8(s: Seq<u8>) -> bool {
    valid_utf8_from(s, 0)
}

/// Checks that the bytes are well-formed UTF-8.
pub fn check_utf8(s: &Vec<u8>) -> (r: bool)
    ensures
        r == valid_utf8(s@),
{
    let n = s.len();
    let mut i: usize = 0;
    while i < n
        invariant
            i <= n,
            n == s@.len(),
            valid_utf8(s@) == valid_utf8_from(s@, i as nat),
        decreases n - i,
    {
        let b0 = s[i];
        if b0 < 0x80 {
            i = i + 1;
        } else if 0xC2 <= b0 && b0 <= 0xDF {
            if n - i < 2 || !(0x80 <= s[i + 1] && s[i + 1] <= 0xBF) {
                return false;
            }
            i = i + 2;
        } else if b0 == 0xE0 {
            if n - i < 3 || !(0xA0 <= s[i + 1] && s[i + 1] <= 0xBF) || !(0x80 <= s[i + 2] && s[i
                + 2] <= 0xBF) {
                return false;
            }
            i = i + 3;
        } else if (0xE1 <= b0 && b0 <= 0xEC) || b0 == 0xEE || b0 == 0xEF {
            if n - i < 3 || !(0x80 <= s[i + 1] && s[i + 1] <= 0xBF) || !(0x80 <= s[i + 2] && s[i
                + 2] <= 0xBF) {
                return false;
            }
            i = i + 3;
        } else if b0 == 0xED {
            if n - i < 3 || !(0x80 <= s[i + 1] && s[i + 1] <= 0x9F) || !(0x80 <= s[i + 2] && s[i
                + 2] <= 0xBF) {
                return false;
            }
            i = i + 3;
        } else if b0 == 0xF0 {
            if n - i < 4 || !(0x90 <= s[i + 1] && s[i + 1] <= 0xBF) || !(0x80 <= s[i + 2] && s[i
                + 2] <= 0xBF) || !(0x80 <= s[i + 3] && s[i + 3] <= 0xBF) {
                return false;
            }
            i = i + 4;
        } else if 0xF1 <= b0 && b0 <= 0xF3 {
            if n - i < 4 || !(0x80 <= s[i + 1] && s[i + 1] <= 0xBF) || !(0x80 <= s[i + 2] && s[i
                + 2] <= 0xBF) || !(0x80 <= s[i + 3] && s[i + 3] <= 0xBF) {
                return false;
            }
            i = i + 4;
        } else if b0 == 0xF4 {
            if n - i < 4 || !(0x80 <= s[i + 1] && s[i + 1] <= 0x8F) || !(0x80 <= s[i + 2] && s[i
                + 2] <= 0xBF) || !(0x80 <= s[i + 3] && s[i + 3] <= 0xBF) {
                return false;
            }
            i = i + 4;
        } else {
            return false;
        }
    }
    true
}

/// The terminal failures of encoding and decoding.
#[derive(Clone, Copy, Debug, PartialEq, Eq, Structural)]
pub enum Error {
    /// A root that is not a collection, a map key that is not a string, or
    /// a collection too large for its length field.
    StructuralError,
    /// The input ended while classes, lengths or payload were being read.
    TruncatedInput,
    /// A fixed-class length value that names no known sub-type, or a
    /// user-defined id outside the application window 39..=255.
    InvalidDiscriminator,
    /// A string payload that is not well-formed UTF-8; strings are strict
    /// UTF-8 on the wire.
    InvalidUtf8,
}

/// The 2-bit class code of a value.
pub open spec fn class_of(v: SpecVal) -> u8 {
    match v {
        SpecVal::Str(_) => 0,
        SpecVal::Bytes(_) => 1,
        SpecVal::Dict(_) | SpecVal::List(_) => 2,
        _ => 3,
    }
}

} // verus!

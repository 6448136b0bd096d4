//! Values that a field can hold: integers, strings and booleans.
use vstd::prelude::*;
use vstd::utf8::{decode_utf8, valid_utf8, encode_utf8};
use crate::bytes::{be8, be8_value, push_u64_be, read_u64_be, lemma_be8_round_trip};
use crate::error::DbError;

verus! {

/// What a value means: its variant, and its payload where one is present.
pub enum ValueV {
    I(Option<i64>),
    S(Option<Seq<char>>),
    B(Option<bool>),
}

/// The variant of a value, without its payload.
#[derive(Debug, Clone, Copy, PartialEq, Eq, Structural)]
pub enum TypeTag {
    I,
    S,
    B,
}

/// A value of the database: a variant whose payload may be absent.
///
/// An absent payload only serves to describe a variant in a schema; stored values always hold one.
#[derive(Debug, Clone)]
pub enum Type {
    I(Option<I>),
    S(Option<S>),
    B(Option<B>),
}

impl View for Type {
    type V = ValueV;

    open spec fn view(&self) -> ValueV {
        match self {
            Type::I(i) => ValueV::I(
                match i {
                    Some(x) => Some(x@),
                    None => None,
                },
            ),
            Type::S(s) => ValueV::S(
                match s {
                    Some(x) => Some(x@),
                    None => None,
                },
            ),
            Type::B(b) => ValueV::B(
                match b {
                    Some(x) => Some(x@),
                    None => None,
                },
            ),
        }
    }
}

impl ValueV {
    /// The variant of this value.
    pub open spec fn tag(self) -> TypeTag {
        match self {
            ValueV::I(_) => TypeTag::I,
            ValueV::S(_) => TypeTag::S,
            ValueV::B(_) => TypeTag::B,
        }
    }

    /// Whether a payload is present.
    pub open spec fn is_present(self) -> bool {
        match self {
            ValueV::I(i) => i is Some,
            ValueV::S(s) => s is Some,
            ValueV::B(b) => b is Some,
        }
    }
}

/// The variant of `value`.
pub fn discriminant(value: &Type) -> (r: TypeTag)
    ensures
        r == value@.tag(),
{
    match value {
        Type::I(_) => TypeTag::I,
        Type::S(_) => TypeTag::S,
        Type::B(_) => TypeTag::B,
    }
}

impl Type {
    /// Whether a payload is present.
    pub fn is_present(&self) -> (r: bool)
        ensures
            r == self@.is_present(),
    {
        match self {
            Type::I(i) => i.is_some(),
            Type::S(s) => s.is_some(),
            Type::B(b) => b.is_some(),
        }
    }
}

impl PartialEq for Type {
    fn eq(&self, other: &Self) -> (r: bool)
        ensures
            r == (self@ == other@),
    {
        match (self, other) {
            (Type::I(a), Type::I(b)) => match (a, b) {
                (Some(x), Some(y)) => x.most_significant == y.most_significant,
                (None, None) => true,
                _ => false,
            },
            (Type::S(a), Type::S(b)) => match (a, b) {
                (Some(x), Some(y)) => x.string == y.string,
                (None, None) => true,
                _ => false,
            },
            (Type::B(a), Type::B(b)) => match (a, b) {
                (Some(x), Some(y)) => x.boolean == y.boolean,
                (None, None) => true,
                _ => false,
            },
            _ => false,
        }
    }
}

impl vstd::std_specs::cmp::PartialEqSpecImpl for Type {
    open spec fn obeys_eq_spec() -> bool {
        true
    }

    open spec fn eq_spec(&self, other: &Type) -> bool {
        self@ == other@
    }
}

/// A string value.
#[derive(Debug, Clone)]
pub struct S {
    string: String,
}

impl View for S {
    type V = Seq<char>;

    closed spec fn view(&self) -> Seq<char> {
        self.string@
    }
}

/// Relies on `String::from_utf8`: it succeeds exactly on valid UTF-8, and the string then holds
/// the characters that the bytes encode.
#[verifier::external_body]
pub(crate) fn string_from_utf8(bytes: Vec<u8>) -> (r: Option<String>)
    ensures
        r is Some <==> valid_utf8(bytes@),
        r is Some ==> r->0@ == decode_utf8(bytes@),
{
    String::from_utf8(bytes).ok()
}

impl S {
    /// A string value holding the characters of `string`.
    pub fn new(string: &str) -> (r: S)
        ensures
            r@ == string@,
    {
        S { string: string.to_owned() }
    }

    /// The UTF-8 bytes of the string.
    pub fn to_bytes(&self) -> (r: Vec<u8>)
        ensures
            r@ == encode_utf8(self@),
    {
        let mut v: Vec<u8> = Vec::new();
        crate::bytes::append_bytes(&mut v, self.string.as_str().as_bytes());
        v
    }

    /// The string that `bytes` encode, or `InvalidUtf8` where they are not UTF-8.
    pub fn from_bytes(bytes: &[u8]) -> (r: Result<S, DbError>)
        ensures
            r is Ok <==> valid_utf8(bytes@),
            r is Ok ==> r->Ok_0@ == decode_utf8(bytes@),
            r is Err ==> r->Err_0 == DbError::InvalidUtf8,
    {
        let mut v: Vec<u8> = Vec::new();
        crate::bytes::append_bytes(&mut v, bytes);
        match string_from_utf8(v) {
            Some(string) => Ok(S { string }),
            None => Err(DbError::InvalidUtf8),
        }
    }
}

impl PartialEq for S {
    fn eq(&self, other: &Self) -> (r: bool)
        ensures
            r == (self@ == other@),
    {
        self.string == other.string
    }
}

impl vstd::std_specs::cmp::PartialEqSpecImpl for S {
    open spec fn obeys_eq_spec() -> bool {
        true
    }

    open spec fn eq_spec(&self, other: &S) -> bool {
        self@ == other@
    }
}

/// The eight big-endian two's complement bytes of `v`.
pub open spec fn i64_bytes(v: i64) -> Seq<u8> {
    be8(v as u64)
}

/// An integer value.
#[derive(Debug, Clone, Copy, PartialEq, Eq, Structural)]
pub struct I {
    most_significant: i64,
}

impl View for I {
    type V = i64;

    closed spec fn view(&self) -> i64 {
        self.most_significant
    }
}

impl I {
    /// An integer value holding `integer`.
    pub fn new(integer: i64) -> (r: I)
        ensures
            r@ == integer,
    {
        I { most_significant: integer }
    }

    /// The integer held.
    pub fn value(&self) -> (r: i64)
        ensures
            r == self@,
    {
        self.most_significant
    }

    /// The eight big-endian two's complement bytes of the integer.
    pub fn to_bytes(&self) -> (r: Vec<u8>)
        ensures
            r@ == i64_bytes(self@),
    {
        let mut data: Vec<u8> = Vec::new();
        push_u64_be(&mut data, self.most_significant as u64);
        assert(data@ =~= i64_bytes(self@));
        data
    }

    /// The integer whose big-endian bytes begin `bytes`, or `ShortBuffer` where fewer than eight
    /// bytes are given.
    pub fn from_bytes(bytes: &[u8]) -> (r: Result<I, DbError>)
        ensures
            r is Ok <==> bytes@.len() >= 8,
            r is Ok ==> r->Ok_0@ == be8_value(bytes@) as i64,
            r is Err ==> r->Err_0 == DbError::ShortBuffer,
    {
        if bytes.len() < 8 {
            return Err(DbError::ShortBuffer);
        }
        let u = read_u64_be(bytes, 0);
        assert(bytes@.subrange(0, 8) =~= bytes@.subrange(0, 8));
        proof {
            assert(be8_value(bytes@.subrange(0, 8)) == be8_value(bytes@));
        }
        Ok(I { most_significant: u as i64 })
    }
}

/// Decoding the bytes of an integer gives the integer back.
pub proof fn lemma_i64_round_trip(v: i64)
    ensures
        be8_value(i64_bytes(v)) as i64 == v,
{
    lemma_be8_round_trip(v as u64);
    assert(((v as u64) as i64) == v) by (bit_vector);
}

/// A boolean value.
#[derive(Debug, Clone, Copy, PartialEq, Eq, Structural)]
pub struct B {
    boolean: bool,
}

impl View for B {
    type V = bool;

    closed spec fn view(&self) -> bool {
        self.boolean
    }
}

impl B {
    /// A boolean value holding `boolean`.
    pub fn new(boolean: bool) -> (r: B)
        ensures
            r@ == boolean,
    {
        B { boolean }
    }

    /// Whether the value is true.
    pub fn is_true(&self) -> (r: bool)
        ensures
            r == self@,
    {
        self.boolean
    }
}

} // verus!

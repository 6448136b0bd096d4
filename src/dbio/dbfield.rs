//! Fields: named values that carry the header of a node of the search tree.
use vstd::prelude::*;
use vstd::utf8::{decode_utf8, valid_utf8, encode_utf8};
use crate::apetypes::{Type, ValueV, S, I, B, i64_bytes, lemma_i64_round_trip};
use crate::apetypes::string_from_utf8;
use crate::bytes::{be8, be8_value, push_u64_be, read_u64_be, lemma_be8_round_trip, append_bytes, copy_range};
use crate::error::DbError;

verus! {

broadcast use {vstd::utf8::encode_utf8_decode_utf8, vstd::utf8::encode_utf8_valid_utf8};

/// Bytes before the id length: balance, two child offsets and the type tag.
pub const FIELDHEADSZ: usize = 18;

/// The type tag of a string.
pub const TAG_STRING: u8 = 0x53;

/// The type tag of an integer.
pub const TAG_INTEGER: u8 = 0x49;

/// The type tag of the boolean true.
pub const TAG_TRUE: u8 = 0x42;

/// The type tag of the boolean false.
pub const TAG_FALSE: u8 = 0x62;

/// How two fields are ordered.
#[derive(Debug, Clone, Copy, PartialEq, Eq, Structural)]
pub enum FieldCmp {
    Equal,
    GreaterThan,
    LessThan,
}

/// What a field means.
pub struct FieldV {
    pub balance: i8,
    pub left: u64,
    pub right: u64,
    pub id: Seq<char>,
    pub value: ValueV,
}

/// A named value, with the balance factor and the child offsets of its node in the search tree.
#[derive(Debug, Clone)]
pub struct Field {
    pub avl_balace: i8,
    pub left_child: u64,
    pub right_child: u64,
    pub id: String,
    pub value: Type,
}

impl View for Field {
    type V = FieldV;

    open spec fn view(&self) -> FieldV {
        FieldV {
            balance: self.avl_balace,
            left: self.left_child,
            right: self.right_child,
            id: self.id@,
            value: self.value@,
        }
    }
}

/// The payload bytes of a value: eight for an integer, the UTF-8 of a string, none for a boolean.
pub open spec fn payload_bytes(v: ValueV) -> Seq<u8> {
    match v {
        ValueV::I(Some(x)) => i64_bytes(x),
        ValueV::S(Some(s)) => encode_utf8(s),
        _ => Seq::empty(),
    }
}

/// The type tag of a value; a boolean's tag carries its truth.
pub open spec fn tag_byte(v: ValueV) -> u8 {
    match v {
        ValueV::S(_) => TAG_STRING,
        ValueV::I(_) => TAG_INTEGER,
        ValueV::B(Some(true)) => TAG_TRUE,
        ValueV::B(_) => TAG_FALSE,
    }
}

/// Whether a field can be written: its value is present, its id has 1 to 255 bytes, and its
/// payload fits a length byte.
pub open spec fn encodable(f: FieldV) -> bool {
    &&& f.value.is_present()
    &&& 1 <= encode_utf8(f.id).len() <= 255
    &&& payload_bytes(f.value).len() <= 255
}

/// The bytes of a field record.
pub open spec fn field_bytes(f: FieldV) -> Seq<u8> {
    let id = encode_utf8(f.id);
    let head = seq![f.balance as u8] + be8(f.left) + be8(f.right) + seq![
        tag_byte(f.value),
        id.len() as u8,
    ] + id;
    match f.value {
        ValueV::B(_) => head,
        _ => head + seq![payload_bytes(f.value).len() as u8] + payload_bytes(f.value),
    }
}

/// The field whose record begins `d`, with the record's length, or why there is none.
#[verifier::opaque]
pub open spec fn decode_field(d: Seq<u8>) -> Result<(FieldV, nat), DbError> {
    if d.len() < 19 {
        Err(DbError::ShortBuffer)
    } else {
        let tag = d[17];
        let id_len = d[18] as int;
        let id = d.subrange(19, 19 + id_len);
        let head = FieldV {
            balance: d[0] as i8,
            left: be8_value(d.subrange(1, 9)),
            right: be8_value(d.subrange(9, 17)),
            id: decode_utf8(id),
            value: ValueV::B(None),
        };
        if d.len() < 19 + id_len {
            Err(DbError::ShortBuffer)
        } else if id_len == 0 {
            Err(DbError::Corruption)
        } else if tag == TAG_TRUE || tag == TAG_FALSE {
            if !valid_utf8(id) {
                Err(DbError::InvalidUtf8)
            } else {
                Ok((FieldV { value: ValueV::B(Some(tag == TAG_TRUE)), ..head }, (19 + id_len) as nat))
            }
        } else if tag != TAG_STRING && tag != TAG_INTEGER {
            Err(DbError::Corruption)
        } else if d.len() < 20 + id_len {
            Err(DbError::ShortBuffer)
        } else {
            let v_len = d[19 + id_len] as int;
            let payload = d.subrange(20 + id_len, 20 + id_len + v_len);
            let len = (20 + id_len + v_len) as nat;
            if d.len() < len {
                Err(DbError::ShortBuffer)
            } else if tag == TAG_STRING {
                if !valid_utf8(payload) || !valid_utf8(id) {
                    Err(DbError::InvalidUtf8)
                } else {
                    Ok((FieldV { value: ValueV::S(Some(decode_utf8(payload))), ..head }, len))
                }
            } else if v_len < 8 {
                Err(DbError::ShortBuffer)
            } else if !valid_utf8(id) {
                Err(DbError::InvalidUtf8)
            } else {
                Ok((FieldV { value: ValueV::I(Some(be8_value(payload) as i64)), ..head }, len))
            }
        }
    }
}

/// A decoded record is at least its fixed header long, and lies within the bytes decoded; its
/// child offsets are the words stored after the balance byte.
pub proof fn lemma_decode_shape(x: Seq<u8>)
    requires
        decode_field(x) is Ok,
    ensures
        19 <= decode_field(x)->Ok_0.1 <= x.len(),
        decode_field(x)->Ok_0.0.left == be8_value(x.subrange(1, 9)),
        decode_field(x)->Ok_0.0.right == be8_value(x.subrange(9, 17)),
{
    reveal(decode_field);
}

/// Decoding reads only the bytes of the record: bytes that agree with them, but for the eight at
/// `off` that hold a child offset, decode to the same field but for that child offset.
pub proof fn lemma_decode_slot(x: Seq<u8>, y: Seq<u8>, off: int)
    requires
        decode_field(x) is Ok,
        off == 1 || off == 9,
        y.len() >= decode_field(x)->Ok_0.1,
        forall|i: int|
            0 <= i < decode_field(x)->Ok_0.1 && !(off <= i < off + 8) ==> #[trigger] y[i] == x[i],
    ensures
        decode_field(y) is Ok,
        decode_field(y)->Ok_0.1 == decode_field(x)->Ok_0.1,
        decode_field(y)->Ok_0.0.id == decode_field(x)->Ok_0.0.id,
        decode_field(y)->Ok_0.0.value == decode_field(x)->Ok_0.0.value,
        decode_field(y)->Ok_0.0.balance == decode_field(x)->Ok_0.0.balance,
        decode_field(y)->Ok_0.0.left == be8_value(y.subrange(1, 9)),
        decode_field(y)->Ok_0.0.right == be8_value(y.subrange(9, 17)),
{
    reveal(decode_field);
    let id_len = x[18] as int;
    assert(y[17] == x[17]);
    assert(y[18] == x[18]);
    assert(y[0] == x[0]);
    assert(y.subrange(19, 19 + id_len) =~= x.subrange(19, 19 + id_len));
    if x[17] == TAG_STRING || x[17] == TAG_INTEGER {
        assert(y[19 + id_len] == x[19 + id_len]);
        let v_len = x[19 + id_len] as int;
        assert(y.subrange(20 + id_len, 20 + id_len + v_len) =~= x.subrange(
            20 + id_len,
            20 + id_len + v_len,
        ));
    }
}

/// Decoding reads only the bytes of the record: bytes that agree with them decode alike.
pub proof fn lemma_decode_frame(x: Seq<u8>, y: Seq<u8>)
    requires
        decode_field(x) is Ok,
        y.len() >= decode_field(x)->Ok_0.1,
        forall|i: int| 0 <= i < decode_field(x)->Ok_0.1 ==> #[trigger] y[i] == x[i],
    ensures
        decode_field(y) == decode_field(x),
{
    lemma_decode_slot(x, y, 1);
    lemma_decode_shape(x);
    assert(y.subrange(1, 9) =~= x.subrange(1, 9));
    assert(y.subrange(9, 17) =~= x.subrange(9, 17));
}

/// Decoding a field's record, whatever follows it, gives back the field and the record's length.
pub proof fn lemma_field_round_trip(f: FieldV, rest: Seq<u8>)
    requires
        encodable(f),
    ensures
        decode_field(field_bytes(f) + rest) == Ok::<(FieldV, nat), DbError>((f, field_bytes(f).len())),
{
    reveal(decode_field);
    let id = encode_utf8(f.id);
    let d = field_bytes(f) + rest;
    let b = f.balance;
    assert((b as u8) as i8 == b) by (bit_vector);
    assert(d.subrange(1, 9) =~= be8(f.left));
    assert(d.subrange(9, 17) =~= be8(f.right));
    lemma_be8_round_trip(f.left);
    lemma_be8_round_trip(f.right);
    assert(d.subrange(19, 19 + id.len() as int) =~= id);
    let p = payload_bytes(f.value);
    match f.value {
        ValueV::B(Some(x)) => {
            assert(d[17] == tag_byte(f.value));
        },
        ValueV::S(Some(s)) => {
            assert(d.subrange(20 + id.len() as int, 20 + id.len() + p.len() as int) =~= p);
        },
        ValueV::I(Some(x)) => {
            assert(d.subrange(20 + id.len() as int, 20 + id.len() + p.len() as int) =~= p);
            lemma_i64_round_trip(x);
        },
        _ => {},
    }
    let (g, n) = decode_field(d)->Ok_0;
    assert(g == f);
}

/// The order of two byte strings: byte by byte, a proper prefix first.
pub open spec fn bytes_cmp(a: Seq<u8>, b: Seq<u8>) -> FieldCmp
    decreases a.len(),
{
    if a.len() == 0 {
        if b.len() == 0 {
            FieldCmp::Equal
        } else {
            FieldCmp::LessThan
        }
    } else if b.len() == 0 {
        FieldCmp::GreaterThan
    } else if a[0] < b[0] {
        FieldCmp::LessThan
    } else if a[0] > b[0] {
        FieldCmp::GreaterThan
    } else {
        bytes_cmp(a.drop_first(), b.drop_first())
    }
}

/// The rank of a value's variant: strings, then integers, then true, then false.
pub open spec fn value_rank(v: ValueV) -> int {
    match v {
        ValueV::S(_) => 0,
        ValueV::I(_) => 1,
        ValueV::B(Some(true)) => 2,
        ValueV::B(_) => 3,
    }
}

/// The order of two present values: by variant, then integers by number and strings by bytes.
pub open spec fn value_cmp(a: ValueV, b: ValueV) -> FieldCmp {
    if value_rank(a) < value_rank(b) {
        FieldCmp::LessThan
    } else if value_rank(a) > value_rank(b) {
        FieldCmp::GreaterThan
    } else {
        match (a, b) {
            (ValueV::I(Some(x)), ValueV::I(Some(y))) => if x < y {
                FieldCmp::LessThan
            } else if x > y {
                FieldCmp::GreaterThan
            } else {
                FieldCmp::Equal
            },
            (ValueV::S(Some(x)), ValueV::S(Some(y))) => bytes_cmp(encode_utf8(x), encode_utf8(y)),
            _ => FieldCmp::Equal,
        }
    }
}

/// The order of two fields: by the bytes of their ids, then by their values.
#[verifier::opaque]
pub open spec fn field_cmp(a: FieldV, b: FieldV) -> FieldCmp {
    match bytes_cmp(encode_utf8(a.id), encode_utf8(b.id)) {
        FieldCmp::Equal => value_cmp(a.value, b.value),
        c => c,
    }
}

/// The order of byte strings is antisymmetric, and only equal strings compare equal.
pub proof fn lemma_bytes_cmp_antisym(a: Seq<u8>, b: Seq<u8>)
    ensures
        bytes_cmp(a, b) == FieldCmp::GreaterThan <==> bytes_cmp(b, a) == FieldCmp::LessThan,
        bytes_cmp(a, b) == FieldCmp::Equal <==> a == b,
    decreases a.len(),
{
    if a.len() == 0 && b.len() == 0 {
        assert(a =~= b);
    } else if a.len() > 0 && b.len() > 0 && a[0] == b[0] {
        lemma_bytes_cmp_antisym(a.drop_first(), b.drop_first());
        assert(a =~= seq![a[0]] + a.drop_first());
        assert(b =~= seq![b[0]] + b.drop_first());
        if a == b {
            assert(a.drop_first() =~= b.drop_first());
        }
    } else if a.len() > 0 && b.len() > 0 {
        assert(a != b);
    } else {
        assert(a.len() != b.len());
    }
}

/// The order of byte strings is transitive.
pub proof fn lemma_bytes_cmp_trans(a: Seq<u8>, b: Seq<u8>, c: Seq<u8>)
    requires
        bytes_cmp(a, b) != FieldCmp::GreaterThan,
        bytes_cmp(b, c) != FieldCmp::GreaterThan,
    ensures
        bytes_cmp(a, c) != FieldCmp::GreaterThan,
        bytes_cmp(a, b) == FieldCmp::LessThan || bytes_cmp(b, c) == FieldCmp::LessThan ==> bytes_cmp(
            a,
            c,
        ) == FieldCmp::LessThan,
    decreases a.len(),
{
    lemma_bytes_cmp_antisym(a, b);
    lemma_bytes_cmp_antisym(b, c);
    lemma_bytes_cmp_antisym(a, c);
    if a.len() > 0 && b.len() > 0 && c.len() > 0 && a[0] == b[0] && b[0] == c[0] {
        lemma_bytes_cmp_trans(a.drop_first(), b.drop_first(), c.drop_first());
    }
}

/// The order of fields with present values is antisymmetric.
pub proof fn lemma_field_cmp_antisym(a: FieldV, b: FieldV)
    requires
        a.value.is_present(),
        b.value.is_present(),
    ensures
        field_cmp(a, b) == FieldCmp::GreaterThan <==> field_cmp(b, a) == FieldCmp::LessThan,
{
    reveal(field_cmp);
    lemma_bytes_cmp_antisym(encode_utf8(a.id), encode_utf8(b.id));
    lemma_bytes_cmp_antisym(encode_utf8(b.id), encode_utf8(a.id));
    match (a.value, b.value) {
        (ValueV::S(Some(x)), ValueV::S(Some(y))) => {
            lemma_bytes_cmp_antisym(encode_utf8(x), encode_utf8(y));
            lemma_bytes_cmp_antisym(encode_utf8(y), encode_utf8(x));
        },
        _ => {},
    }
}

/// Compares two byte strings byte by byte.
pub fn compare_bytes(a: &[u8], b: &[u8]) -> (r: FieldCmp)
    ensures
        r == bytes_cmp(a@, b@),
{
    let mut i: usize = 0;
    assert(a@.skip(0) =~= a@);
    assert(b@.skip(0) =~= b@);
    while i < a.len() && i < b.len()
        invariant
            i <= a@.len(),
            i <= b@.len(),
            bytes_cmp(a@, b@) == bytes_cmp(a@.skip(i as int), b@.skip(i as int)),
        decreases a@.len() - i,
    {
        assert(a@.skip(i as int)[0] == a@[i as int]);
        assert(b@.skip(i as int)[0] == b@[i as int]);
        if a[i] < b[i] {
            return FieldCmp::LessThan;
        }
        if a[i] > b[i] {
            return FieldCmp::GreaterThan;
        }
        assert(a@.skip(i as int).drop_first() =~= a@.skip(i + 1));
        assert(b@.skip(i as int).drop_first() =~= b@.skip(i + 1));
        i = i + 1;
    }
    if i < b.len() {
        FieldCmp::LessThan
    } else if i < a.len() {
        FieldCmp::GreaterThan
    } else {
        FieldCmp::Equal
    }
}

impl Field {
    /// A field named `id` holding `value`, outside any tree.
    pub fn new(id: &str, value: Type) -> (r: Field)
        ensures
            r@ == (FieldV { balance: 0, left: 0, right: 0, id: id@, value: value@ }),
    {
        Field { avl_balace: 0, left_child: 0, right_child: 0, id: id.to_owned(), value }
    }

    /// The record of the field; `EmptyId` where its id is empty, `ValueTooLarge` where its id or
    /// its payload exceeds 255 bytes.
    pub fn to_bytes(&self) -> (r: Result<Vec<u8>, DbError>)
        requires
            self.value@.is_present(),
        ensures
            r is Ok <==> encodable(self@),
            r is Ok ==> r->Ok_0@ == field_bytes(self@),
            r is Err ==> r->Err_0 == if encode_utf8(self@.id).len() == 0 {
                DbError::EmptyId
            } else {
                DbError::ValueTooLarge
            },
    {
        let id_data = self.id.as_str().as_bytes();
        if id_data.len() == 0 {
            return Err(DbError::EmptyId);
        }
        if id_data.len() > 255 {
            return Err(DbError::ValueTooLarge);
        }
        let value_data: Vec<u8> = match &self.value {
            Type::S(Some(string)) => string.to_bytes(),
            Type::I(Some(integer)) => integer.to_bytes(),
            _ => Vec::new(),
        };
        if value_data.len() > 255 {
            return Err(DbError::ValueTooLarge);
        }
        let value_type: u8 = match &self.value {
            Type::S(_) => TAG_STRING,
            Type::I(_) => TAG_INTEGER,
            Type::B(Some(boolean)) => if boolean.is_true() {
                TAG_TRUE
            } else {
                TAG_FALSE
            },
            Type::B(None) => TAG_FALSE,
        };
        let mut data: Vec<u8> = Vec::new();
        data.push(self.avl_balace as u8);
        push_u64_be(&mut data, self.left_child);
        push_u64_be(&mut data, self.right_child);
        data.push(value_type);
        data.push(id_data.len() as u8);
        append_bytes(&mut data, id_data);
        match &self.value {
            Type::B(_) => {},
            _ => {
                data.push(value_data.len() as u8);
                append_bytes(&mut data, value_data.as_slice());
            },
        }
        assert(data@ =~= field_bytes(self@));
        Ok(data)
    }

    /// Decodes the record that begins at `data[start]`, giving the field and the record's length.
    pub fn from_bytes_at(data: &[u8], start: usize) -> (r: Result<(Field, usize), DbError>)
        requires
            start <= data@.len(),
        ensures
            match decode_field(data@.skip(start as int)) {
                Ok((f, n)) => r is Ok && r->Ok_0.0@ == f && r->Ok_0.1 == n,
                Err(e) => r == Err::<(Field, usize), DbError>(e),
            },
    {
        reveal(decode_field);
        let ghost d = data@.skip(start as int);
        let rem = data.len() - start;
        if rem < 19 {
            return Err(DbError::ShortBuffer);
        }
        let avl_balance = data[start] as i8;
        let left_child = read_u64_be(data, start + 1);
        let right_child = read_u64_be(data, start + 9);
        assert(data@.subrange(start + 1, start + 9) =~= d.subrange(1, 9));
        assert(data@.subrange(start + 9, start + 17) =~= d.subrange(9, 17));
        let value_type_byte = data[start + 17];
        let id_length = data[start + 18] as usize;
        if rem < 19 + id_length {
            return Err(DbError::ShortBuffer);
        }
        if id_length == 0 {
            return Err(DbError::Corruption);
        }
        let id_data = copy_range(data, start + 19, start + 19 + id_length);
        assert(id_data@ =~= d.subrange(19, 19 + id_length));
        let mut end = start + 19 + id_length;
        let value = if value_type_byte == TAG_TRUE || value_type_byte == TAG_FALSE {
            Type::B(Some(B::new(value_type_byte == TAG_TRUE)))
        } else if value_type_byte == TAG_STRING || value_type_byte == TAG_INTEGER {
            if rem < 20 + id_length {
                return Err(DbError::ShortBuffer);
            }
            let value_length = data[start + 19 + id_length] as usize;
            if rem < 20 + id_length + value_length {
                return Err(DbError::ShortBuffer);
            }
            let value_data = copy_range(
                data,
                start + 20 + id_length,
                start + 20 + id_length + value_length,
            );
            assert(value_data@ =~= d.subrange(
                20 + id_length as int,
                20 + id_length + value_length as int,
            ));
            end = start + 20 + id_length + value_length;
            if value_type_byte == TAG_STRING {
                match S::from_bytes(value_data.as_slice()) {
                    Ok(string) => Type::S(Some(string)),
                    Err(e) => {
                        return Err(e);
                    },
                }
            } else {
                match I::from_bytes(value_data.as_slice()) {
                    Ok(integer) => Type::I(Some(integer)),
                    Err(e) => {
                        return Err(e);
                    },
                }
            }
        } else {
            return Err(DbError::Corruption);
        };
        let id = match string_from_utf8(id_data) {
            Some(id) => id,
            None => {
                return Err(DbError::InvalidUtf8);
            },
        };
        let field = Field { avl_balace: avl_balance, left_child, right_child, id, value };
        Ok((field, end - start))
    }

    /// Decodes the record at the start of `data`.
    pub fn from_bytes(data: &[u8]) -> (r: Result<Field, DbError>)
        ensures
            match decode_field(data@) {
                Ok((f, n)) => r is Ok && r->Ok_0@ == f,
                Err(e) => r == Err::<Field, DbError>(e),
            },
    {
        assert(data@.skip(0) =~= data@);
        match Field::from_bytes_at(data, 0) {
            Ok((field, _)) => Ok(field),
            Err(e) => Err(e),
        }
    }

    /// Compares two fields with present values: by id, then by value.
    pub fn cmp(&self, field_b: &Field) -> (r: FieldCmp)
        requires
            self.value@.is_present(),
            field_b.value@.is_present(),
        ensures
            r == field_cmp(self@, field_b@),
    {
        reveal(field_cmp);
        let c = compare_bytes(self.id.as_str().as_bytes(), field_b.id.as_str().as_bytes());
        if c != FieldCmp::Equal {
            return c;
        }
        match (&self.value, &field_b.value) {
            (Type::I(Some(x)), Type::I(Some(y))) => {
                let (x, y) = (x.value(), y.value());
                if x < y {
                    FieldCmp::LessThan
                } else if x > y {
                    FieldCmp::GreaterThan
                } else {
                    FieldCmp::Equal
                }
            },
            (Type::S(Some(x)), Type::S(Some(y))) => {
                let (xb, yb) = (x.to_bytes(), y.to_bytes());
                compare_bytes(xb.as_slice(), yb.as_slice())
            },
            _ => {
                let (ra, rb) = (rank(&self.value), rank(&field_b.value));
                if ra < rb {
                    FieldCmp::LessThan
                } else if ra > rb {
                    FieldCmp::GreaterThan
                } else {
                    FieldCmp::Equal
                }
            },
        }
    }

    /// Compares the records that begin at offsets `field_point_a` and `field_point_b` of a file's
    /// bytes, in the order of `cmp`; an error where either record does not decode.
    pub fn cmp_in_file(file: &[u8], field_point_a: u64, field_point_b: u64) -> (r: Result<
        FieldCmp,
        DbError,
    >)
        ensures
            field_point_a > file@.len() || field_point_b > file@.len() ==> r == Err::<
                FieldCmp,
                DbError,
            >(DbError::ShortBuffer),
            field_point_a <= file@.len() && field_point_b <= file@.len() ==> match (
                decode_field(file@.skip(field_point_a as int)),
                decode_field(file@.skip(field_point_b as int)),
            ) {
                (Ok((a, _)), Ok((b, _))) => r == Ok::<FieldCmp, DbError>(field_cmp(a, b)),
                (Err(e), _) => r == Err::<FieldCmp, DbError>(e),
                (Ok(_), Err(e)) => r == Err::<FieldCmp, DbError>(e),
            },
    {
        if field_point_a > file.len() as u64 || field_point_b > file.len() as u64 {
            return Err(DbError::ShortBuffer);
        }
        let (a, _) = match Field::from_bytes_at(file, field_point_a as usize) {
            Ok(x) => x,
            Err(e) => {
                return Err(e);
            },
        };
        let (b, _) = match Field::from_bytes_at(file, field_point_b as usize) {
            Ok(x) => x,
            Err(e) => {
                return Err(e);
            },
        };
        proof {
            lemma_decoded_present(file@.skip(field_point_a as int));
            lemma_decoded_present(file@.skip(field_point_b as int));
        }
        Ok(a.cmp(&b))
    }
}

impl PartialEq for Field {
    fn eq(&self, other: &Self) -> (r: bool)
        ensures
            r == (self@ == other@),
    {
        self.avl_balace == other.avl_balace && self.left_child == other.left_child
            && self.right_child == other.right_child && self.id == other.id && self.value
            == other.value
    }
}

impl vstd::std_specs::cmp::PartialEqSpecImpl for Field {
    open spec fn obeys_eq_spec() -> bool {
        true
    }

    open spec fn eq_spec(&self, other: &Field) -> bool {
        self@ == other@
    }
}

/// The rank of a value's variant, as `value_rank` gives it.
fn rank(v: &Type) -> (r: u8)
    ensures
        r as int == value_rank(v@),
{
    match v {
        Type::S(_) => 0,
        Type::I(_) => 1,
        Type::B(Some(b)) => if b.is_true() {
            2
        } else {
            3
        },
        Type::B(None) => 3,
    }
}

/// The order of fields looks at their ids and values only.
pub proof fn lemma_field_cmp_keys(a: FieldV, b: FieldV, c: FieldV)
    requires
        b.id == c.id,
        b.value == c.value,
    ensures
        field_cmp(a, b) == field_cmp(a, c),
        field_cmp(b, a) == field_cmp(c, a),
{
    reveal(field_cmp);
}

/// A decoded field always holds a value.
pub proof fn lemma_decoded_present(d: Seq<u8>)
    ensures
        decode_field(d) is Ok ==> decode_field(d)->Ok_0.0.value.is_present(),
{
    reveal(decode_field);
}

} // verus!

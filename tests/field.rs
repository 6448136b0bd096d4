use apedb::apetypes::{Type, S, I, B};
use apedb::dbio::dbfield::{Field, FieldCmp};
use apedb::error::DbError;

fn round_trip(field: &Field) {
    let bytes = field.to_bytes().unwrap();
    let decoded = Field::from_bytes(&bytes).unwrap();
    assert_eq!(&decoded, field);
    let mut longer = bytes.clone();
    longer.extend_from_slice(&[7, 7, 7]);
    let (again, len) = Field::from_bytes_at(&longer, 0).unwrap();
    assert_eq!(&again, field);
    assert_eq!(len, bytes.len());
}

#[test]
fn test_in_file_cmp_equal() {
    let mut file: Vec<u8> = Vec::new();

    let field_a = Field::new("Hello", Type::S(Some(S::new("World"))));
    let field_b = field_a.clone();

    let insertion_point_a = file.len() as u64;
    file.extend_from_slice(&field_a.to_bytes().unwrap());

    let insertion_point_b = file.len() as u64;
    file.extend_from_slice(&field_b.to_bytes().unwrap());

    let cmp = Field::cmp_in_file(&file, insertion_point_a, insertion_point_b).unwrap();

    assert_eq!(cmp, FieldCmp::Equal);
}

#[test]
fn string_field_layout() {
    let field = Field::new("Hello", Type::S(Some(S::new("World"))));
    let bytes = field.to_bytes().unwrap();
    let mut expected = vec![0u8; 17];
    expected.extend_from_slice(&[b'S', 5, b'H', b'e', b'l', b'l', b'o', 5, b'W', b'o', b'r', b'l', b'd']);
    assert_eq!(bytes, expected);
}

#[test]
fn tree_header_layout() {
    let mut field = Field::new("b", Type::B(Some(B::new(true))));
    field.avl_balace = -1;
    field.left_child = 0x0102030405060708;
    field.right_child = 0x1112131415161718;
    let bytes = field.to_bytes().unwrap();
    assert_eq!(
        bytes,
        vec![0xFF, 1, 2, 3, 4, 5, 6, 7, 8, 0x11, 0x12, 0x13, 0x14, 0x15, 0x16, 0x17, 0x18, b'B', 1, b'b']
    );
    round_trip(&field);
}

#[test]
fn booleans_carry_their_value_in_the_tag() {
    let t = Field::new("flag", Type::B(Some(B::new(true)))).to_bytes().unwrap();
    let f = Field::new("flag", Type::B(Some(B::new(false)))).to_bytes().unwrap();
    assert_eq!(t[17], b'B');
    assert_eq!(f[17], b'b');
    assert_eq!(t.len(), 19 + 4);
    assert_eq!(f.len(), 19 + 4);
}

#[test]
fn fields_round_trip() {
    round_trip(&Field::new("id", Type::S(Some(S::new("Hello")))));
    round_trip(&Field::new("empty", Type::S(Some(S::new("")))));
    round_trip(&Field::new("ünïcødé", Type::S(Some(S::new("日本語テキスト")))));
    round_trip(&Field::new("n", Type::I(Some(I::new(0)))));
    round_trip(&Field::new("n", Type::I(Some(I::new(i64::MAX)))));
    round_trip(&Field::new("n", Type::I(Some(I::new(i64::MIN)))));
    round_trip(&Field::new("t", Type::B(Some(B::new(true)))));
    round_trip(&Field::new("f", Type::B(Some(B::new(false)))));
    round_trip(&Field::new(&"k".repeat(255), Type::S(Some(S::new(&"v".repeat(255))))));
}

#[test]
fn negative_one_round_trips_big_endian() {
    let integer = I::new(-1);
    assert_eq!(integer.to_bytes(), vec![0xFF; 8]);
    assert_eq!(I::from_bytes(&integer.to_bytes()).unwrap(), integer);
    assert_eq!(I::new(258).to_bytes(), vec![0, 0, 0, 0, 0, 0, 1, 2]);
    round_trip(&Field::new("n", Type::I(Some(I::new(-1)))));
}

#[test]
fn integer_from_short_buffer_fails() {
    assert_eq!(I::from_bytes(&[1, 2, 3, 4, 5, 6, 7]), Err(DbError::ShortBuffer));
}

#[test]
fn id_of_255_bytes_is_accepted_and_256_rejected() {
    let ok = Field::new(&"a".repeat(255), Type::B(Some(B::new(true))));
    assert!(ok.to_bytes().is_ok());
    let too_long = Field::new(&"a".repeat(256), Type::B(Some(B::new(true))));
    assert_eq!(too_long.to_bytes(), Err(DbError::ValueTooLarge));
}

#[test]
fn empty_id_is_rejected() {
    let field = Field::new("", Type::S(Some(S::new("x"))));
    assert_eq!(field.to_bytes(), Err(DbError::EmptyId));
    let mut bytes = Field::new("a", Type::B(Some(B::new(true)))).to_bytes().unwrap();
    bytes[18] = 0;
    bytes.truncate(19);
    assert_eq!(Field::from_bytes(&bytes), Err(DbError::Corruption));
}

#[test]
fn value_of_256_bytes_is_rejected() {
    let ok = Field::new("v", Type::S(Some(S::new(&"z".repeat(255)))));
    assert!(ok.to_bytes().is_ok());
    let too_long = Field::new("v", Type::S(Some(S::new(&"z".repeat(300)))));
    assert_eq!(too_long.to_bytes(), Err(DbError::ValueTooLarge));
}

#[test]
fn decode_errors() {
    let bytes = Field::new("id", Type::S(Some(S::new("Hello")))).to_bytes().unwrap();
    assert_eq!(Field::from_bytes(&bytes[..bytes.len() - 1]), Err(DbError::ShortBuffer));
    assert_eq!(Field::from_bytes(&bytes[..10]), Err(DbError::ShortBuffer));
    let mut bad_tag = bytes.clone();
    bad_tag[17] = b'x';
    assert_eq!(Field::from_bytes(&bad_tag), Err(DbError::Corruption));
    let mut bad_utf8 = bytes.clone();
    let last = bad_utf8.len() - 1;
    bad_utf8[last] = 0xFF;
    assert_eq!(Field::from_bytes(&bad_utf8), Err(DbError::InvalidUtf8));
    let mut bad_id = bytes.clone();
    bad_id[19] = 0xC0;
    assert_eq!(Field::from_bytes(&bad_id), Err(DbError::InvalidUtf8));
    let mut short_int = Field::new("n", Type::I(Some(I::new(5)))).to_bytes().unwrap();
    short_int[20] = 4;
    assert_eq!(Field::from_bytes(&short_int[..short_int.len() - 4]), Err(DbError::ShortBuffer));
    assert_eq!(S::from_bytes(&[0xFF]), Err(DbError::InvalidUtf8));
}

#[test]
fn field_order() {
    let s = |id: &str, v: &str| Field::new(id, Type::S(Some(S::new(v))));
    let i = |id: &str, v: i64| Field::new(id, Type::I(Some(I::new(v))));
    let b = |id: &str, v: bool| Field::new(id, Type::B(Some(B::new(v))));
    assert_eq!(s("a", "z").cmp(&s("b", "a")), FieldCmp::LessThan);
    assert_eq!(s("b", "a").cmp(&s("a", "z")), FieldCmp::GreaterThan);
    assert_eq!(s("ab", "a").cmp(&s("a", "z")), FieldCmp::GreaterThan);
    assert_eq!(s("id", "Test1").cmp(&s("id", "Test2")), FieldCmp::LessThan);
    assert_eq!(s("id", "same").cmp(&s("id", "same")), FieldCmp::Equal);
    assert_eq!(i("n", -5).cmp(&i("n", 3)), FieldCmp::LessThan);
    assert_eq!(i("n", 3).cmp(&i("n", -5)), FieldCmp::GreaterThan);
    assert_eq!(s("x", "zzz").cmp(&i("x", -100)), FieldCmp::LessThan);
    assert_eq!(i("x", 100).cmp(&b("x", true)), FieldCmp::LessThan);
    assert_eq!(b("x", true).cmp(&b("x", false)), FieldCmp::LessThan);
    assert_eq!(b("x", false).cmp(&b("x", false)), FieldCmp::Equal);
}

#[test]
fn file_comparator_agrees_with_memory_comparator() {
    let fields = vec![
        Field::new("id", Type::S(Some(S::new("Test2")))),
        Field::new("id", Type::S(Some(S::new("Test10")))),
        Field::new("ab", Type::I(Some(I::new(7)))),
        Field::new("ab", Type::I(Some(I::new(-7)))),
        Field::new("b", Type::B(Some(B::new(false)))),
        Field::new("b", Type::B(Some(B::new(true)))),
    ];
    let mut file: Vec<u8> = Vec::new();
    let mut points = Vec::new();
    for f in &fields {
        points.push(file.len() as u64);
        file.extend_from_slice(&f.to_bytes().unwrap());
    }
    for (x, px) in fields.iter().zip(points.iter()) {
        for (y, py) in fields.iter().zip(points.iter()) {
            assert_eq!(Field::cmp_in_file(&file, *px, *py), Ok(x.cmp(y)));
        }
    }
    assert_eq!(Field::cmp_in_file(&file, file.len() as u64 + 1, 0), Err(DbError::ShortBuffer));
}

#[test]
fn value_equality() {
    assert_eq!(Type::S(Some(S::new("a"))), Type::S(Some(S::new("a"))));
    assert_ne!(Type::S(Some(S::new("a"))), Type::S(Some(S::new("b"))));
    assert_ne!(Type::I(Some(I::new(1))), Type::B(Some(B::new(true))));
    assert_eq!(Type::B(None), Type::B(None));
    assert!(B::new(true).is_true());
    assert_eq!(S::new("Hello").to_bytes(), b"Hello".to_vec());
    assert_eq!(S::from_bytes(b"Hello").unwrap(), S::new("Hello"));
}

use apedb::apetypes::{discriminant, Type, TypeTag, S, I, B};
use apedb::dbio::dbchunk::{ChunkTypes, ChunkyFile, DbHeadChunk, EntryChunk};
use apedb::dbio::dbfield::Field;
use apedb::dbio::dblist::{Entry, List};
use apedb::dbio::dbstruct::{Requirement, Structure};
use apedb::dbio::dbtree::LazyAVL;
use apedb::dbio::dbuuid::UuidV4;
use apedb::dbio::{chunk_count_of, chunk_offset, Chunk};
use apedb::error::DbError;

fn id_structure() -> Structure {
    Structure::new("test", vec![Requirement::new("id", discriminant(&Type::S(None)))])
}

fn id_entry(value: &str) -> Entry {
    Entry::new(UuidV4::new(), vec![Field::new("id", Type::S(Some(S::new(value))))]).unwrap()
}

fn node(file: &ChunkyFile, pos: u64) -> Field {
    Field::from_bytes_at(file.as_bytes(), pos as usize).unwrap().0
}

fn in_order(file: &ChunkyFile, pos: u64, out: &mut Vec<Field>) {
    if pos == 0 {
        return;
    }
    let n = node(file, pos);
    in_order(file, n.left_child, out);
    out.push(n.clone());
    in_order(file, n.right_child, out);
}

fn traversal(list: &List) -> Vec<Field> {
    let mut out = Vec::new();
    in_order(&list.db_file, list.tree.head, &mut out);
    out
}

fn in_body(file: &ChunkyFile, p: u64, len: usize) -> bool {
    let o = (p % 256) as usize;
    let header = file.as_bytes()[p as usize - o];
    let first = if header & 0x40 != 0 { 9 } else { 2 };
    (p as usize) + len <= file.size() && o >= first && o + len <= 253
}

#[test]
fn test_entry_new() {
    let uuid = UuidV4::new();
    let uuid2 = uuid.clone();
    let fields = vec![Field::new("id", Type::S(Some(S::new("Test"))))];
    let fields2 = fields.clone();
    let entry = Entry::new(uuid, fields).unwrap();
    assert_eq!(entry.uuid, uuid2);
    assert_eq!(entry.fields, fields2);
}

#[test]
fn test_entry_get_field() {
    let uuid = UuidV4::new();
    let fields = vec![Field::new("id", Type::S(Some(S::new("Test"))))];
    let entry = Entry::new(uuid, fields).unwrap();
    assert_eq!(entry.get_field("id").unwrap().value, Type::S(Some(S::new("Test"))));
}

#[test]
fn get_field_takes_the_first_match() {
    let fields = vec![
        Field::new("a", Type::I(Some(I::new(1)))),
        Field::new("b", Type::I(Some(I::new(2)))),
        Field::new("b", Type::I(Some(I::new(3)))),
    ];
    let entry = Entry::new(UuidV4::new(), fields).unwrap();
    assert_eq!(entry.get_field("b").unwrap().value, Type::I(Some(I::new(2))));
    assert!(entry.get_field("c").is_none());
}

#[test]
fn test_list_new() {
    let structure = Structure::new("test", vec![Requirement::new("id", discriminant(&Type::S(None)))]);
    let db_file = ChunkyFile::new();

    let list = List::new(db_file, structure.clone()).unwrap();

    assert_eq!(list.structure, structure);
    assert_eq!(list.tree.head, 0);
    assert_eq!(list.entry_count, 0);
}

#[test]
fn test_list_add_entry() {
    let structure = Structure::new("test", vec![Requirement::new("id", discriminant(&Type::S(None)))]);
    let db_file = ChunkyFile::new();

    let mut list = List::new(db_file, structure).unwrap();

    let uuid1 = UuidV4::new();
    let fields1 = vec![Field::new("id", Type::S(Some(S::new("Test1"))))];
    let entry1 = Entry::new(uuid1, fields1).unwrap();

    let uuid2 = UuidV4::new();
    let fields2 = vec![Field::new("id", Type::S(Some(S::new("Test2"))))];
    let entry2 = Entry::new(uuid2, fields2).unwrap();

    let uuid3 = UuidV4::new();
    let fields3 = vec![Field::new("id", Type::S(Some(S::new("Test3"))))];
    let entry3 = Entry::new(uuid3, fields3).unwrap();

    list.add_entry(entry1).unwrap();
    list.add_entry(entry2).unwrap();
    list.add_entry(entry3).unwrap();
}

#[test]
fn database_header_fits_one_chunk_and_verifies() {
    let mut file = ChunkyFile::new();
    let head = DbHeadChunk::new("Ape Database!", "root");
    assert_eq!(head.fields.len(), 7);
    assert_eq!(head.fields[2].value, Type::I(Some(I::new(1024))));
    assert_eq!(head.fields[3].value, Type::I(Some(I::new(0o777))));
    assert_eq!(head.fields[5].value, Type::B(Some(B::new(true))));
    let points = file.add_dbhead_chunk(head).unwrap();
    assert_eq!(points.len(), 7);
    assert!(file.size() == 256 || file.size() == 512);
    assert_eq!(file.as_bytes()[0] & 0x0F, 0x01);
    for n in 0..(file.size() / 256) as u64 {
        assert_eq!(file.verify_chunk(n), Ok(true));
    }
    assert_eq!(node(&file, points[0]).value, Type::S(Some(S::new("Ape Database!"))));
    assert_eq!(node(&file, points[4]).value, Type::S(Some(S::new("root"))));
    assert_eq!(node(&file, points[6]).id, "insane");
}

#[test]
fn first_entry_becomes_head_and_can_be_found() {
    let mut list = List::new(ChunkyFile::new(), id_structure()).unwrap();
    list.add_entry(id_entry("Hello")).unwrap();
    assert_eq!(list.entry_count, 1);
    assert_ne!(list.tree.head, 0);
    assert_eq!(list.db_file.size() % 256, 0);
    let key = Field::new("id", Type::S(Some(S::new("Hello"))));
    let found = list.tree.search(&list.db_file, &key).unwrap();
    assert_ne!(found, 0);
    assert_eq!(found, list.tree.head);
    let missing = Field::new("id", Type::S(Some(S::new("Nope"))));
    assert_eq!(list.tree.search(&list.db_file, &missing), Ok(0));
}

#[test]
fn head_is_the_last_field_of_the_first_entry() {
    let structure = Structure::new(
        "s",
        vec![Requirement::new("id", TypeTag::S), Requirement::new("n", TypeTag::I)],
    );
    let mut list = List::new(ChunkyFile::new(), structure).unwrap();
    let entry = Entry::new(
        UuidV4::new(),
        vec![Field::new("id", Type::S(Some(S::new("x")))), Field::new("n", Type::I(Some(I::new(9))))],
    )
    .unwrap();
    list.add_entry(entry).unwrap();
    assert_eq!(node(&list.db_file, list.tree.head).id, "n");
    let ids: Vec<String> = traversal(&list).into_iter().map(|f| f.id).collect();
    assert_eq!(ids, vec!["id".to_string(), "n".to_string()]);
}

#[test]
fn traversal_yields_ids_in_order() {
    let mut list = List::new(ChunkyFile::new(), id_structure()).unwrap();
    for v in ["Test1", "Test2", "Test3"] {
        list.add_entry(id_entry(v)).unwrap();
    }
    let values: Vec<Type> = traversal(&list).into_iter().map(|f| f.value).collect();
    assert_eq!(
        values,
        vec![
            Type::S(Some(S::new("Test1"))),
            Type::S(Some(S::new("Test2"))),
            Type::S(Some(S::new("Test3"))),
        ]
    );
    for n in 0..(list.db_file.size() / 256) as u64 {
        assert_eq!(list.db_file.verify_chunk(n), Ok(true));
    }
}

#[test]
fn traversal_is_sorted_for_mixed_inserts() {
    let mut list = List::new(ChunkyFile::new(), id_structure()).unwrap();
    let values = ["m", "c", "x", "a", "e", "m", "z", "b", "y", "d"];
    for v in values {
        list.add_entry(id_entry(v)).unwrap();
    }
    let out = traversal(&list);
    assert_eq!(out.len(), values.len());
    for pair in out.windows(2) {
        assert_ne!(pair[0].cmp(&pair[1]), apedb::dbio::dbfield::FieldCmp::GreaterThan);
    }
    for v in values {
        let key = Field::new("id", Type::S(Some(S::new(v))));
        assert_ne!(list.tree.search(&list.db_file, &key).unwrap(), 0);
    }
}

#[test]
fn inserting_a_record_twice_changes_nothing() {
    let mut list = List::new(ChunkyFile::new(), id_structure()).unwrap();
    for v in ["b", "a", "c"] {
        list.add_entry(id_entry(v)).unwrap();
    }
    let mut file = ChunkyFile::new();
    let points = file.add_entry_chunk(EntryChunk::new(id_entry("q"))).unwrap();
    let mut tree = LazyAVL::new(0, 0);
    tree.insert(&mut file, points[0]).unwrap();
    let second = file.add_entry_chunk(EntryChunk::new(id_entry("r"))).unwrap();
    tree.insert(&mut file, second[0]).unwrap();
    let once = file.as_bytes().to_vec();
    tree.insert(&mut file, second[0]).unwrap();
    assert_eq!(file.as_bytes(), &once[..]);
    let head = tree.head;
    tree.insert(&mut file, points[0]).unwrap();
    assert_eq!(file.as_bytes(), &once[..]);
    assert_eq!(tree.head, head);
}

/// The height of the tree at `pos`, checking on the way that each node's balance byte is its
/// height difference and lies in -1..=1.
fn checked_height(file: &ChunkyFile, pos: u64) -> i64 {
    if pos == 0 {
        return 0;
    }
    let n = node(file, pos);
    let l = checked_height(file, n.left_child);
    let r = checked_height(file, n.right_child);
    assert_eq!(n.avl_balace as i64, r - l);
    assert!((r - l).abs() <= 1);
    1 + l.max(r)
}

#[test]
fn strict_tree_stays_balanced() {
    let mut list = List::new(ChunkyFile::new(), id_structure()).unwrap();
    assert_eq!(list.tree.laze, 0);
    let mut values = Vec::new();
    for k in 0..40u32 {
        let v = format!("v{:03}", (k * 7) % 40);
        values.push(v.clone());
        list.add_entry(id_entry(&v)).unwrap();
        let h = checked_height(&list.db_file, list.tree.head);
        assert!(h <= 7);
        assert_eq!(list.tree.pending, 0);
    }
    let out: Vec<Type> = traversal(&list).into_iter().map(|f| f.value).collect();
    values.sort();
    let expected: Vec<Type> = values.iter().map(|v| Type::S(Some(S::new(v)))).collect();
    assert_eq!(out, expected);
    for v in &values {
        let key = Field::new("id", Type::S(Some(S::new(v))));
        assert_ne!(list.tree.search(&list.db_file, &key).unwrap(), 0);
    }
    for n in 0..(list.db_file.size() / 256) as u64 {
        assert_eq!(list.db_file.verify_chunk(n), Ok(true));
    }
}

#[test]
fn lazy_tree_rebalances_every_laze_plus_one_inserts() {
    let mut file = ChunkyFile::new();
    let mut tree = LazyAVL::new(0, 3);
    let mut first = true;
    for k in 0..17u32 {
        let points = file.add_entry_chunk(EntryChunk::new(id_entry(&format!("k{:02}", k)))).unwrap();
        if first {
            tree.head = points[0];
            first = false;
            continue;
        }
        tree.insert(&mut file, points[0]).unwrap();
        assert_eq!(tree.pending, (k % 4) as u8);
        if tree.pending == 0 {
            checked_height(&file, tree.head);
        }
    }
    // Ascending keys without rebalancing would make a chain 16 deep.
    assert!(checked_height(&file, tree.head) <= 5);
}

#[test]
fn oversized_value_is_rejected_and_file_unchanged() {
    let mut list = List::new(ChunkyFile::new(), id_structure()).unwrap();
    list.add_entry(id_entry("first")).unwrap();
    let size = list.db_file.size();
    let head = list.tree.head;
    let long = "v".repeat(300);
    assert_eq!(list.add_entry(id_entry(&long)), Err(DbError::ValueTooLarge));
    assert_eq!(list.db_file.size(), size);
    assert_eq!(list.tree.head, head);
    assert_eq!(list.entry_count, 1);
}

#[test]
fn schema_violation_and_empty_entry() {
    let mut list = List::new(ChunkyFile::new(), id_structure()).unwrap();
    let wrong = Entry::new(UuidV4::new(), vec![Field::new("id", Type::I(Some(I::new(1))))]).unwrap();
    assert_eq!(list.add_entry(wrong), Err(DbError::SchemaViolation));
    let empty = Entry::new(UuidV4::new(), vec![]).unwrap();
    assert_eq!(list.add_entry(empty), Err(DbError::EmptyEntry));
    assert_eq!(list.db_file.size(), 0);
    assert_eq!(list.entry_count, 0);
}

fn bool_field_of_len(len: usize) -> Field {
    // A boolean record is 19 header bytes and its id.
    Field::new(&"k".repeat(len - 19), Type::B(Some(B::new(true))))
}

fn entry_of_records(lens: &[usize]) -> Entry {
    Entry::new(UuidV4::new(), lens.iter().map(|l| bool_field_of_len(*l)).collect()).unwrap()
}

fn check_placed(file: &ChunkyFile, entry: &Entry, points: &[u64]) {
    assert_eq!(points.len(), entry.fields.len());
    for (p, f) in points.iter().zip(entry.fields.iter()) {
        let bytes = f.to_bytes().unwrap();
        assert!(in_body(file, *p, bytes.len()));
        assert_eq!(&file.as_bytes()[*p as usize..*p as usize + bytes.len()], &bytes[..]);
        assert_eq!(&node(file, *p), f);
    }
}

#[test]
fn stub_holds_251_bytes_and_252_needs_a_continued_chunk() {
    let mut file = ChunkyFile::new();
    file.add_entry_chunk(EntryChunk::new(entry_of_records(&[200, 51]))).unwrap();
    assert_eq!(file.size(), 256);
    assert_eq!(file.as_bytes()[0], 0x02);
    assert_eq!(file.as_bytes()[1], 251);

    let mut file = ChunkyFile::new();
    let entry = entry_of_records(&[200, 52]);
    let points = file.add_entry_chunk(EntryChunk::new(entry.clone())).unwrap();
    assert_eq!(file.size(), 512);
    assert_eq!(file.as_bytes()[0], 0x42);
    assert_eq!(&file.as_bytes()[1..9], &256u64.to_be_bytes());
    assert_eq!(file.as_bytes()[256], 0x02);
    assert_eq!(file.as_bytes()[257], 52);
    assert_eq!(points, vec![9, 258]);
    check_placed(&file, &entry, &points);
}

#[test]
fn records_are_never_split() {
    // A 240-byte record leaves no room for a 20-byte one in the same continued chunk.
    let mut file = ChunkyFile::new();
    let entry = entry_of_records(&[240, 20, 230]);
    let points = file.add_entry_chunk(EntryChunk::new(entry.clone())).unwrap();
    assert_eq!(points, vec![9, 256 + 2, 256 + 2 + 20]);
    assert_eq!(file.size(), 512);
    assert!(file.as_bytes()[249..253].iter().all(|b| *b == 0));
    check_placed(&file, &entry, &points);
}

#[test]
fn long_entries_span_continued_chunks() {
    let mut file = ChunkyFile::new();
    let entry = entry_of_records(&[100, 100, 100, 100, 100]);
    let points = file.add_entry_chunk(EntryChunk::new(entry.clone())).unwrap();
    // Two whole records in each of two continued chunks, the last one in a stub.
    assert_eq!(file.size(), 768);
    assert_eq!(points, vec![9, 109, 256 + 9, 256 + 109, 512 + 2]);
    check_placed(&file, &entry, &points);
    for n in 0..3 {
        assert_eq!(file.verify_chunk(n), Ok(true));
    }
}

#[test]
fn records_that_cannot_be_placed_whole_are_rejected() {
    let mut file = ChunkyFile::new();
    // A 245-byte record fits no continued chunk, and here it is not in the final stub.
    assert_eq!(
        file.add_entry_chunk(EntryChunk::new(entry_of_records(&[245, 100]))),
        Err(DbError::ValueTooLarge)
    );
    assert_eq!(file.size(), 0);
    // In the final stub it is stored whole.
    let entry = entry_of_records(&[100, 245]);
    let points = file.add_entry_chunk(EntryChunk::new(entry.clone())).unwrap();
    assert_eq!(points, vec![9, 256 + 2]);
    check_placed(&file, &entry, &points);
    // A lone 250-byte record takes one stub chunk.
    let mut file = ChunkyFile::new();
    let lone = Entry::new(UuidV4::new(), vec![Field::new("x", Type::S(Some(S::new(&"v".repeat(229)))))]).unwrap();
    let points = file.add_entry_chunk(EntryChunk::new(lone.clone())).unwrap();
    assert_eq!(file.size(), 256);
    check_placed(&file, &lone, &points);
    // 252 bytes fit no chunk at all.
    assert_eq!(
        file.add_entry_chunk(EntryChunk::new(entry_of_records(&[252]))),
        Err(DbError::ValueTooLarge)
    );
    let empty_id = Entry::new(UuidV4::new(), vec![Field::new("", Type::B(Some(B::new(true))))]).unwrap();
    assert_eq!(file.add_entry_chunk(EntryChunk::new(empty_id)), Err(DbError::EmptyId));
    assert_eq!(file.size(), 256);
}

#[test]
fn insertion_points_lie_in_chunk_bodies() {
    let structure = Structure::new(
        "s",
        vec![Requirement::new("id", TypeTag::S), Requirement::new("blob", TypeTag::S)],
    );
    let mut file = ChunkyFile::new();
    file.add_dbhead_chunk(DbHeadChunk::new("db", "me")).unwrap();
    let fields = vec![
        Field::new("id", Type::S(Some(S::new("one")))),
        Field::new("blob", Type::S(Some(S::new(&"b".repeat(200))))),
        Field::new("blob", Type::S(Some(S::new(&"c".repeat(150))))),
        Field::new("id", Type::S(Some(S::new("two")))),
    ];
    assert!(structure.meets(&fields));
    let base = file.size() as u64;
    let entry = Entry::new(UuidV4::new(), fields).unwrap();
    let points = file.add_entry_chunk(EntryChunk::new(entry.clone())).unwrap();
    assert_eq!(points[0], base + 9);
    check_placed(&file, &entry, &points);
}

#[test]
fn raw_chunks_and_counts() {
    let chunk = Chunk { flags: 0x80, variant: 0x01, data: vec![1, 2, 3], number: 0 };
    let bytes = chunk.to_bytes().unwrap();
    assert_eq!(bytes.len(), 256);
    assert_eq!(&bytes[..4], &[0x81, 1, 2, 3]);
    assert!(bytes[4..253].iter().all(|b| *b == 0));
    assert_eq!(apedb::crc24::compute(&bytes), 0);
    let big = Chunk { flags: 0, variant: 0, data: vec![0; 253], number: 0 };
    assert_eq!(big.to_bytes(), Err(DbError::ValueTooLarge));
    assert_eq!(chunk_count_of(512), Ok(2));
    assert_eq!(chunk_count_of(500), Err(DbError::Corruption));
    assert_eq!(chunk_offset(3), Some(768));
    assert_eq!(chunk_offset(u64::MAX), None);
    assert!(ChunkyFile::from_bytes(vec![0; 300]).is_err());
    assert_eq!(ChunkyFile::from_bytes(vec![0; 512]).unwrap().size(), 512);
}

#[test]
fn add_chunk_dispatches_by_variant() {
    let mut file = ChunkyFile::new();
    let r = file.add_chunk(&ChunkTypes::DbHead(DbHeadChunk::new("n", "o"))).unwrap();
    assert_eq!(r.unwrap().len(), 7);
    let r = file.add_chunk(&ChunkTypes::Entry(EntryChunk::new(id_entry("x")))).unwrap();
    assert_eq!(r.unwrap(), vec![256 + 2]);
    assert_eq!(file.as_bytes()[256], 0x02);
}

use apedb::crc24;
use apedb::dbio::dbcrc24::ApeCrc24;
use apedb::dbio::dbchunk::{ChunkyFile, EntryChunk, DbHeadChunk};
use apedb::dbio::dblist::Entry;
use apedb::dbio::dbfield::Field;
use apedb::dbio::dbuuid::UuidV4;
use apedb::apetypes::{Type, S, I};

fn with_crc(data: &[u8]) -> Vec<u8> {
    let crc24 = ApeCrc24::new(data);
    let mut out = data.to_vec();
    out.extend_from_slice(&crc24.to_be_bytes());
    out
}

#[test]
// Test to see if a crc can detect valid data
fn test_crc24_valid_data() {
    let hello = b"Hello World!";

    let crc24 = ApeCrc24::new(hello);

    let mut data = Vec::<u8>::new();

    data.extend_from_slice(hello);
    data.extend_from_slice(&crc24.to_be_bytes());

    assert_eq!(ApeCrc24::verify(&data), true);
}

#[test]
// Test to see if a crc can detect invalid data
fn test_crc24_invalid_data() {
    let hello = b"Hello World!";

    let crc24 = ApeCrc24::new(hello);

    let mut data = Vec::<u8>::new();

    data.extend_from_slice(hello);

    data[3] = 0xFF; // Intentionally modify the string to make it invalid

    data.extend_from_slice(&crc24.to_be_bytes());

    assert_eq!(ApeCrc24::verify(&data), false);
}

#[test]
fn crc_of_bytes_followed_by_their_crc_is_zero() {
    let inputs: Vec<Vec<u8>> = vec![
        vec![],
        vec![0],
        vec![0xFF; 7],
        b"123456789".to_vec(),
        (0..=252u8).collect(),
        (0..1000u32).map(|k| (k * 7 + 3) as u8).collect(),
    ];
    for input in inputs {
        assert_eq!(crc24::compute(&with_crc(&input)), 0);
        assert!(ApeCrc24::verify(&with_crc(&input)));
    }
}

#[test]
fn crc_of_check_string() {
    // The CRC-24 with polynomial 0xBD80DE and initial value 0xFFFFFF of the ASCII digits 1 to 9.
    let crc = crc24::compute(b"123456789");
    assert!(crc < 0x100_0000);
    assert_eq!(crc, crc24::compute(b"123456789"));
    assert_ne!(crc, crc24::compute(b"123456780"));
    assert_eq!(crc24::to_be_bytes(0x00ABCDEF), [0xAB, 0xCD, 0xEF]);
}

#[test]
fn crc_of_empty_input_is_initial_value() {
    assert_eq!(crc24::compute(&[]), 0x00FF_FFFF);
}

fn sample_file() -> ChunkyFile {
    let mut file = ChunkyFile::new();
    file.add_dbhead_chunk(DbHeadChunk::new("Ape Database!", "root")).unwrap();
    let long = "x".repeat(200);
    let fields = vec![
        Field::new("id", Type::S(Some(S::new("Hello")))),
        Field::new("name", Type::S(Some(S::new(&long)))),
        Field::new("count", Type::I(Some(I::new(42)))),
    ];
    let entry = Entry::new(UuidV4::new(), fields).unwrap();
    file.add_entry_chunk(EntryChunk::new(entry)).unwrap();
    file
}

#[test]
fn every_written_chunk_verifies() {
    let file = sample_file();
    assert_eq!(file.size() % 256, 0);
    let count = (file.size() / 256) as u64;
    assert!(count >= 3);
    for n in 0..count {
        assert_eq!(file.verify_chunk(n), Ok(true));
        let start = (n as usize) * 256;
        assert_eq!(crc24::compute(&file.as_bytes()[start..start + 256]), 0);
    }
    assert!(file.verify_chunk(count).is_err());
}

#[test]
fn corrupting_one_byte_fails_only_that_chunk() {
    let file = sample_file();
    let count = file.size() / 256;
    for target in 0..count {
        let mut bytes = file.as_bytes().to_vec();
        bytes[target * 256 + 100] ^= 0x01;
        let corrupt = ChunkyFile::from_bytes(bytes).unwrap();
        for n in 0..count {
            assert_eq!(corrupt.verify_chunk(n as u64), Ok(n != target));
        }
    }
}

use bencode::chunks::{ChunkLengthError, Hashes, CHUNK_SIZE};
use bencode::decode::decode;
use bencode::metainfo::{Field, Key, ProjectionError, Torrent};
use bencode::value::Value;

fn text(s: &str) -> Value {
    Value::ByteString(s.as_bytes().to_vec())
}

fn pieces(n: usize) -> Vec<u8> {
    (0..n).map(|i| i as u8).collect()
}

fn info(extra: Vec<(&str, Value)>, piece_bytes: usize) -> Value {
    let mut entries = vec![
        ("name", text("file.txt")),
        ("piece length", Value::Integer(16384)),
        ("pieces", Value::ByteString(pieces(piece_bytes))),
    ];
    entries.extend(extra);
    Value::Dictionary(entries.into_iter().map(|(k, v)| (k.as_bytes().to_vec(), v)).collect())
}

fn torrent(info: Value) -> Value {
    Value::Dictionary(vec![
        (b"announce".to_vec(), text("http://tracker.example/announce")),
        (b"info".to_vec(), info),
    ])
}

fn file(length: i64, path: &[&str]) -> Value {
    Value::Dictionary(vec![
        (b"length".to_vec(), Value::Integer(length)),
        (b"path".to_vec(), Value::List(path.iter().map(|s| text(s)).collect())),
    ])
}

#[test]
fn hashes_split_into_chunks() {
    let raw = pieces(40);
    let h = Hashes::from_bytes(&raw).unwrap();
    assert_eq!(h.0.len(), 2);
    assert_eq!(h.0[0].to_vec(), raw[..CHUNK_SIZE].to_vec());
    assert_eq!(h.0[1].to_vec(), raw[CHUNK_SIZE..].to_vec());
    assert_eq!(h.to_bytes(), raw);
}

#[test]
fn hashes_reject_ragged_length() {
    let raw = pieces(41);
    assert_eq!(Hashes::from_bytes(&raw), Err(ChunkLengthError { length: 41 }));
    assert_eq!(Hashes::from_bytes(&[]).unwrap().0.len(), 0);
}

#[test]
fn single_file_torrent() {
    let v = torrent(info(vec![("length", Value::Integer(1234))], 40));
    let t = Torrent::from_value(&v).unwrap();
    assert_eq!(t.announce, "http://tracker.example/announce");
    assert_eq!(t.info.name, "file.txt");
    assert_eq!(t.info.piece_length, 16384);
    assert_eq!(t.info.pieces.0.len(), 2);
    assert!(matches!(t.info.key, Key::SingleFile { length: 1234 }));
}

#[test]
fn multi_file_torrent() {
    let files = Value::List(vec![file(10, &["a", "b.txt"]), file(20, &["c"])]);
    let v = torrent(info(vec![("files", files)], 20));
    let t = Torrent::from_value(&v).unwrap();
    match t.info.key {
        Key::MultiFile { files } => {
            assert_eq!(files.len(), 2);
            assert_eq!(files[0].length, 10);
            assert_eq!(files[0].path, vec!["a".to_string(), "b.txt".to_string()]);
            assert_eq!(files[1].length, 20);
            assert_eq!(files[1].path, vec!["c".to_string()]);
        }
        Key::SingleFile { .. } => panic!("expected a multi-file layout"),
    }
}

#[test]
fn both_length_and_files_rejected() {
    let files = Value::List(vec![file(10, &["a"])]);
    let v = torrent(info(vec![("length", Value::Integer(1)), ("files", files)], 20));
    assert!(matches!(Torrent::from_value(&v), Err(ProjectionError::BothLengthAndFiles)));
}

#[test]
fn neither_length_nor_files_rejected() {
    let v = torrent(info(vec![], 20));
    assert!(matches!(Torrent::from_value(&v), Err(ProjectionError::NeitherLengthNorFiles)));
}

#[test]
fn ragged_pieces_rejected() {
    let v = torrent(info(vec![("length", Value::Integer(1))], 41));
    assert!(matches!(
        Torrent::from_value(&v),
        Err(ProjectionError::BadPieces(ChunkLengthError { length: 41 }))
    ));
}

#[test]
fn wrong_shapes_rejected() {
    assert!(matches!(Torrent::from_value(&Value::Integer(1)), Err(ProjectionError::NotADictionary)));
    let v = Value::Dictionary(vec![(b"announce".to_vec(), text("x"))]);
    assert!(matches!(Torrent::from_value(&v), Err(ProjectionError::Missing(Field::Info))));
    let v = Value::Dictionary(vec![
        (b"announce".to_vec(), Value::ByteString(vec![0xff, 0xfe])),
        (b"info".to_vec(), info(vec![("length", Value::Integer(1))], 20)),
    ]);
    assert!(matches!(Torrent::from_value(&v), Err(ProjectionError::WrongKind(Field::Announce))));
    let v = torrent(info(vec![("length", Value::Integer(-1))], 20));
    assert!(matches!(Torrent::from_value(&v), Err(ProjectionError::WrongKind(Field::Length))));
}

#[test]
fn decoded_metainfo_projects() {
    let mut raw = b"d8:announce3:url4:infod6:lengthi5e4:name1:n12:piece lengthi2e6:pieces20:".to_vec();
    raw.extend(pieces(20));
    raw.extend(b"ee");
    let (v, rest) = decode(&raw).unwrap();
    assert!(rest.is_empty());
    let t = Torrent::from_value(&v).unwrap();
    assert_eq!(t.announce, "url");
    assert_eq!(t.info.name, "n");
    assert_eq!(t.info.piece_length, 2);
    assert_eq!(t.info.pieces.to_bytes(), pieces(20));
    assert!(matches!(t.info.key, Key::SingleFile { length: 5 }));
}

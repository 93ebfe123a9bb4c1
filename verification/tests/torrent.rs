use bittorrent::crypto::Sha1;
use bittorrent::torrent::{Torrent, TorrentError};
use bittorrent::value::Value;

fn info_single_file() -> Value {
    let mut hashes = vec![1u8; 20];
    hashes.extend(vec![2u8; 20]);
    Value::dictionary()
        .with_entry("name", Value::string("file.txt"))
        .with_entry("piece length", Value::Integer(32768))
        .with_entry("length", Value::Integer(40000))
        .with_entry("pieces", Value::String(hashes))
}

#[test]
fn reads_a_single_file_torrent() {
    let info = info_single_file();
    let expected_hash = Sha1::of_value(&info);
    let value = Value::dictionary().with_entry("announce", Value::string("x")).with_entry("info", info);
    let torrent = Torrent::from_value(&value).unwrap();
    assert_eq!(torrent.info_hash, expected_hash);
    assert_eq!(torrent.name, "file.txt");
    assert_eq!(torrent.piece_size, 32768);
    assert_eq!(torrent.total_size, 40000);
    assert_eq!(torrent.pieces, vec![Sha1([1u8; 20]), Sha1([2u8; 20])]);
}

#[test]
fn sums_the_lengths_of_the_files() {
    let files = Value::list()
        .with_value(Value::dictionary().with_entry("length", Value::Integer(10)))
        .with_value(Value::dictionary().with_entry("length", Value::Integer(32)));
    let info = Value::dictionary()
        .with_entry("name", Value::string("dir"))
        .with_entry("piece length", Value::Integer(16))
        .with_entry("files", files)
        .with_entry("pieces", Value::String(vec![0u8; 60]));
    let value = Value::dictionary().with_entry("info", info);
    let torrent = Torrent::from_value(&value).unwrap();
    assert_eq!(torrent.total_size, 42);
    assert_eq!(torrent.pieces.len(), 3);
}

#[test]
fn torrent_errors() {
    assert_eq!(Torrent::from_value(&Value::Integer(1)).unwrap_err(), TorrentError::NotADictionary);
    assert_eq!(Torrent::from_value(&Value::dictionary()).unwrap_err(), TorrentError::MissingEntry);
    let bad_name = Value::dictionary().with_entry("info", Value::dictionary().with_entry("name", Value::Integer(3)));
    assert_eq!(Torrent::from_value(&bad_name).unwrap_err(), TorrentError::NotAString);
    let not_utf8 = Value::dictionary()
        .with_entry("info", Value::dictionary().with_entry("name", Value::String(vec![0xff, 0xfe])));
    assert_eq!(Torrent::from_value(&not_utf8).unwrap_err(), TorrentError::InvalidName);
    let negative = Value::dictionary().with_entry(
        "info",
        Value::dictionary().with_entry("name", Value::string("a")).with_entry("piece length", Value::Integer(-1)),
    );
    assert_eq!(Torrent::from_value(&negative).unwrap_err(), TorrentError::SizeOutOfRange);
    let text_size = Value::dictionary().with_entry(
        "info",
        Value::dictionary().with_entry("name", Value::string("a")).with_entry("piece length", Value::string("1")),
    );
    assert_eq!(Torrent::from_value(&text_size).unwrap_err(), TorrentError::NotAnInteger);
    let files_not_list = Value::dictionary().with_entry(
        "info",
        Value::dictionary()
            .with_entry("name", Value::string("a"))
            .with_entry("piece length", Value::Integer(1))
            .with_entry("files", Value::Integer(1)),
    );
    assert_eq!(Torrent::from_value(&files_not_list).unwrap_err(), TorrentError::NotAList);
    let overflow = Value::dictionary().with_entry(
        "info",
        Value::dictionary()
            .with_entry("name", Value::string("a"))
            .with_entry("piece length", Value::Integer(1))
            .with_entry(
                "files",
                Value::list()
                    .with_value(Value::dictionary().with_entry("length", Value::Integer(i64::MAX)))
                    .with_value(Value::dictionary().with_entry("length", Value::Integer(i64::MAX)))
                    .with_value(Value::dictionary().with_entry("length", Value::Integer(i64::MAX))),
            ),
    );
    assert_eq!(Torrent::from_value(&overflow).unwrap_err(), TorrentError::SizeOutOfRange);
    let bad_hashes = Value::dictionary().with_entry(
        "info",
        Value::dictionary()
            .with_entry("name", Value::string("a"))
            .with_entry("piece length", Value::Integer(1))
            .with_entry("length", Value::Integer(1))
            .with_entry("pieces", Value::String(vec![0u8; 21])),
    );
    assert_eq!(Torrent::from_value(&bad_hashes).unwrap_err(), TorrentError::BadPieceHashes);
}

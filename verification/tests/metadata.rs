use sha1::{Digest, Sha1};
use sweet_magnet::bencode::{decode, encode, Bencode};
use sweet_magnet::metadata::{
    parse_metadata, FileDict, InfoDict, MetadataError, TorrentFile, TorrentMetadata,
};

fn text(s: &str) -> Bencode {
    Bencode::Bytes(s.as_bytes().to_vec())
}

fn single_info() -> Bencode {
    Bencode::dict()
        .with("name", text("file.bin"))
        .with("piece length", Bencode::Int(4))
        .with("pieces", Bencode::Bytes((0..60).collect()))
        .with("length", Bencode::Int(10))
}

fn file(length: i64, path: Vec<Bencode>) -> Bencode {
    Bencode::dict()
        .with("length", Bencode::Int(length))
        .with("path", Bencode::List(path))
}

fn multi_info() -> Bencode {
    Bencode::dict()
        .with("name", text("dir"))
        .with("piece length", Bencode::Int(4))
        .with("pieces", Bencode::Bytes(vec![0; 60]))
        .with(
            "files",
            Bencode::List(vec![
                file(3, vec![text("a"), text("b")]),
                file(0, vec![text("empty")]),
                file(7, vec![text("c")]),
            ]),
        )
}

fn torrent(info: Bencode) -> Vec<u8> {
    encode(&Bencode::dict().with("announce", text("x")).with("info", info))
}

fn peer_error(info: &Bencode) -> MetadataError {
    parse_metadata(&encode(info), [0; 20], "").unwrap_err()
}

#[test]
fn single_file_torrent_is_read() {
    let metadata = TorrentMetadata::from_torrent_file(&torrent(single_info())).unwrap();
    assert_eq!(metadata.name, "file.bin");
    assert_eq!(metadata.piece_length, 4);
    assert_eq!(metadata.pieces.len(), 3);
    assert_eq!(metadata.pieces[2][0], 40);
    assert_eq!(metadata.total_length, 10);
    assert!(metadata.is_single_file);
    assert_eq!(metadata.files.len(), 1);
    assert_eq!(metadata.files[0].path, vec!["file.bin"]);
    assert_eq!((metadata.files[0].length, metadata.files[0].offset), (10, 0));
    let expected: [u8; 20] = Sha1::digest(encode(&single_info())).into();
    assert_eq!(metadata.info_hash, expected);
}

#[test]
fn info_hash_is_that_of_the_bytes_in_the_file() {
    let bytes = "d4:infod6:lengthi1e4:name1:n12:piece lengthi1e6:pieces20:aaaaaaaaaaaaaaaaaaaaee";
    let metadata = TorrentMetadata::from_torrent_file(bytes.as_bytes()).unwrap();
    let info = &bytes.as_bytes()[7..bytes.len() - 1];
    let expected: [u8; 20] = Sha1::digest(info).into();
    assert_eq!(metadata.info_hash, expected);
}

#[test]
fn multi_file_torrent_is_laid_out() {
    let metadata = TorrentMetadata::from_torrent_file(&torrent(multi_info())).unwrap();
    assert!(!metadata.is_single_file);
    assert_eq!(metadata.total_length, 10);
    let files: Vec<(Vec<String>, u64, u64)> = metadata
        .files
        .iter()
        .map(|f| (f.path.clone(), f.length, f.offset))
        .collect();
    assert_eq!(files[0], (vec!["dir".into(), "a".into(), "b".into()], 3, 0));
    assert_eq!(files[1], (vec!["dir".into(), "empty".into()], 0, 3));
    assert_eq!(files[2], (vec!["dir".into(), "c".into()], 7, 3));
}

#[test]
fn metadata_from_peers_keeps_the_info_hash() {
    let metadata = parse_metadata(&encode(&single_info()), [9; 20], "name").unwrap();
    assert_eq!(metadata.info_hash, [9; 20]);
    assert_eq!(metadata.name, "file.bin");
}

#[test]
fn piece_hashes_may_be_a_list_of_numbers() {
    let numbers = (0..20).map(Bencode::Int).collect();
    let info = single_info().with("pieces", Bencode::List(numbers));
    let metadata = parse_metadata(&encode(&info), [0; 20], "").unwrap();
    assert_eq!(metadata.pieces.len(), 1);
    assert_eq!(metadata.pieces[0][19], 19);
}

#[test]
fn length_comes_before_files() {
    let info = multi_info().with("length", Bencode::Int(5));
    let metadata = parse_metadata(&encode(&info), [0; 20], "").unwrap();
    assert!(metadata.is_single_file);
    assert_eq!(metadata.total_length, 5);
}

#[test]
fn errors_of_torrent_files() {
    let from = |bytes: &[u8]| TorrentMetadata::from_torrent_file(bytes).unwrap_err();
    assert_eq!(from(&[]), MetadataError::InvalidTorrent);
    assert_eq!(from("i5e".as_bytes()), MetadataError::InvalidTorrent);
    assert_eq!(from("d1:\u{1}i5e".as_bytes()), MetadataError::InvalidTorrent);
    assert_eq!(from(&[100, 49, 58, 255, 105, 53, 101, 101]), MetadataError::InvalidTorrent);
    assert_eq!(from("de".as_bytes()), MetadataError::NoInfo);
    assert_eq!(from("d4:infoi5ee".as_bytes()), MetadataError::InvalidInfo);
}

#[test]
fn errors_of_info_dictionaries() {
    assert_eq!(
        peer_error(&single_info().with("pieces", Bencode::Bytes(vec![0; 21]))),
        MetadataError::InvalidPieceHash
    );
    let no_files = Bencode::dict()
        .with("name", text("n"))
        .with("piece length", Bencode::Int(1))
        .with("pieces", text(""));
    assert_eq!(peer_error(&no_files), MetadataError::NoFiles);
    assert_eq!(
        peer_error(&single_info().with("length", Bencode::Int(-1))),
        MetadataError::InvalidMetadata
    );
    assert_eq!(
        peer_error(&single_info().with("name", Bencode::Bytes(vec![255]))),
        MetadataError::InvalidMetadata
    );
    assert_eq!(
        peer_error(&single_info().with("files", Bencode::List(vec![Bencode::Int(1)]))),
        MetadataError::InvalidMetadata
    );
    let huge = file(i64::MAX, vec![text("x")]);
    let huge2 = file(i64::MAX, vec![text("y")]);
    let more = file(2, vec![text("z")]);
    assert_eq!(
        peer_error(&multi_info().with("files", Bencode::List(vec![huge, huge2, more]))),
        MetadataError::TooLong
    );
    assert_eq!(
        parse_metadata("x".as_bytes(), [0; 20], "").unwrap_err(),
        MetadataError::InvalidMetadata
    );
}

#[test]
fn texts_of_metadata_errors() {
    let texts: Vec<String> = [
        MetadataError::InvalidTorrent,
        MetadataError::NoInfo,
        MetadataError::InvalidInfo,
        MetadataError::InvalidMetadata,
        MetadataError::InvalidPieceHash,
        MetadataError::NoFiles,
        MetadataError::TooLong,
    ]
    .iter()
    .map(|e| e.message())
    .collect();
    assert_eq!(
        texts,
        vec![
            "Failed to parse torrent file",
            "No 'info' dictionary in torrent file",
            "Failed to parse info dictionary",
            "Failed to parse metadata",
            "Invalid piece hash length",
            "Invalid torrent structure - missing files information",
            "Invalid torrent structure - files are too long",
        ]
    );
}

fn metadata(piece_length: usize, pieces: usize, lengths: &[u64]) -> TorrentMetadata {
    let mut files = Vec::new();
    let mut offset = 0;
    for length in lengths {
        files.push(TorrentFile {
            path: vec!["f".to_string()],
            length: *length,
            offset,
        });
        offset += length;
    }
    TorrentMetadata {
        info_hash: [0; 20],
        name: "n".to_string(),
        piece_length,
        pieces: vec![[0; 20]; pieces],
        total_length: offset,
        files,
        is_single_file: false,
    }
}

#[test]
fn piece_lengths_add_up() {
    assert_eq!(metadata(4, 3, &[10]).get_piece_lengths(), vec![4, 4, 2]);
    assert_eq!(metadata(5, 2, &[10]).get_piece_lengths(), vec![5, 5]);
    assert_eq!(metadata(16, 1, &[10]).get_piece_lengths(), vec![10]);
    assert_eq!(metadata(0, 0, &[10]).get_piece_lengths(), Vec::<usize>::new());
}

#[test]
fn parts_fill_the_piece() {
    let m = metadata(4, 3, &[3, 0, 6, 1]);
    let lengths = m.get_piece_lengths();
    for i in 0..3 {
        let parts = m.get_files_for_piece(i);
        let sum: u64 = parts.iter().map(|p| p.2).sum();
        assert_eq!(sum, lengths[i] as u64);
    }
    assert_eq!(m.get_files_for_piece(0), vec![(0, 0, 3), (1, 0, 0), (2, 0, 1)]);
    assert_eq!(m.get_files_for_piece(1), vec![(2, 1, 4)]);
    assert_eq!(m.get_files_for_piece(2), vec![(2, 5, 1), (3, 0, 1)]);
    assert_eq!(m.get_files_for_piece(3), vec![]);
}

#[test]
fn parts_over_pieces_make_the_file() {
    let lengths = [3, 0, 6, 1, 9];
    let m = metadata(4, 5, &lengths);
    for (file, length) in lengths.iter().enumerate().filter(|f| *f.1 > 0) {
        let mut reached = 0;
        for piece in 0..5 {
            for part in m.get_files_for_piece(piece).iter().filter(|p| p.0 == file) {
                assert_eq!(part.1, reached);
                reached += part.2;
            }
        }
        assert_eq!(reached, *length);
    }
}

const INFO: &str = "6:lengthi3e4:name1:x12:piece lengthi4e6:pieces0:";

fn parse(bytes: &str) -> Result<TorrentMetadata, MetadataError> {
    parse_metadata(bytes.as_bytes(), [0; 20], "")
}

#[test]
fn repeated_keys_of_metadata_are_refused() {
    assert_eq!(parse(&format!("d{}e", INFO)).unwrap().total_length, 3);
    for entry in [
        "6:lengthi3e",
        "4:name1:x",
        "12:piece lengthi4e",
        "6:pieces0:",
        "5:filesle5:filesle",
        "li1eei0e",
    ] {
        let error = parse(&format!("d{}{}e", INFO, entry)).unwrap_err();
        assert_eq!(error, MetadataError::InvalidMetadata);
    }
    assert!(parse(&format!("d{}1:ai1e1:ai2ee", INFO)).is_ok());
    assert!(parse(&format!("d{}1:ad6:lengthi1e6:lengthi2eee", INFO)).is_ok());
    let files = |entry: &str| {
        let file = format!("d6:lengthi3e4:pathl1:ae{}e", entry);
        parse(&format!("d5:filesl{}e4:name1:x12:piece lengthi4e6:pieces0:e", file))
    };
    assert!(files("").is_ok());
    assert!(files("1:xi0e1:xi0e").is_ok());
    assert_eq!(files("6:lengthi3e").unwrap_err(), MetadataError::InvalidMetadata);
    assert_eq!(files("4:pathle").unwrap_err(), MetadataError::InvalidMetadata);
}

#[test]
fn torrent_files_may_repeat_keys() {
    let torrent = format!("d4:infoi1e4:infod{}6:lengthi9eee", INFO);
    let metadata = TorrentMetadata::from_torrent_file(torrent.as_bytes()).unwrap();
    assert_eq!(metadata.total_length, 9);
    let listed = "dli105ei110ei102ei111eede";
    assert_eq!(
        TorrentMetadata::from_torrent_file(format!("{}e", listed).as_bytes()).unwrap_err(),
        MetadataError::InvalidTorrent
    );
}

#[test]
fn info_may_be_a_list() {
    let metadata = parse("l1:xi4e0:i3ee").unwrap();
    assert_eq!((metadata.name.as_str(), metadata.piece_length, metadata.total_length), ("x", 4, 3));
    assert!(metadata.is_single_file);
    let files = "ld6:lengthi1e4:pathl1:aeee";
    assert_eq!(parse(&format!("l1:xi4e0:i3e{}i0ee", files)).unwrap().total_length, 3);
    assert!(parse("l1:xi4e0:i3ei0ee").is_err());
    assert!(parse("l1:xi4e0:e").is_err());
    assert!(parse("l1:xi4e0:i3eld6:lengthi1e6:lengthi1e4:pathleeee").is_err());
    assert!(parse("l1:xi4e0:0:e").is_err());
    let torrent = "d4:infol1:xi4e0:i3eee".as_bytes();
    assert_eq!(TorrentMetadata::from_torrent_file(torrent).unwrap().total_length, 3);
}

#[test]
fn dictionaries_are_read_from_values() {
    let entry = FileDict::from_bencode(&file(3, vec![text("é")])).unwrap();
    assert_eq!((entry.length, entry.path), (3, vec!["é".to_string()]));
    assert!(FileDict::from_bencode(&file(-3, vec![])).is_none());
    assert!(FileDict::from_bencode(&Bencode::dict()).is_none());
    let info = InfoDict::from_bencode(&decode(&encode(&multi_info())).unwrap()).unwrap();
    assert_eq!(info.length, None);
    assert_eq!(info.files.as_ref().unwrap().len(), 3);
    assert!(info.is_countable());
    assert!(TorrentMetadata::from_info(info, [1; 20]).is_ok());
}

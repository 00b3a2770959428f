//! Torrent metadata handling
use crate::bencode::{
    decode, decoded, encode, encoded, is_shallow, lemma_field_within, tree_of, Bencode, Tree,
    MAX_DEPTH,
};
use crate::digest::{sha1, sha1_of};
use crate::entries::{
    check_repeated, check_string_keys, field_at, find_field, find_item, find_value_end,
    has_string_keys, is_first_with, is_plain, is_repeated, is_twice, item_at, item_start,
    law_repeated_keys_are_found, lemma_end_from, lemma_field_stands, lemma_item_stands,
    lemma_marks, lemma_repeated_keys, list_bytes, raw_bytes, stands_at, value_end, Raw,
};
use crate::text::texts;
use crate::wire::id_at;
use vstd::prelude::*;
use vstd::string::*;
use vstd::utf8::encode_utf8;

verus! {

/// Why there is no metadata.
#[derive(Debug, Clone, Copy, PartialEq, Eq, Structural)]
pub enum MetadataError {
    /// A torrent file is a dictionary whose keys are texts.
    InvalidTorrent,
    /// The torrent file has no info dictionary.
    NoInfo,
    /// What a torrent file has under `info` is no info dictionary.
    InvalidInfo,
    /// What peers sent is no info dictionary.
    InvalidMetadata,
    /// The piece hashes do not have twenty bytes each.
    InvalidPieceHash,
    /// There is neither a length nor a list of files.
    NoFiles,
    /// The lengths of the files add up to more than can be counted.
    TooLong,
}

impl MetadataError {
    /// What the error says.
    pub open spec fn text(self) -> Seq<char> {
        match self {
            MetadataError::InvalidTorrent => "Failed to parse torrent file"@,
            MetadataError::NoInfo => "No 'info' dictionary in torrent file"@,
            MetadataError::InvalidInfo => "Failed to parse info dictionary"@,
            MetadataError::InvalidMetadata => "Failed to parse metadata"@,
            MetadataError::InvalidPieceHash => "Invalid piece hash length"@,
            MetadataError::NoFiles => "Invalid torrent structure - missing files information"@,
            MetadataError::TooLong => "Invalid torrent structure - files are too long"@,
        }
    }

    /// What the error says
    pub fn message(&self) -> (s: String)
        ensures
            s@ == self.text(),
    {
        match self {
            MetadataError::InvalidTorrent => "Failed to parse torrent file".to_string(),
            MetadataError::NoInfo => "No 'info' dictionary in torrent file".to_string(),
            MetadataError::InvalidInfo => "Failed to parse info dictionary".to_string(),
            MetadataError::InvalidMetadata => "Failed to parse metadata".to_string(),
            MetadataError::InvalidPieceHash => "Invalid piece hash length".to_string(),
            MetadataError::NoFiles =>
                "Invalid torrent structure - missing files information".to_string(),
            MetadataError::TooLong =>
                "Invalid torrent structure - files are too long".to_string(),
        }
    }
}

/// An entry of the file list of an info dictionary, as a value.
#[verifier::ext_equal]
pub struct FileEntry {
    pub length: nat,
    pub path: Seq<Seq<char>>,
}

/// An info dictionary, as a value.
#[verifier::ext_equal]
pub struct Info {
    pub name: Seq<char>,
    pub piece_length: nat,
    pub pieces: Seq<u8>,
    pub length: Option<nat>,
    pub files: Option<Seq<FileEntry>>,
}

/// Raw file entry from a .torrent file
#[derive(Debug)]
pub struct FileDict {
    pub length: u64,
    pub path: Vec<String>,
}

impl View for FileDict {
    type V = FileEntry;

    open spec fn view(&self) -> FileEntry {
        FileEntry { length: self.length as nat, path: texts(self.path@) }
    }
}

/// Raw info dictionary from a .torrent file
#[derive(Debug)]
pub struct InfoDict {
    pub name: String,
    pub piece_length: usize,
    pub pieces: Vec<u8>,
    pub length: Option<u64>,
    pub files: Option<Vec<FileDict>>,
}

/// The values of a list of file entries.
pub open spec fn entries(files: Seq<FileDict>) -> Seq<FileEntry> {
    files.map_values(|f: FileDict| f@)
}

impl View for InfoDict {
    type V = Info;

    open spec fn view(&self) -> Info {
        Info {
            name: self.name@,
            piece_length: self.piece_length as nat,
            pieces: self.pieces@,
            length: match self.length {
                Some(n) => Some(n as nat),
                None => None,
            },
            files: match self.files {
                Some(files) => Some(entries(files@)),
                None => None,
            },
        }
    }
}

/// The texts in a list of texts.
pub open spec fn path_of(tree: Tree) -> Option<Seq<Seq<char>>> {
    match tree {
        Tree::List(l) => if forall|i: int| 0 <= i < l.len() ==> (#[trigger] l[i]).text() is Some {
            Some(Seq::new(l.len(), |i: int| l[i].text()->0))
        } else {
            None
        },
        _ => None,
    }
}

/// The file entry that a bencoded value is.
pub open spec fn file_of(tree: Tree) -> Option<FileEntry> {
    if tree.has_text_keys() {
        match (tree.named("length"@), tree.named("path"@)) {
            (Some(length), Some(path)) => match (length.number(u64::MAX as nat), path_of(path)) {
                (Some(length), Some(path)) => Some(FileEntry { length, path }),
                _ => None,
            },
            _ => None,
        }
    } else {
        None
    }
}

/// The file entries in a list of such.
pub open spec fn files_of(tree: Tree) -> Option<Seq<FileEntry>> {
    match tree {
        Tree::List(l) => if forall|i: int| 0 <= i < l.len() ==> file_of(#[trigger] l[i]) is Some {
            Some(Seq::new(l.len(), |i: int| file_of(l[i])->0))
        } else {
            None
        },
        _ => None,
    }
}

/// The info dictionary that these values make. A length and a file list may be
/// missing.
pub open spec fn info_from(
    name: Tree,
    piece_length: Tree,
    pieces: Tree,
    length: Option<Tree>,
    files: Option<Tree>,
) -> Option<Info> {
    let length = match length {
        Some(t) => match t.number(u64::MAX as nat) {
            Some(n) => Some(Some(n)),
            None => None,
        },
        None => Some(None),
    };
    let files = match files {
        Some(t) => match files_of(t) {
            Some(f) => Some(Some(f)),
            None => None,
        },
        None => Some(None),
    };
    match (
        name.text(),
        piece_length.number(usize::MAX as nat),
        pieces.byte_list(),
        length,
        files,
    ) {
        (Some(name), Some(piece_length), Some(pieces), Some(length), Some(files)) => Some(
            Info { name, piece_length, pieces, length, files },
        ),
        _ => None,
    }
}

/// The info dictionary that a bencoded value is: a dictionary whose keys are
/// texts, or a list of the values in the order name, piece length, pieces,
/// length, files. Of a list only the files may be missing, and what follows
/// them is not looked at.
pub open spec fn info_of(tree: Tree) -> Option<Info> {
    match tree {
        Tree::Dict(_) => match (
            tree.named("name"@),
            tree.named("piece length"@),
            tree.named("pieces"@),
        ) {
            (Some(name), Some(piece_length), Some(pieces)) => if tree.has_text_keys() {
                info_from(
                    name,
                    piece_length,
                    pieces,
                    tree.named("length"@),
                    tree.named("files"@),
                )
            } else {
                None
            },
            _ => None,
        },
        Tree::List(l) => if l.len() >= 4 {
            info_from(
                l[0],
                l[1],
                l[2],
                Some(l[3]),
                if l.len() > 4 {
                    Some(l[4])
                } else {
                    None
                },
            )
        } else {
            None
        },
        _ => None,
    }
}

/// Neither key of a file entry occurs twice in the entries from `at` on.
pub open spec fn has_file_keys_once(data: Seq<u8>, at: nat) -> bool {
    &&& has_string_keys(data, at)
    &&& !is_repeated(data, at, "length"@)
    &&& !is_repeated(data, at, "path"@)
}

/// The same of all dictionaries in a list from `at` on.
pub open spec fn list_has_file_keys_once(data: Seq<u8>, at: nat) -> bool
    decreases data.len() - at,
    via list_has_file_keys_once_decreases
{
    if at >= data.len() || data[at as int] == 101 {
        true
    } else {
        &&& data[at as int] == 100 ==> has_file_keys_once(data, at + 1)
        &&& list_has_file_keys_once(data, value_end(data, at))
    }
}

#[via_fn]
proof fn list_has_file_keys_once_decreases(data: Seq<u8>, at: nat) {
    if at < data.len() {
        lemma_end_from(data, at, 0);
    }
}

/// The same of the list at `at`, if there is one.
pub open spec fn has_file_list(data: Seq<u8>, at: nat) -> bool {
    at < data.len() && data[at as int] == 108 ==> list_has_file_keys_once(data, at + 1)
}

/// No key of an info dictionary, nor of the file entries in it, occurs twice.
pub open spec fn has_info_keys_once(data: Seq<u8>) -> bool {
    &&& has_string_keys(data, 1)
    &&& !is_repeated(data, 1, "name"@)
    &&& !is_repeated(data, 1, "piece length"@)
    &&& !is_repeated(data, 1, "pieces"@)
    &&& !is_repeated(data, 1, "length"@)
    &&& !is_repeated(data, 1, "files"@)
    &&& field_at(data, 1, encode_utf8("files"@)) matches Some(place) ==> has_file_list(data, place)
}

/// The info dictionary in the data. It is refused where one of the keys that
/// are looked at occurs twice.
pub open spec fn info_in(data: Seq<u8>) -> Option<Info> {
    match decoded(data) {
        Some(tree) => if (tree is Dict ==> has_info_keys_once(data)) && (tree is List
            ==> has_file_list(data, item_at(data, 1, 4))) {
            info_of(tree)
        } else {
            None
        },
        None => None,
    }
}

/// Tells whether no key of the dictionaries in a list occurs twice.
fn check_file_keys(data: &[u8], from: usize) -> (r: bool)
    requires
        from <= data@.len(),
    ensures
        r == list_has_file_keys_once(data@, from as nat),
{
    let mut at: usize = from;
    while at < data.len() && data[at] != 101
        invariant
            from <= at <= data@.len(),
            list_has_file_keys_once(data@, from as nat) == list_has_file_keys_once(
                data@,
                at as nat,
            ),
        decreases data@.len() - at,
    {
        if data[at] == 100 && !(check_string_keys(data, at + 1) && !check_repeated(
            data,
            at + 1,
            "length",
        ) && !check_repeated(data, at + 1, "path")) {
            return false;
        }
        proof {
            lemma_end_from(data@, at as nat, 0);
        }
        at = find_value_end(data, at);
    }
    true
}

/// Tells the same of the list at `at`, if there is one.
fn check_file_list(data: &[u8], at: usize) -> (r: bool)
    requires
        at <= data@.len(),
    ensures
        r == has_file_list(data@, at as nat),
{
    at >= data.len() || data[at] != 108 || check_file_keys(data, at + 1)
}

/// Tells whether no key of an info dictionary occurs twice.
fn check_info_keys(data: &[u8]) -> (r: bool)
    requires
        data@.len() > 0,
    ensures
        r == has_info_keys_once(data@),
{
    if !check_string_keys(data, 1) || check_repeated(data, 1, "name") || check_repeated(
        data,
        1,
        "piece length",
    ) || check_repeated(data, 1, "pieces") || check_repeated(data, 1, "length")
        || check_repeated(data, 1, "files") {
        return false;
    }
    match find_field(data, 1, "files") {
        Some(place) => check_file_list(data, place),
        None => true,
    }
}

/// Reads a list of texts.
fn read_path(b: &Bencode) -> (r: Option<Vec<String>>)
    ensures
        match r {
            Some(path) => path_of(b.tree()) == Some(texts(path@)),
            None => path_of(b.tree()) is None,
        },
{
    let l = match b.list() {
        Some(l) => l,
        None => return None,
    };
    let ghost trees = b.tree()->List_0;
    let mut path: Vec<String> = Vec::new();
    let mut i: usize = 0;
    while i < l.len()
        invariant
            i <= l@.len(),
            path@.len() == i,
            b.tree() == Tree::List(trees),
            trees.len() == l@.len(),
            forall|j: int| 0 <= j < l@.len() ==> (#[trigger] l@[j]).tree() == trees[j],
            forall|j: int| 0 <= j < i ==> (#[trigger] trees[j]).text() == Some(path@[j]@),
        decreases l@.len() - i,
    {
        assert(l@[i as int].tree() == trees[i as int]);
        match l[i].text() {
            Some(s) => path.push(s),
            None => {
                assert(trees[i as int].text() is None);
                return None;
            },
        }
        i += 1;
    }
    proof {
        assert(path_of(b.tree())->0 =~= texts(path@));
    }
    Some(path)
}

impl FileDict {
    /// Reads a file entry
    pub fn from_bencode(b: &Bencode) -> (r: Option<Self>)
        ensures
            match r {
                Some(file) => file_of(b.tree()) == Some(file@),
                None => file_of(b.tree()) is None,
            },
    {
        if !b.has_text_keys() {
            return None;
        }
        match (b.get("length"), b.get("path")) {
            (Some(length), Some(path)) => match (length.number(u64::MAX), read_path(path)) {
                (Some(length), Some(path)) => Some(FileDict { length, path }),
                _ => None,
            },
            _ => None,
        }
    }
}

/// Reads a list of file entries.
fn read_files(b: &Bencode) -> (r: Option<Vec<FileDict>>)
    ensures
        match r {
            Some(files) => files_of(b.tree()) == Some(entries(files@)),
            None => files_of(b.tree()) is None,
        },
{
    let l = match b.list() {
        Some(l) => l,
        None => return None,
    };
    let ghost trees = b.tree()->List_0;
    let mut files: Vec<FileDict> = Vec::new();
    let mut i: usize = 0;
    while i < l.len()
        invariant
            i <= l@.len(),
            files@.len() == i,
            b.tree() == Tree::List(trees),
            trees.len() == l@.len(),
            forall|j: int| 0 <= j < l@.len() ==> (#[trigger] l@[j]).tree() == trees[j],
            forall|j: int| 0 <= j < i ==> file_of(#[trigger] trees[j]) == Some(files@[j]@),
        decreases l@.len() - i,
    {
        assert(l@[i as int].tree() == trees[i as int]);
        match FileDict::from_bencode(&l[i]) {
            Some(file) => files.push(file),
            None => {
                assert(file_of(trees[i as int]) is None);
                return None;
            },
        }
        i += 1;
    }
    proof {
        assert(files_of(b.tree())->0 =~= entries(files@));
    }
    Some(files)
}

impl InfoDict {
    /// Reads the values of an info dictionary
    fn from_values(
        name: &Bencode,
        piece_length: &Bencode,
        pieces: &Bencode,
        length: Option<&Bencode>,
        files: Option<&Bencode>,
    ) -> (r: Option<Self>)
        ensures
            ({
                let model = info_from(
                    name.tree(),
                    piece_length.tree(),
                    pieces.tree(),
                    tree_of(length),
                    tree_of(files),
                );
                match r {
                    Some(info) => model == Some(info@),
                    None => model is None,
                }
            }),
    {
        let name = match name.text() {
            Some(name) => name,
            None => return None,
        };
        let piece_length: usize = match piece_length.number(usize::MAX as u64) {
            Some(n) => n as usize,
            None => return None,
        };
        let pieces = match pieces.byte_list() {
            Some(pieces) => pieces,
            None => return None,
        };
        let length = match length {
            Some(t) => match t.number(u64::MAX) {
                Some(n) => Some(n),
                None => return None,
            },
            None => None,
        };
        let files = match files {
            Some(t) => match read_files(t) {
                Some(files) => Some(files),
                None => return None,
            },
            None => None,
        };
        Some(InfoDict { name, piece_length, pieces, length, files })
    }

    /// Reads an info dictionary
    pub fn from_bencode(b: &Bencode) -> (r: Option<Self>)
        ensures
            match r {
                Some(info) => info_of(b.tree()) == Some(info@),
                None => info_of(b.tree()) is None,
            },
    {
        if let Some(l) = b.list() {
            if l.len() < 4 {
                return None;
            }
            let files = if l.len() > 4 {
                Some(&l[4])
            } else {
                None
            };
            return InfoDict::from_values(&l[0], &l[1], &l[2], Some(&l[3]), files);
        }
        if !b.has_text_keys() {
            return None;
        }
        match (b.get("name"), b.get("piece length"), b.get("pieces")) {
            (Some(name), Some(piece_length), Some(pieces)) => InfoDict::from_values(
                name,
                piece_length,
                pieces,
                b.get("length"),
                b.get("files"),
            ),
            _ => None,
        }
    }

    /// Reads the info dictionary in some data
    pub fn from_bytes(data: &[u8]) -> (r: Option<Self>)
        requires
            is_shallow(data@),
        ensures
            match r {
                Some(info) => info_in(data@) == Some(info@),
                None => info_in(data@) is None,
            },
    {
        match decode(data) {
            Some(b) => {
                if b.is_dict() && (data.len() == 0 || !check_info_keys(data)) {
                    return None;
                }
                if b.list().is_some() && data.len() > 0 {
                    let place = find_item(data, 1, 4);
                    if !check_file_list(data, place) {
                        return None;
                    }
                }
                InfoDict::from_bencode(&b)
            },
            None => None,
        }
    }
}

/// A file in the torrent, as a value.
#[verifier::ext_equal]
pub struct FileSpan {
    pub path: Seq<Seq<char>>,
    pub length: nat,
    pub offset: nat,
}

/// Torrent metadata, as a value.
#[verifier::ext_equal]
pub struct Metadata {
    pub info_hash: Seq<u8>,
    pub name: Seq<char>,
    pub piece_length: nat,
    pub pieces: Seq<Seq<u8>>,
    pub total_length: nat,
    pub files: Seq<FileSpan>,
    pub is_single_file: bool,
}

/// A file in the torrent
#[derive(Debug, Clone)]
pub struct TorrentFile {
    /// The directories from the root of the torrent on, and the file
    pub path: Vec<String>,
    pub length: u64,
    /// Offset in the complete torrent data
    pub offset: u64,
}

impl View for TorrentFile {
    type V = FileSpan;

    open spec fn view(&self) -> FileSpan {
        FileSpan {
            path: texts(self.path@),
            length: self.length as nat,
            offset: self.offset as nat,
        }
    }
}

/// Torrent metadata
#[derive(Debug, Clone)]
pub struct TorrentMetadata {
    pub info_hash: [u8; 20],
    pub name: String,
    pub piece_length: usize,
    pub pieces: Vec<[u8; 20]>,
    pub total_length: u64,
    pub files: Vec<TorrentFile>,
    pub is_single_file: bool,
}

/// The hashes of a list of arrays.
pub open spec fn hashes(pieces: Seq<[u8; 20]>) -> Seq<Seq<u8>> {
    pieces.map_values(|h: [u8; 20]| h@)
}

/// The values of a list of files.
pub open spec fn spans(files: Seq<TorrentFile>) -> Seq<FileSpan> {
    files.map_values(|f: TorrentFile| f@)
}

impl View for TorrentMetadata {
    type V = Metadata;

    open spec fn view(&self) -> Metadata {
        Metadata {
            info_hash: self.info_hash@,
            name: self.name@,
            piece_length: self.piece_length as nat,
            pieces: hashes(self.pieces@),
            total_length: self.total_length as nat,
            files: spans(self.files@),
            is_single_file: self.is_single_file,
        }
    }
}

/// The bytes cut into hashes of twenty bytes each.
pub open spec fn cut_hashes(pieces: Seq<u8>) -> Seq<Seq<u8>> {
    Seq::new(pieces.len() / 20, |i: int| pieces.subrange(20 * i, 20 * i + 20))
}

/// The sum of the lengths of the file entries.
pub open spec fn entries_length(files: Seq<FileEntry>) -> nat
    decreases files.len(),
{
    if files.len() == 0 {
        0
    } else {
        entries_length(files.drop_last()) + files.last().length
    }
}

/// The files of a torrent: each lies under a directory with the name of the
/// torrent, and starts where the one before it ends.
pub open spec fn laid_out(name: Seq<char>, files: Seq<FileEntry>) -> Seq<FileSpan> {
    Seq::new(
        files.len(),
        |i: int|
            FileSpan {
                path: seq![name] + files[i].path,
                length: files[i].length,
                offset: entries_length(files.take(i)),
            },
    )
}

/// The lengths of the files can be counted.
pub open spec fn countable(info: Info) -> bool {
    info.length is None ==> match info.files {
        Some(files) => entries_length(files) <= u64::MAX,
        None => true,
    }
}

/// The metadata that an info dictionary stands for: that of a single file
/// where there is a length, else that of the files.
pub open spec fn metadata_of(info: Info, info_hash: Seq<u8>) -> Result<Metadata, MetadataError> {
    if info.pieces.len() % 20 != 0 {
        Err(MetadataError::InvalidPieceHash)
    } else {
        match (info.length, info.files) {
            (Some(length), _) => Ok(
                Metadata {
                    info_hash,
                    name: info.name,
                    piece_length: info.piece_length,
                    pieces: cut_hashes(info.pieces),
                    total_length: length,
                    files: seq![FileSpan { path: seq![info.name], length, offset: 0 }],
                    is_single_file: true,
                },
            ),
            (None, Some(files)) => Ok(
                Metadata {
                    info_hash,
                    name: info.name,
                    piece_length: info.piece_length,
                    pieces: cut_hashes(info.pieces),
                    total_length: entries_length(files),
                    files: laid_out(info.name, files),
                    is_single_file: false,
                },
            ),
            (None, None) => Err(MetadataError::NoFiles),
        }
    }
}

/// Cuts bytes into hashes of twenty bytes each.
fn read_hashes(bytes: &[u8]) -> (r: Result<Vec<[u8; 20]>, MetadataError>)
    ensures
        match r {
            Ok(pieces) => bytes@.len() % 20 == 0 && hashes(pieces@) == cut_hashes(bytes@),
            Err(e) => bytes@.len() % 20 != 0 && e == MetadataError::InvalidPieceHash,
        },
{
    let total: usize = bytes.len();
    let mut pieces: Vec<[u8; 20]> = Vec::new();
    let mut at: usize = 0;
    while at < total
        invariant
            at <= total == bytes@.len(),
            at == 20 * pieces@.len(),
            forall|i: int|
                0 <= i < pieces@.len() ==> (#[trigger] pieces@[i])@ == bytes@.subrange(
                    20 * i,
                    20 * i + 20,
                ),
        decreases total - at,
    {
        if total - at < 20 {
            return Err(MetadataError::InvalidPieceHash);
        }
        pieces.push(id_at(bytes, at));
        at += 20;
    }
    proof {
        assert(hashes(pieces@) =~= cut_hashes(bytes@));
    }
    Ok(pieces)
}

/// The sum over the first entries is no more than the sum over all.
proof fn lemma_entries_length_part(files: Seq<FileEntry>, n: int)
    requires
        0 <= n <= files.len(),
    ensures
        entries_length(files.take(n)) <= entries_length(files),
    decreases files.len() - n,
{
    if n < files.len() {
        assert(files.take(n + 1).drop_last() =~= files.take(n));
        lemma_entries_length_part(files, n + 1);
    } else {
        assert(files.take(n) =~= files);
    }
}

/// Lays out the files of a torrent. Gives back their total length, too.
fn lay_out(name: &String, files: Vec<FileDict>) -> (r: (Vec<TorrentFile>, u64))
    requires
        entries_length(entries(files@)) <= u64::MAX,
    ensures
        spans(r.0@) == laid_out(name@, entries(files@)),
        r.1 == entries_length(entries(files@)),
{
    let ghost all = entries(files@);
    let mut r: Vec<TorrentFile> = Vec::new();
    let mut offset: u64 = 0;
    let mut i: usize = 0;
    proof {
        assert(all.take(0) =~= Seq::empty());
    }
    while i < files.len()
        invariant
            i <= files@.len(),
            all == entries(files@),
            entries_length(all) <= u64::MAX,
            offset == entries_length(all.take(i as int)),
            spans(r@) == laid_out(name@, all).take(i as int),
        decreases files@.len() - i,
    {
        let mut path: Vec<String> = Vec::new();
        path.push(name.clone());
        let parts = &files[i].path;
        let mut k: usize = 0;
        while k < parts.len()
            invariant
                k <= parts@.len(),
                texts(path@) == seq![name@] + texts(parts@).take(k as int),
            decreases parts@.len() - k,
        {
            let ghost before = path@;
            path.push(parts[k].clone());
            proof {
                assert(texts(path@) =~= texts(before).push(parts@[k as int]@));
                assert(texts(parts@).take(k + 1) =~= texts(parts@).take(k as int).push(
                    parts@[k as int]@,
                ));
            }
            k += 1;
        }
        let length = files[i].length;
        let file = TorrentFile { path, length, offset };
        proof {
            assert(texts(parts@).take(k as int) =~= texts(parts@));
            assert(all[i as int] == files@[i as int]@);
            assert(all.take(i + 1).drop_last() =~= all.take(i as int));
            lemma_entries_length_part(all, i + 1);
            assert(file@ == laid_out(name@, all)[i as int]);
        }
        let ghost before = r@;
        r.push(file);
        proof {
            assert(spans(r@) =~= spans(before).push(file@));
            assert(laid_out(name@, all).take(i + 1) =~= laid_out(name@, all).take(i as int).push(
                laid_out(name@, all)[i as int],
            ));
        }
        offset = offset + length;
        i += 1;
    }
    proof {
        assert(all.take(i as int) =~= all);
        assert(laid_out(name@, all).take(i as int) =~= laid_out(name@, all));
    }
    (r, offset)
}

impl InfoDict {
    /// Tells whether the lengths of the files can be counted
    pub fn is_countable(&self) -> (r: bool)
        ensures
            r == countable(self@),
    {
        if self.length.is_some() {
            return true;
        }
        let files = match &self.files {
            Some(files) => files,
            None => return true,
        };
        let ghost all = entries(files@);
        let mut total: u64 = 0;
        let mut i: usize = 0;
        proof {
            assert(all.take(0) =~= Seq::empty());
        }
        while i < files.len()
            invariant
                i <= files@.len(),
                self.length is None,
                self.files == Some(*files),
                all == entries(files@),
                total == entries_length(all.take(i as int)),
            decreases files@.len() - i,
        {
            proof {
                assert(all.take(i + 1).drop_last() =~= all.take(i as int));
                assert(all[i as int] == files@[i as int]@);
                lemma_entries_length_part(all, i + 1);
            }
            match total.checked_add(files[i].length) {
                Some(sum) => {
                    total = sum;
                },
                None => {
                    return false;
                },
            }
            i += 1;
        }
        proof {
            assert(all.take(i as int) =~= all);
        }
        true
    }
}

/// The metadata of an info dictionary whose lengths may not be countable.
pub open spec fn checked_metadata_of(info: Info, info_hash: Seq<u8>) -> Result<
    Metadata,
    MetadataError,
> {
    if countable(info) {
        metadata_of(info, info_hash)
    } else {
        Err(MetadataError::TooLong)
    }
}

/// The metadata in the bytes of a torrent file. The info hash is the hash of
/// the info dictionary in bencoded form.
pub open spec fn torrent_of(torrent_bytes: Seq<u8>) -> Result<Metadata, MetadataError> {
    match decoded(torrent_bytes) {
        Some(torrent) => if !torrent.has_text_keys() || !has_string_keys(torrent_bytes, 1) {
            Err(MetadataError::InvalidTorrent)
        } else {
            match torrent.named("info"@) {
                Some(tree) => match info_of(tree) {
                    Some(info) => checked_metadata_of(info, sha1_of(encoded(tree))),
                    None => Err(MetadataError::InvalidInfo),
                },
                None => Err(MetadataError::NoInfo),
            }
        },
        None => Err(MetadataError::InvalidTorrent),
    }
}

/// The metadata in an info dictionary that peers sent.
pub open spec fn peer_metadata_of(metadata_bytes: Seq<u8>, info_hash: Seq<u8>) -> Result<
    Metadata,
    MetadataError,
> {
    match info_in(metadata_bytes) {
        Some(info) => checked_metadata_of(info, info_hash),
        None => Err(MetadataError::InvalidMetadata),
    }
}

/// The length of one piece: the last one has what is left of the total
/// length, all others have the piece length.
pub open spec fn piece_length_at(
    count: nat,
    piece_length: usize,
    total_length: u64,
    i: int,
) -> usize {
    let rest = total_length as usize % piece_length;
    if i < count - 1 || rest == 0 {
        piece_length
    } else {
        rest
    }
}

/// The lengths of the pieces: the last one has what is left of the total
/// length, all others have the piece length.
pub open spec fn piece_lengths(count: nat, piece_length: usize, total_length: u64) -> Seq<usize> {
    Seq::new(count, |i: int| piece_length_at(count, piece_length, total_length, i))
}

impl FileSpan {
    /// The file has bytes after `start` and before `end`.
    pub open spec fn touches(self, start: nat, end: nat) -> bool {
        self.offset + self.length > start && self.offset < end
    }

    /// Where in the file the bytes from `start` on begin.
    pub open spec fn overlap_offset(self, start: nat) -> nat {
        if self.offset > start {
            0
        } else {
            (start - self.offset) as nat
        }
    }

    /// How many bytes of the file lie from `start` to `end`.
    pub open spec fn overlap_length(self, start: nat, end: nat) -> nat {
        let from = if self.offset > start {
            self.offset
        } else {
            start
        };
        let to = if self.offset + self.length < end {
            self.offset + self.length
        } else {
            end
        };
        (to - from) as nat
    }
}

/// Where a piece ends: at the latest at the end of all data.
pub open spec fn end_of_piece(piece_index: nat, piece_length: nat, total_length: nat) -> nat {
    if piece_index * piece_length + piece_length < total_length {
        piece_index * piece_length + piece_length
    } else {
        total_length
    }
}

/// The files that have bytes from `start` to `end`, each with where in the
/// file they begin and how many they are.
pub open spec fn parts_of_piece(files: Seq<FileSpan>, start: nat, end: nat) -> Seq<
    (usize, u64, u64),
>
    decreases files.len(),
{
    if files.len() == 0 {
        Seq::empty()
    } else {
        let before = parts_of_piece(files.drop_last(), start, end);
        let file = files.last();
        if file.touches(start, end) {
            before.push(
                (
                    (files.len() - 1) as usize,
                    file.overlap_offset(start) as u64,
                    file.overlap_length(start, end) as u64,
                ),
            )
        } else {
            before
        }
    }
}

impl TorrentMetadata {
    /// Create metadata from an info dictionary
    pub fn from_info(info: InfoDict, info_hash: [u8; 20]) -> (r: Result<Self, MetadataError>)
        requires
            countable(info@),
        ensures
            match r {
                Ok(metadata) => metadata_of(info@, info_hash@) == Ok::<Metadata, MetadataError>(
                    metadata@,
                ),
                Err(e) => metadata_of(info@, info_hash@) == Err::<Metadata, MetadataError>(e),
            },
    {
        let pieces = match read_hashes(info.pieces.as_slice()) {
            Ok(pieces) => pieces,
            Err(e) => return Err(e),
        };
        match info.length {
            Some(length) => {
                let mut path: Vec<String> = Vec::new();
                path.push(info.name.clone());
                let file = TorrentFile { path, length, offset: 0 };
                proof {
                    assert(texts(path@) =~= seq![info.name@]);
                }
                let mut files: Vec<TorrentFile> = Vec::new();
                files.push(file);
                proof {
                    assert(spans(files@) =~= seq![file@]);
                }
                Ok(
                    TorrentMetadata {
                        info_hash,
                        name: info.name,
                        piece_length: info.piece_length,
                        pieces,
                        total_length: length,
                        files,
                        is_single_file: true,
                    },
                )
            },
            None => match info.files {
                Some(entries) => {
                    let (files, total_length) = lay_out(&info.name, entries);
                    Ok(
                        TorrentMetadata {
                            info_hash,
                            name: info.name,
                            piece_length: info.piece_length,
                            pieces,
                            total_length,
                            files,
                            is_single_file: false,
                        },
                    )
                },
                None => Err(MetadataError::NoFiles),
            },
        }
    }

    /// Create metadata from the bytes of a .torrent file
    pub fn from_torrent_file(torrent_bytes: &[u8]) -> (r: Result<Self, MetadataError>)
        requires
            is_shallow(torrent_bytes@),
        ensures
            match r {
                Ok(metadata) => torrent_of(torrent_bytes@) == Ok::<Metadata, MetadataError>(
                    metadata@,
                ),
                Err(e) => torrent_of(torrent_bytes@) == Err::<Metadata, MetadataError>(e),
            },
    {
        let torrent = match decode(torrent_bytes) {
            Some(torrent) => torrent,
            None => return Err(MetadataError::InvalidTorrent),
        };
        if !torrent.has_text_keys() || torrent_bytes.len() == 0 || !check_string_keys(
            torrent_bytes,
            1,
        ) {
            return Err(MetadataError::InvalidTorrent);
        }
        let info = match torrent.get("info") {
            Some(info) => info,
            None => return Err(MetadataError::NoInfo),
        };
        proof {
            lemma_field_within(torrent.tree(), "info"@, MAX_DEPTH as nat);
        }
        let info_bytes = encode(info);
        let info_hash = sha1(info_bytes.as_slice());
        match InfoDict::from_bencode(info) {
            Some(info_dict) => {
                if info_dict.is_countable() {
                    TorrentMetadata::from_info(info_dict, info_hash)
                } else {
                    Err(MetadataError::TooLong)
                }
            },
            None => Err(MetadataError::InvalidInfo),
        }
    }

    /// Calculate piece lengths
    pub fn get_piece_lengths(&self) -> (r: Vec<usize>)
        requires
            self.pieces@.len() > 0 ==> self.piece_length > 0,
        ensures
            r@ == piece_lengths(self.pieces@.len(), self.piece_length, self.total_length),
    {
        let num_pieces: usize = self.pieces.len();
        let mut r: Vec<usize> = Vec::new();
        if num_pieces == 0 {
            proof {
                assert(r@ =~= piece_lengths(0, self.piece_length, self.total_length));
            }
            return r;
        }
        let mut i: usize = 0;
        while i < num_pieces - 1
            invariant
                0 < num_pieces == self.pieces@.len(),
                i <= num_pieces - 1,
                r@.len() == i,
                forall|j: int| 0 <= j < i ==> r@[j] == self.piece_length,
            decreases num_pieces - i,
        {
            r.push(self.piece_length);
            i += 1;
        }
        let last_piece_length: usize = self.total_length as usize % self.piece_length;
        if last_piece_length == 0 {
            r.push(self.piece_length);
        } else {
            r.push(last_piece_length);
        }
        proof {
            assert(r@ =~= piece_lengths(self.pieces@.len(), self.piece_length, self.total_length));
        }
        r
    }

    /// Get the files that a particular piece lies in, each with the offset
    /// in the file and the length that the piece has there
    pub fn get_files_for_piece(&self, piece_index: usize) -> (r: Vec<(usize, u64, u64)>)
        requires
            piece_index * self.piece_length + self.piece_length <= usize::MAX,
            self.total_length <= usize::MAX,
            forall|i: int|
                0 <= i < self.files@.len() ==> (#[trigger] self.files@[i]).offset
                    + self.files@[i].length <= usize::MAX,
            self.total_length < piece_index * self.piece_length ==> forall|i: int|
                0 <= i < self.files@.len() ==> !(#[trigger] self.files@[i])@.touches(
                    (piece_index * self.piece_length) as nat,
                    self.total_length as nat,
                ),
        ensures
            r@ == parts_of_piece(
                spans(self.files@),
                (piece_index * self.piece_length) as nat,
                end_of_piece(
                    piece_index as nat,
                    self.piece_length as nat,
                    self.total_length as nat,
                ),
            ),
    {
        proof {
            assert(0 <= piece_index * self.piece_length) by (nonlinear_arith);
            assert(piece_index * self.piece_length + self.piece_length == (piece_index + 1)
                * self.piece_length) by (nonlinear_arith);
        }
        let piece_start: usize = piece_index * self.piece_length;
        let total: usize = self.total_length as usize;
        let piece_end: usize = if piece_start + self.piece_length < total {
            piece_start + self.piece_length
        } else {
            total
        };
        let mut r: Vec<(usize, u64, u64)> = Vec::new();
        let mut i: usize = 0;
        let ghost all = spans(self.files@);
        proof {
            assert(all.take(0) =~= Seq::empty());
        }
        while i < self.files.len()
            invariant
                i <= self.files@.len(),
                all == spans(self.files@),
                forall|j: int|
                    0 <= j < self.files@.len() ==> (#[trigger] self.files@[j]).offset
                        + self.files@[j].length <= usize::MAX,
                piece_end < piece_start ==> forall|j: int|
                    0 <= j < self.files@.len() ==> !(#[trigger] self.files@[j])@.touches(
                        piece_start as nat,
                        piece_end as nat,
                    ),
                r@ == parts_of_piece(all.take(i as int), piece_start as nat, piece_end as nat),
            decreases self.files@.len() - i,
        {
            let file = &self.files[i];
            let file_start: usize = file.offset as usize;
            let file_end: usize = (file.offset + file.length) as usize;
            proof {
                assert(all.take(i + 1).drop_last() =~= all.take(i as int));
                assert(all.take(i + 1).last() == file@);
            }
            if file_end > piece_start && file_start < piece_end {
                assert(file@.touches(piece_start as nat, piece_end as nat));
                let overlap_start: usize = if file_start > piece_start {
                    file_start
                } else {
                    piece_start
                };
                let overlap_end: usize = if file_end < piece_end {
                    file_end
                } else {
                    piece_end
                };
                let file_offset: usize = overlap_start - file_start;
                let length: usize = overlap_end - overlap_start;
                r.push((i, file_offset as u64, length as u64));
            }
            i += 1;
        }
        proof {
            assert(all.take(i as int) =~= all);
        }
        r
    }
}

/// Parse raw metadata bytes into metadata
pub fn parse_metadata(
    metadata_bytes: &[u8],
    info_hash: [u8; 20],
    _name: &str,
) -> (r: Result<TorrentMetadata, MetadataError>)
    requires
        is_shallow(metadata_bytes@),
    ensures
        match r {
            Ok(metadata) => peer_metadata_of(metadata_bytes@, info_hash@) == Ok::<
                Metadata,
                MetadataError,
            >(metadata@),
            Err(e) => peer_metadata_of(metadata_bytes@, info_hash@) == Err::<
                Metadata,
                MetadataError,
            >(e),
        },
{
    match InfoDict::from_bytes(metadata_bytes) {
        Some(info_dict) => {
            if info_dict.is_countable() {
                TorrentMetadata::from_info(info_dict, info_hash)
            } else {
                Err(MetadataError::TooLong)
            }
        },
        None => Err(MetadataError::InvalidMetadata),
    }
}

/// The sum of the lengths of the files.
pub open spec fn spans_length(files: Seq<FileSpan>) -> nat
    decreases files.len(),
{
    if files.len() == 0 {
        0
    } else {
        spans_length(files.drop_last()) + files.last().length
    }
}

/// Each file starts where the one before it ends.
pub open spec fn side_by_side(files: Seq<FileSpan>) -> bool {
    forall|i: int|
        0 <= i < files.len() ==> (#[trigger] files[i]).offset == spans_length(files.take(i))
}

/// In metadata from a torrent file or from peers, each file starts where the
/// one before it ends, and the total length is the sum of their lengths.
pub proof fn law_files_lie_side_by_side(info: Info, info_hash: Seq<u8>)
    requires
        metadata_of(info, info_hash) is Ok,
    ensures
        side_by_side(metadata_of(info, info_hash)->Ok_0.files),
        spans_length(metadata_of(info, info_hash)->Ok_0.files) == metadata_of(
            info,
            info_hash,
        )->Ok_0.total_length,
{
    let m = metadata_of(info, info_hash)->Ok_0;
    match info.length {
        Some(length) => {
            reveal_with_fuel(spans_length, 2);
            assert(m.files.drop_last() =~= Seq::empty());
            assert(m.files.take(0) =~= Seq::empty());
        },
        None => {
            let files = info.files->0;
            assert forall|i: int| 0 <= i <= files.len() implies spans_length(
                #[trigger] m.files.take(i),
            ) == entries_length(files.take(i)) by {
                lemma_laid_out_length(info.name, files, i);
            }
            assert(m.files.take(files.len() as int) =~= m.files);
            assert(files.take(files.len() as int) =~= files);
        },
    }
}

proof fn lemma_laid_out_length(name: Seq<char>, files: Seq<FileEntry>, i: int)
    requires
        0 <= i <= files.len(),
    ensures
        spans_length(laid_out(name, files).take(i)) == entries_length(files.take(i)),
    decreases i,
{
    if i > 0 {
        lemma_laid_out_length(name, files, i - 1);
        assert(laid_out(name, files).take(i).drop_last() =~= laid_out(name, files).take(i - 1));
        assert(files.take(i).drop_last() =~= files.take(i - 1));
    }
}

/// The sum of some lengths.
pub open spec fn sum_of(lengths: Seq<usize>) -> nat
    decreases lengths.len(),
{
    if lengths.len() == 0 {
        0
    } else {
        sum_of(lengths.drop_last()) + lengths.last() as nat
    }
}

/// There are just as many pieces as it takes to hold all data.
pub open spec fn enough_pieces(count: nat, piece_length: usize, total_length: u64) -> bool {
    &&& piece_length > 0
    &&& total_length <= usize::MAX
    &&& (count - 1) * piece_length < total_length <= count * piece_length
}

/// Where there are just as many pieces as it takes to hold all data, their
/// lengths add up to the total length.
pub proof fn law_piece_lengths_add_up(count: nat, piece_length: usize, total_length: u64)
    requires
        enough_pieces(count, piece_length, total_length),
    ensures
        sum_of(piece_lengths(count, piece_length, total_length)) == total_length,
{
    let all = piece_lengths(count, piece_length, total_length);
    let b = piece_length as int;
    if count == 0 {
        assert(count * b == 0) by (nonlinear_arith)
            requires
                count == 0,
        ;
    } else {
        lemma_full_pieces(all, piece_length, count - 1);
        lemma_last_piece(count as int, b, total_length as int);
        assert(all.take(count - 1) =~= all.drop_last());
    }
}

proof fn lemma_full_pieces(lengths: Seq<usize>, piece_length: usize, n: int)
    requires
        0 <= n <= lengths.len(),
        forall|i: int| 0 <= i < n ==> lengths[i] == piece_length,
    ensures
        sum_of(lengths.take(n)) == n * piece_length,
    decreases n,
{
    if n > 0 {
        lemma_full_pieces(lengths, piece_length, n - 1);
        assert(lengths.take(n).drop_last() =~= lengths.take(n - 1));
        assert((n - 1) * piece_length + piece_length == n * piece_length) by (nonlinear_arith);
    } else {
        assert(n * piece_length == 0) by (nonlinear_arith)
            requires
                n == 0,
        ;
    }
}

proof fn lemma_last_piece(count: int, b: int, total: int)
    requires
        b > 0,
        (count - 1) * b < total <= count * b,
    ensures
        total % b == 0 ==> total == count * b,
        total % b != 0 ==> total % b == total - (count - 1) * b,
        count * b == (count - 1) * b + b,
{
    assert(count * b == (count - 1) * b + b) by (nonlinear_arith);
    if total < count * b {
        vstd::arithmetic::div_mod::lemma_fundamental_div_mod_converse(
            total,
            b,
            count - 1,
            total - (count - 1) * b,
        );
    } else {
        vstd::arithmetic::div_mod::lemma_mod_multiples_basic(count, b);
    }
}

/// How many bytes the parts of a piece hold.
pub open spec fn parts_length(parts: Seq<(usize, u64, u64)>) -> nat
    decreases parts.len(),
{
    if parts.len() == 0 {
        0
    } else {
        parts_length(parts.drop_last()) + parts.last().2 as nat
    }
}

/// Where files lie side by side, the parts of a piece that they hold add up
/// to the length of the piece.
pub proof fn law_parts_fill_the_piece(
    files: Seq<FileSpan>,
    count: nat,
    piece_length: usize,
    total_length: u64,
    i: int,
)
    requires
        side_by_side(files),
        spans_length(files) == total_length,
        enough_pieces(count, piece_length, total_length),
        0 <= i < count,
    ensures
        parts_length(
            parts_of_piece(
                files,
                (i * piece_length) as nat,
                end_of_piece(i as nat, piece_length as nat, total_length as nat),
            ),
        ) == piece_lengths(count, piece_length, total_length)[i],
{
    let b = piece_length as int;
    let start = i * b;
    let end = end_of_piece(i as nat, piece_length as nat, total_length as nat);
    assert(0 <= start) by (nonlinear_arith)
        requires
            start == i * b,
            0 <= i,
            0 < b,
    ;
    assert(start <= (count - 1) * b) by (nonlinear_arith)
        requires
            start == i * b,
            i <= count - 1,
            0 < b,
    ;
    if i < count - 1 {
        assert(start + b <= (count - 1) * b) by (nonlinear_arith)
            requires
                start == i * b,
                i + 1 <= count - 1,
                0 < b,
        ;
    }
    lemma_last_piece(count as int, b, total_length as int);
    assert(files.take(files.len() as int) =~= files);
    lemma_parts_length(files, start as nat, end, files.len() as int);
}

/// The first files hold what lies before their end.
proof fn lemma_parts_length(files: Seq<FileSpan>, start: nat, end: nat, n: int)
    requires
        side_by_side(files),
        start <= end <= u64::MAX,
        0 <= n <= files.len(),
    ensures
        parts_length(parts_of_piece(files.take(n), start, end)) == {
            let reached = spans_length(files.take(n));
            if reached < start {
                0
            } else if reached > end {
                end - start
            } else {
                reached - start
            }
        },
    decreases n,
{
    if n > 0 {
        lemma_parts_length(files, start, end, n - 1);
        assert(files.take(n).drop_last() =~= files.take(n - 1));
        let file = files[n - 1];
        assert(file.offset == spans_length(files.take(n - 1)));
        let before = parts_of_piece(files.take(n - 1), start, end);
        let parts = parts_of_piece(files.take(n), start, end);
        if file.touches(start, end) {
            assert(parts.drop_last() =~= before);
        }
    }
}

/// Of the parts of a piece, those in one file, in order: where in the file
/// they begin and how many bytes they are.
pub open spec fn parts_in_file(parts: Seq<(usize, u64, u64)>, file: usize) -> Seq<(u64, u64)>
    decreases parts.len(),
{
    if parts.len() == 0 {
        Seq::empty()
    } else {
        let before = parts_in_file(parts.drop_last(), file);
        if parts.last().0 == file {
            before.push((parts.last().1, parts.last().2))
        } else {
            before
        }
    }
}

/// The parts of one file over the first `n` pieces in turn.
pub open spec fn parts_over_pieces(
    files: Seq<FileSpan>,
    piece_length: usize,
    total_length: u64,
    file: usize,
    n: nat,
) -> Seq<(u64, u64)>
    decreases n,
{
    if n == 0 {
        Seq::empty()
    } else {
        let i = (n - 1) as nat;
        parts_over_pieces(files, piece_length, total_length, file, i) + parts_in_file(
            parts_of_piece(
                files,
                i * piece_length as nat,
                end_of_piece(i, piece_length as nat, total_length as nat),
            ),
            file,
        )
    }
}

/// The parts begin at 0, each begins where the one before it ends, and the
/// last one ends at `length`.
pub open spec fn end_to_end(parts: Seq<(u64, u64)>, length: nat) -> bool {
    &&& parts.len() > 0
    &&& parts[0].0 == 0
    &&& forall|i: int|
        0 < i < parts.len() ==> (#[trigger] parts[i]).0 == parts[i - 1].0 + parts[i - 1].1
    &&& parts.last().0 + parts.last().1 == length
}

/// Where files lie side by side, and there are just as many pieces as it takes
/// to hold all data, the parts of a file that is not empty lie end to end over
/// all pieces in turn and make up the file: each of its bytes is in just one
/// piece.
pub proof fn law_parts_over_pieces_make_the_file(
    files: Seq<FileSpan>,
    count: nat,
    piece_length: usize,
    total_length: u64,
    file: usize,
)
    requires
        side_by_side(files),
        spans_length(files) == total_length,
        files.len() <= usize::MAX,
        enough_pieces(count, piece_length, total_length),
        file < files.len(),
        files[file as int].length > 0,
    ensures
        end_to_end(
            parts_over_pieces(files, piece_length, total_length, file, count),
            files[file as int].length,
        ),
{
    lemma_spans_length_grows(files, file + 1);
    assert(files.take(file + 1).drop_last() =~= files.take(file as int));
    lemma_parts_so_far(files, count, piece_length, total_length, file, count);
}

/// The first files are no longer than all of them.
proof fn lemma_spans_length_grows(files: Seq<FileSpan>, n: int)
    requires
        0 <= n <= files.len(),
    ensures
        spans_length(files.take(n)) <= spans_length(files),
    decreases files.len() - n,
{
    if n < files.len() {
        lemma_spans_length_grows(files, n + 1);
        assert(files.take(n + 1).drop_last() =~= files.take(n));
    } else {
        assert(files.take(n) =~= files);
    }
}

/// A piece has at most one part in a file.
proof fn lemma_part_in_file(files: Seq<FileSpan>, start: nat, end: nat, file: usize, n: int)
    requires
        0 <= n <= files.len() <= usize::MAX,
        file < files.len(),
    ensures
        ({
            let span = files[file as int];
            parts_in_file(parts_of_piece(files.take(n), start, end), file) == if file < n
                && span.touches(start, end) {
                seq![(span.overlap_offset(start) as u64, span.overlap_length(start, end) as u64)]
            } else {
                Seq::empty()
            }
        }),
    decreases n,
{
    if n > 0 {
        lemma_part_in_file(files, start, end, file, n - 1);
        assert(files.take(n).drop_last() =~= files.take(n - 1));
        let before = parts_of_piece(files.take(n - 1), start, end);
        let parts = parts_of_piece(files.take(n), start, end);
        if files[n - 1].touches(start, end) {
            assert(parts.drop_last() =~= before);
        }
        let span = files[file as int];
        assert(parts_in_file(parts, file) =~= if file < n && span.touches(start, end) {
            seq![(span.overlap_offset(start) as u64, span.overlap_length(start, end) as u64)]
        } else {
            Seq::empty()
        });
    }
}

/// How many bytes of a file lie before a place in the data.
spec fn covered(span: FileSpan, place: int) -> int {
    if place <= span.offset {
        0
    } else if place >= span.offset + span.length {
        span.length as int
    } else {
        place - span.offset
    }
}

/// The parts over the first pieces lie end to end, up to where these pieces
/// reach.
proof fn lemma_parts_so_far(
    files: Seq<FileSpan>,
    count: nat,
    piece_length: usize,
    total_length: u64,
    file: usize,
    n: nat,
)
    requires
        files.len() <= usize::MAX,
        enough_pieces(count, piece_length, total_length),
        file < files.len(),
        files[file as int].length > 0,
        files[file as int].offset + files[file as int].length <= total_length,
        n <= count,
    ensures
        ({
            let parts = parts_over_pieces(files, piece_length, total_length, file, n);
            let reached = if n * piece_length < total_length {
                n * piece_length
            } else {
                total_length as int
            };
            let length = covered(files[file as int], reached);
            if length == 0 {
                parts.len() == 0
            } else {
                end_to_end(parts, length as nat)
            }
        }),
    decreases n,
{
    let b = piece_length as int;
    let span = files[file as int];
    if n > 0 {
        let i = (n - 1) as nat;
        lemma_parts_so_far(files, count, piece_length, total_length, file, i);
        let start = i * b;
        let end = end_of_piece(i, piece_length as nat, total_length as nat);
        assert(0 <= start <= (count - 1) * b) by (nonlinear_arith)
            requires
                start == i * b,
                0 <= i <= count - 1,
                0 < b,
        ;
        assert(n * b == start + b) by (nonlinear_arith)
            requires
                start == i * b,
                n == i + 1,
        ;
        assert(files.take(files.len() as int) =~= files);
        lemma_part_in_file(files, start as nat, end, file, files.len() as int);
        let before = parts_over_pieces(files, piece_length, total_length, file, i);
        let parts = parts_over_pieces(files, piece_length, total_length, file, n);
        if span.touches(start as nat, end) {
            let part = (
                span.overlap_offset(start as nat) as u64,
                span.overlap_length(start as nat, end) as u64,
            );
            assert(parts =~= before.push(part));
            assert(part.0 == covered(span, start));
            assert(part.0 + part.1 == covered(span, end as int));
        } else {
            assert(parts =~= before);
        }
    } else {
        assert(n * piece_length == 0) by (nonlinear_arith)
            requires
                n == 0,
        ;
    }
}

/// The path of each file is the name of the torrent and then all parts of the
/// path of its entry, in order; its length is that of the entry, and it starts
/// where the one before it ends.
pub proof fn law_files_lie_under_the_name(name: Seq<char>, files: Seq<FileEntry>, i: int)
    requires
        0 <= i < files.len(),
    ensures
        laid_out(name, files).len() == files.len(),
        laid_out(name, files)[i].path.len() == 1 + files[i].path.len(),
        laid_out(name, files)[i].path[0] == name,
        forall|k: int|
            0 <= k < files[i].path.len() ==> laid_out(name, files)[i].path[k + 1]
                == #[trigger] files[i].path[k],
        laid_out(name, files)[i].length == files[i].length,
        laid_out(name, files)[0].offset == 0,
        i + 1 < files.len() ==> laid_out(name, files)[i + 1].offset == laid_out(
            name,
            files,
        )[i].offset + files[i].length,
{
    assert(files.take(0) =~= Seq::empty());
    assert(files.take(i + 1).drop_last() =~= files.take(i));
}

/// Files whose entries have different paths get different paths.
pub proof fn law_different_entries_get_different_paths(
    name: Seq<char>,
    files: Seq<FileEntry>,
    i: int,
    j: int,
)
    requires
        0 <= i < files.len(),
        0 <= j < files.len(),
        laid_out(name, files)[i].path == laid_out(name, files)[j].path,
    ensures
        files[i].path == files[j].path,
{
    law_files_lie_under_the_name(name, files, i);
    law_files_lie_under_the_name(name, files, j);
    let a = laid_out(name, files)[i].path;
    assert forall|k: int| 0 <= k < files[i].path.len() implies files[i].path[k]
        == files[j].path[k] by {
        assert(a[k + 1] == files[i].path[k]);
        assert(a[k + 1] == files[j].path[k]);
    }
    assert(files[i].path =~= files[j].path);
}

/// The sum of the lengths grows with each entry by its length.
pub proof fn law_lengths_add_up(files: Seq<FileEntry>, file: FileEntry)
    ensures
        entries_length(Seq::empty()) == 0,
        entries_length(files.push(file)) == entries_length(files) + file.length,
{
    assert(files.push(file).drop_last() =~= files);
}

/// An info dictionary makes metadata just where its piece hashes have twenty
/// bytes each and it has a length or a list of files. The metadata have its
/// name, its piece length and the hash they were asked for.
pub proof fn law_metadata_from_an_info_dictionary(info: Info, info_hash: Seq<u8>)
    ensures
        info.pieces.len() % 20 != 0 ==> metadata_of(info, info_hash) == Err::<
            Metadata,
            MetadataError,
        >(MetadataError::InvalidPieceHash),
        info.pieces.len() % 20 == 0 && info.length is None && info.files is None ==> metadata_of(
            info,
            info_hash,
        ) == Err::<Metadata, MetadataError>(MetadataError::NoFiles),
        info.pieces.len() % 20 == 0 && (info.length is Some || info.files is Some) ==> ({
            let r = metadata_of(info, info_hash);
            let m = r->Ok_0;
            &&& r is Ok
            &&& m.info_hash == info_hash
            &&& m.name == info.name
            &&& m.piece_length == info.piece_length
            &&& m.pieces.len() * 20 == info.pieces.len()
            &&& forall|i: int, k: int|
                0 <= i < m.pieces.len() && 0 <= k < 20 ==> m.pieces[i].len() == 20
                    && #[trigger] m.pieces[i][k] == info.pieces[20 * i + k]
            &&& m.is_single_file == (info.length is Some)
        }),
{
}

/// A torrent with a length is one file of that length with the name of the
/// torrent.
pub proof fn law_single_file_has_the_name(info: Info, info_hash: Seq<u8>)
    requires
        info.pieces.len() % 20 == 0,
        info.length is Some,
    ensures
        ({
            let m = metadata_of(info, info_hash)->Ok_0;
            &&& m.total_length == info.length->0
            &&& m.files.len() == 1
            &&& m.files[0].path == seq![info.name]
            &&& m.files[0].length == info.length->0
            &&& m.files[0].offset == 0
        }),
{
}

/// A torrent without a length has the files of its list, each under the name
/// of the torrent, and is as long as they are together.
pub proof fn law_file_list_is_laid_out(info: Info, info_hash: Seq<u8>, i: int)
    requires
        info.pieces.len() % 20 == 0,
        info.length is None,
        info.files is Some,
        0 <= i < info.files->0.len(),
    ensures
        ({
            let m = metadata_of(info, info_hash)->Ok_0;
            let files = info.files->0;
            &&& m.files.len() == files.len()
            &&& m.files[i].path == seq![info.name] + files[i].path
            &&& m.files[i].length == files[i].length
            &&& m.files[0].offset == 0
            &&& i + 1 < files.len() ==> m.files[i + 1].offset == m.files[i].offset
                + m.files[i].length
            &&& m.total_length == m.files.last().offset + m.files.last().length
        }),
{
    let files = info.files->0;
    law_files_lie_under_the_name(info.name, files, i);
    assert(files.take(files.len() as int) =~= files);
    assert(files.take(files.len() as int).drop_last() =~= files.take(files.len() - 1));
}

/// Lengths that add up to more than can be counted are refused, where they
/// count.
pub proof fn law_lengths_must_be_countable(info: Info, info_hash: Seq<u8>)
    ensures
        info.length is None && info.files is Some && entries_length(info.files->0)
            > 0xffff_ffff_ffff_ffff ==> checked_metadata_of(info, info_hash) == Err::<
            Metadata,
            MetadataError,
        >(MetadataError::TooLong),
        info.length is Some || info.files is None || entries_length(info.files->0)
            <= 0xffff_ffff_ffff_ffff ==> checked_metadata_of(info, info_hash) == metadata_of(
            info,
            info_hash,
        ),
{
}

/// A list of texts as a value.
pub open spec fn text_list(path: Seq<Seq<char>>) -> Tree {
    Tree::List(path.map_values(|s: Seq<char>| Tree::Bytes(encode_utf8(s))))
}

/// Every path is read back from the list of its parts.
pub proof fn law_paths_are_read(path: Seq<Seq<char>>)
    ensures
        path_of(text_list(path)) == Some(path),
{
    let l = path.map_values(|s: Seq<char>| Tree::Bytes(encode_utf8(s)));
    assert forall|i: int| 0 <= i < l.len() implies (#[trigger] l[i]).text() == Some(path[i]) by {
        vstd::utf8::encode_utf8_valid_utf8(path[i]);
        vstd::utf8::encode_utf8_decode_utf8(path[i]);
    }
    assert(path_of(text_list(path))->0 =~= path);
}

/// A dictionary with a length and a path is a file entry with just these,
/// whatever other entries it has.
pub proof fn law_file_entries_are_read(tree: Tree, length: i64, path: Seq<Seq<char>>)
    requires
        tree.has_text_keys(),
        tree.named("length"@) == Some(Tree::Int(length)),
        tree.named("path"@) == Some(text_list(path)),
    ensures
        length >= 0 ==> file_of(tree) == Some(FileEntry { length: length as nat, path }),
        length < 0 ==> file_of(tree) is None,
{
    law_paths_are_read(path);
}

/// A list of file entries is read entry by entry, in order.
pub proof fn law_file_lists_are_read(trees: Seq<Tree>, files: Seq<FileEntry>)
    requires
        trees.len() == files.len(),
        forall|i: int| 0 <= i < trees.len() ==> file_of(#[trigger] trees[i]) == Some(files[i]),
    ensures
        files_of(Tree::List(trees)) == Some(files),
{
    assert(files_of(Tree::List(trees))->0 =~= files);
}

/// A dictionary with a name, a piece length, piece hashes, and a length or a
/// list of files or both, is an info dictionary with just these, whatever other
/// entries it has.
pub proof fn law_info_dictionaries_are_read(
    tree: Tree,
    name: Seq<char>,
    piece_length: i64,
    pieces: Seq<u8>,
    length: Option<i64>,
    trees: Option<Seq<Tree>>,
    files: Option<Seq<FileEntry>>,
)
    requires
        tree is Dict,
        tree.has_text_keys(),
        tree.named("name"@) == Some(Tree::Bytes(encode_utf8(name))),
        tree.named("piece length"@) == Some(Tree::Int(piece_length)),
        0 <= piece_length <= usize::MAX,
        tree.named("pieces"@) == Some(Tree::Bytes(pieces)),
        match length {
            Some(n) => n >= 0 && tree.named("length"@) == Some(Tree::Int(n)),
            None => tree.named("length"@) is None,
        },
        match (trees, files) {
            (Some(t), Some(f)) => tree.named("files"@) == Some(Tree::List(t)) && t.len() == f.len()
                && forall|i: int| 0 <= i < t.len() ==> file_of(#[trigger] t[i]) == Some(f[i]),
            (None, None) => tree.named("files"@) is None,
            _ => false,
        },
    ensures
        info_of(tree) == Some(
            Info {
                name,
                piece_length: piece_length as nat,
                pieces,
                length: match length {
                    Some(n) => Some(n as nat),
                    None => None,
                },
                files,
            },
        ),
{
    vstd::utf8::encode_utf8_valid_utf8(name);
    vstd::utf8::encode_utf8_decode_utf8(name);
    if let (Some(t), Some(f)) = (trees, files) {
        law_file_lists_are_read(t, f);
    }
}

/// A torrent file is a dictionary whose keys are texts. Its metadata are those
/// of the dictionary under `info`, and its info hash is the hash of that
/// dictionary in bencoded form.
pub proof fn law_torrent_files_are_read(bytes: Seq<u8>, torrent: Tree, tree: Tree, info: Info)
    requires
        decoded(bytes) == Some(torrent),
        torrent.has_text_keys(),
        has_string_keys(bytes, 1),
    ensures
        torrent.named("info"@) == Some(tree) && info_of(tree) == Some(info) ==> torrent_of(bytes)
            == checked_metadata_of(info, sha1_of(encoded(tree))),
        torrent.named("info"@) == Some(tree) && info_of(tree) is None ==> torrent_of(bytes)
            == Err::<Metadata, MetadataError>(MetadataError::InvalidInfo),
        torrent.named("info"@) is None ==> torrent_of(bytes) == Err::<Metadata, MetadataError>(
            MetadataError::NoInfo,
        ),
{
}

/// What peers sent is read as an info dictionary and keeps the hash that it was
/// asked for by; without one it is refused.
pub proof fn law_metadata_from_peers(bytes: Seq<u8>, info_hash: Seq<u8>, tree: Tree)
    ensures
        decoded(bytes) is None ==> peer_metadata_of(bytes, info_hash) == Err::<
            Metadata,
            MetadataError,
        >(MetadataError::InvalidMetadata),
        decoded(bytes) == Some(tree) && tree is Dict && has_info_keys_once(bytes) && info_of(tree)
            is Some ==> peer_metadata_of(bytes, info_hash) == checked_metadata_of(
            info_of(tree)->0,
            info_hash,
        ),
        decoded(bytes) == Some(tree) && info_of(tree) is None ==> peer_metadata_of(bytes, info_hash)
            == Err::<Metadata, MetadataError>(MetadataError::InvalidMetadata),
{
}

/// All pieces but the last have the piece length. The last has what is left,
/// and never nothing.
pub proof fn law_all_pieces_but_the_last_are_full(
    count: nat,
    piece_length: usize,
    total_length: u64,
    i: int,
)
    requires
        piece_length > 0,
        total_length <= usize::MAX,
        0 <= i < count,
    ensures
        piece_lengths(count, piece_length, total_length).len() == count,
        i < count - 1 ==> piece_lengths(count, piece_length, total_length)[i] == piece_length,
        0 < piece_lengths(count, piece_length, total_length)[i] <= piece_length,
        i == count - 1 ==> (total_length - piece_lengths(count, piece_length, total_length)[i])
            % (piece_length as int) == 0,
{
    let rest = total_length as usize % piece_length;
    let b = piece_length as int;
    let t = total_length as int;
    vstd::arithmetic::div_mod::lemma_fundamental_div_mod(t, b);
    vstd::arithmetic::div_mod::lemma_mod_bound(t, b);
    if i == count - 1 {
        if rest == 0 {
            vstd::arithmetic::div_mod::lemma_mod_sub_multiples_vanish(t, b);
        } else {
            vstd::arithmetic::div_mod::lemma_mod_multiples_basic(t / b, b);
            assert(t - t % b == (t / b) * b) by (nonlinear_arith)
                requires
                    t == b * (t / b) + t % b,
            ;
        }
    }
}

/// A part of a piece points at bytes of its file that lie in the piece, and at
/// all of them; a file has a part just where it has bytes there.
pub proof fn law_parts_point_at_their_bytes(
    files: Seq<FileSpan>,
    start: nat,
    end: nat,
    part: int,
    file: usize,
)
    requires
        start < end <= u64::MAX,
        files.len() <= usize::MAX,
        forall|i: int|
            0 <= i < files.len() ==> (#[trigger] files[i]).offset + files[i].length <= u64::MAX,
    ensures
        ({
            let parts = parts_of_piece(files, start, end);
            &&& 0 <= part < parts.len() ==> parts[part].0 < files.len()
            &&& 0 <= part < parts.len() ==> ({
                let span = files[parts[part].0 as int];
                let from = span.offset + parts[part].1;
                let to = from + parts[part].2;
                &&& start <= from <= to <= end
                &&& to <= span.offset + span.length
                &&& from == start || parts[part].1 == 0
                &&& to == end || to == span.offset + span.length
            })
            &&& 0 < part < parts.len() ==> parts[part - 1].0 < parts[part].0
            &&& file < files.len() && files[file as int].offset < end && files[file as int].offset
                + files[file as int].length > start ==> exists|k: int|
                0 <= k < parts.len() && (#[trigger] parts[k]).0 == file
        }),
    decreases files.len(),
{
    if files.len() > 0 {
        let front = files.drop_last();
        let last = files.last();
        assert(files[files.len() - 1] == last);
        assert forall|i: int| 0 <= i < front.len() implies (#[trigger] front[i]).offset
            + front[i].length <= u64::MAX by {
            assert(files[i] == front[i]);
        }
        let before = parts_of_piece(front, start, end);
        let parts = parts_of_piece(files, start, end);
        law_parts_point_at_their_bytes(front, start, end, part, file);
        if part > 0 {
            law_parts_point_at_their_bytes(front, start, end, part - 1, file);
        }
        if file < files.len() && files[file as int].offset < end && files[file as int].offset
            + files[file as int].length > start {
            if file == files.len() - 1 {
                assert(parts[before.len() as int].0 == file);
            } else {
                let k = choose|k: int| 0 <= k < before.len() && (#[trigger] before[k]).0 == file;
                assert(parts[k].0 == file);
            }
        }
    }
}

/// A piece ends a piece length after it starts, but not after the end of all
/// data.
pub proof fn law_end_of_a_piece(piece_index: nat, piece_length: nat, total_length: nat)
    ensures
        end_of_piece(piece_index, piece_length, total_length) <= total_length,
        end_of_piece(piece_index, piece_length, total_length) <= (piece_index + 1) * piece_length,
        end_of_piece(piece_index, piece_length, total_length) == total_length || end_of_piece(
            piece_index,
            piece_length,
            total_length,
        ) == (piece_index + 1) * piece_length,
{
    assert((piece_index + 1) * piece_length == piece_index * piece_length + piece_length)
        by (nonlinear_arith);
}

/// What metadata show is what their fields hold.
pub proof fn law_metadata_show_their_fields(m: TorrentMetadata, i: int, k: int)
    ensures
        m@.info_hash == m.info_hash@,
        m@.name == m.name@,
        m@.piece_length == m.piece_length,
        m@.total_length == m.total_length,
        m@.is_single_file == m.is_single_file,
        m@.pieces.len() == m.pieces@.len(),
        0 <= i < m.pieces@.len() ==> m@.pieces[i] == m.pieces@[i]@,
        m@.files.len() == m.files@.len(),
        0 <= i < m.files@.len() ==> ({
            &&& m@.files[i].length == m.files@[i].length
            &&& m@.files[i].offset == m.files@[i].offset
            &&& m@.files[i].path.len() == m.files@[i].path@.len()
            &&& 0 <= k < m.files@[i].path@.len() ==> m@.files[i].path[k] == m.files@[i].path@[k]@
        }),
{
}

/// What an info dictionary shows is what its fields hold.
pub proof fn law_info_shows_its_fields(info: InfoDict, i: int, k: int)
    ensures
        info@.name == info.name@,
        info@.piece_length == info.piece_length,
        info@.pieces == info.pieces@,
        info.length is Some ==> info@.length == Some(info.length->0 as nat),
        info.length is None ==> info@.length is None,
        info.files is None ==> info@.files is None,
        info.files is Some ==> ({
            let files = info.files->0@;
            &&& info@.files is Some
            &&& info@.files->0.len() == files.len()
            &&& 0 <= i < files.len() ==> info@.files->0[i].length == files[i].length
                && info@.files->0[i].path.len() == files[i].path@.len()
            &&& 0 <= i < files.len() && 0 <= k < files[i].path@.len()
                ==> info@.files->0[i].path[k] == files[i].path@[k]@
        }),
{
}

/// A dictionary that lacks its name, its piece length or its piece hashes, or
/// has something else than a number, a text or hashes there, is no info
/// dictionary; nor is anything but a dictionary or a list.
pub proof fn law_what_is_no_info_dictionary(tree: Tree)
    ensures
        tree is Dict && (tree.named("name"@) is None || tree.named("piece length"@) is None
            || tree.named("pieces"@) is None) ==> info_of(tree) is None,
        tree is Dict && tree.named("name"@) is Some && tree.named("name"@)->0.text() is None
            ==> info_of(tree) is None,
        tree is Dict && tree.named("piece length"@) is Some && tree.named(
            "piece length"@,
        )->0.number(usize::MAX as nat) is None ==> info_of(tree) is None,
        tree is Dict && tree.named("pieces"@) is Some && tree.named("pieces"@)->0.byte_list() is None
            ==> info_of(tree) is None,
        tree is Dict && tree.named("length"@) is Some && tree.named("length"@)->0.number(
            u64::MAX as nat,
        ) is None ==> info_of(tree) is None,
        tree is Dict && !tree.has_text_keys() ==> info_of(tree) is None,
        tree is Int || tree is Bytes ==> info_of(tree) is None,
{
}

/// A list is read as an info dictionary by position: name, piece length,
/// pieces, length and files, of which only the files may be missing.
pub proof fn law_info_lists_are_read_by_position(
    l: Seq<Tree>,
    name: Seq<char>,
    piece_length: i64,
    pieces: Seq<u8>,
    length: i64,
    files: Seq<FileEntry>,
)
    requires
        l.len() >= 4 ==> l[0] == Tree::Bytes(encode_utf8(name)) && l[1] == Tree::Int(piece_length)
            && l[2] == Tree::Bytes(pieces) && l[3] == Tree::Int(length),
        0 <= piece_length <= usize::MAX,
        0 <= length,
        l.len() > 4 ==> files_of(l[4]) == Some(files),
    ensures
        l.len() < 4 ==> info_of(Tree::List(l)) is None,
        l.len() >= 4 ==> info_of(Tree::List(l)) == Some(
            Info {
                name,
                piece_length: piece_length as nat,
                pieces,
                length: Some(length as nat),
                files: if l.len() > 4 {
                    Some(files)
                } else {
                    None
                },
            },
        ),
{
    vstd::utf8::encode_utf8_valid_utf8(name);
    vstd::utf8::encode_utf8_decode_utf8(name);
}

/// The file entries of a list have each of their keys at most once.
pub open spec fn entries_are_clear(l: Seq<Raw>, from: int) -> bool {
    forall|i: int|
        from <= i < l.len() ==> ((#[trigger] l[i]) matches Raw::Dict(d) ==> !is_twice(d, "length"@)
            && !is_twice(d, "path"@))
}

/// The keys of the file entries in a list are checked one entry after the
/// other.
proof fn lemma_list_keys(data: Seq<u8>, at: nat, l: Seq<Raw>, from: int)
    requires
        stands_at(data, at, list_bytes(l)),
        at + list_bytes(l).len() < data.len(),
        data[(at + list_bytes(l).len()) as int] == 101,
        0 <= from <= l.len(),
        forall|k: int| 0 <= k < l.len() ==> is_plain(#[trigger] l[k]),
    ensures
        list_has_file_keys_once(data, item_start(at, l, from)) <==> entries_are_clear(l, from),
    decreases l.len() - from,
{
    if from < l.len() {
        lemma_item_stands(data, at, l, from);
        let place = item_start(at, l, from);
        lemma_marks(data, place, l[from]);
        lemma_list_keys(data, at, l, from + 1);
        if let Raw::Dict(d) = l[from] {
            assert forall|k: int| 0 <= k < d.len() implies is_plain((#[trigger] d[k]).1) by {
                assert(is_plain(l[from]));
            }
            lemma_repeated_keys(data, place + 1, d, "length"@);
            lemma_repeated_keys(data, place + 1, d, "path"@);
        }
        if entries_are_clear(l, from + 1) && (l[from] matches Raw::Dict(d) ==> !is_twice(
            d,
            "length"@,
        ) && !is_twice(d, "path"@)) {
            assert(entries_are_clear(l, from));
        }
        if entries_are_clear(l, from) {
            assert(entries_are_clear(l, from + 1));
        }
    } else {
        assert(l.take(from) =~= l);
    }
}

/// An info dictionary as it is written is clear just where no key that is
/// looked at occurs twice, in it and in the file entries of its first file
/// list. Other keys may.
pub proof fn law_clear_info_dictionaries(d: Seq<(Seq<u8>, Raw)>, behind: Seq<u8>, f: int)
    requires
        is_plain(Raw::Dict(d)),
        is_first_with(d, encode_utf8("files"@), 0, f) || forall|j: int|
            0 <= j < d.len() ==> (#[trigger] d[j]).0 != encode_utf8("files"@),
    ensures
        has_info_keys_once(raw_bytes(Raw::Dict(d)) + behind) <==> ({
            &&& !is_twice(d, "name"@)
            &&& !is_twice(d, "piece length"@)
            &&& !is_twice(d, "pieces"@)
            &&& !is_twice(d, "length"@)
            &&& !is_twice(d, "files"@)
            &&& is_first_with(d, encode_utf8("files"@), 0, f) ==> (d[f].1 matches Raw::List(l)
                ==> entries_are_clear(l, 0))
        }),
{
    let data = raw_bytes(Raw::Dict(d)) + behind;
    let key = encode_utf8("files"@);
    assert(stands_at(data, 0, raw_bytes(Raw::Dict(d))));
    lemma_marks(data, 0, Raw::Dict(d));
    assert forall|k: int| 0 <= k < d.len() implies is_plain((#[trigger] d[k]).1) by {}
    law_repeated_keys_are_found(d, behind, "name"@);
    law_repeated_keys_are_found(d, behind, "piece length"@);
    law_repeated_keys_are_found(d, behind, "pieces"@);
    law_repeated_keys_are_found(d, behind, "length"@);
    law_repeated_keys_are_found(d, behind, "files"@);
    lemma_field_stands(data, 1, d, key, f);
    if is_first_with(d, key, 0, f) {
        let place = field_at(data, 1, key)->0;
        lemma_marks(data, place, d[f].1);
        if let Raw::List(l) = d[f].1 {
            assert forall|k: int| 0 <= k < l.len() implies is_plain(#[trigger] l[k]) by {
                assert(is_plain(d[f].1));
            }
            assert(l.take(0) =~= Seq::empty());
            assert(item_start(place + 1, l, 0) == place + 1);
            lemma_list_keys(data, place + 1, l, 0);
        }
    }
}

/// What peers sent is read where its dictionary is clear, and refused where it
/// is not.
pub proof fn law_only_clear_dictionaries_are_read(data: Seq<u8>, tree: Tree)
    requires
        decoded(data) == Some(tree),
    ensures
        tree is Dict && has_info_keys_once(data) ==> info_in(data) == info_of(tree),
        tree is Dict && !has_info_keys_once(data) ==> info_in(data) is None,
        tree is Int || tree is Bytes ==> info_in(data) is None,
{
}

/// What is no list of texts is no path, a dictionary without a length or a
/// path is no file entry, and a list with anything else in it is no file list.
/// An info dictionary with such a thing for its files is none.
pub proof fn law_what_is_no_file_list(tree: Tree, l: Seq<Tree>, i: int)
    ensures
        !(tree is List) ==> path_of(tree) is None && files_of(tree) is None,
        !(tree is Dict) ==> file_of(tree) is None,
        0 <= i < l.len() && l[i].text() is None ==> path_of(Tree::List(l)) is None,
        0 <= i < l.len() && file_of(l[i]) is None ==> files_of(Tree::List(l)) is None,
        tree.named("length"@) is None || tree.named("path"@) is None ==> file_of(tree) is None,
        tree.named("path"@) is Some && path_of(tree.named("path"@)->0) is None ==> file_of(tree)
            is None,
        tree.named("length"@) is Some && tree.named("length"@)->0.number(u64::MAX as nat) is None
            ==> file_of(tree) is None,
        tree is Dict && tree.named("files"@) is Some && files_of(tree.named("files"@)->0) is None
            ==> info_of(tree) is None,
{
}

/// Files and hashes are told one by one, in order.
pub proof fn law_files_and_hashes_are_one_by_one(
    files: Seq<TorrentFile>,
    pieces: Seq<[u8; 20]>,
    bytes: Seq<u8>,
    i: int,
)
    ensures
        spans(files).len() == files.len(),
        0 <= i < files.len() ==> spans(files)[i].path == texts(files[i].path@)
            && spans(files)[i].length == files[i].length && spans(files)[i].offset
            == files[i].offset,
        hashes(pieces).len() == pieces.len(),
        0 <= i < pieces.len() ==> hashes(pieces)[i] == pieces[i]@,
        20 * cut_hashes(bytes).len() <= bytes.len() < 20 * cut_hashes(bytes).len() + 20,
        0 <= i < cut_hashes(bytes).len() ==> cut_hashes(bytes)[i] == bytes.skip(20 * i).take(20),
{
    if 0 <= i < cut_hashes(bytes).len() {
        assert(cut_hashes(bytes)[i] =~= bytes.skip(20 * i).take(20));
    }
}

/// Counting values from the start of a list gives where its items start.
proof fn lemma_item_place(data: Seq<u8>, at: nat, l: Seq<Raw>, from: int, i: nat)
    requires
        stands_at(data, at, list_bytes(l)),
        0 <= from <= from + i <= l.len(),
        forall|k: int| 0 <= k < l.len() ==> is_plain(#[trigger] l[k]),
    ensures
        item_at(data, item_start(at, l, from), i) == item_start(at, l, from + i),
    decreases i,
{
    if i > 0 {
        lemma_item_stands(data, at, l, from);
        lemma_item_place(data, at, l, from + 1, (i - 1) as nat);
    }
}

/// An info dictionary that is written as a list is read just where no file
/// entry in its fifth item has a key twice. Where it has four items there is
/// none.
pub proof fn law_clear_info_lists(l: Seq<Raw>, behind: Seq<u8>, tree: Tree)
    requires
        is_plain(Raw::List(l)),
        l.len() >= 4,
        decoded(raw_bytes(Raw::List(l)) + behind) == Some(tree),
        tree is List,
    ensures
        l.len() == 4 ==> info_in(raw_bytes(Raw::List(l)) + behind) == info_of(tree),
        l.len() > 4 && (l[4] matches Raw::List(files) ==> entries_are_clear(files, 0)) ==> info_in(
            raw_bytes(Raw::List(l)) + behind,
        ) == info_of(tree),
        l.len() > 4 && l[4] is List && !entries_are_clear(l[4]->List_0, 0) ==> info_in(
            raw_bytes(Raw::List(l)) + behind,
        ) is None,
{
    let data = raw_bytes(Raw::List(l)) + behind;
    assert(stands_at(data, 0, raw_bytes(Raw::List(l))));
    lemma_marks(data, 0, Raw::List(l));
    assert(l.take(0) =~= Seq::empty());
    assert(item_start(1, l, 0) == 1);
    lemma_item_place(data, 1, l, 0, 4);
    let place = item_at(data, 1, 4);
    if l.len() == 4 {
        assert(l.take(4) =~= l);
    } else {
        lemma_item_stands(data, 1, l, 4);
        lemma_marks(data, place, l[4]);
        if let Raw::List(files) = l[4] {
            assert forall|k: int| 0 <= k < files.len() implies is_plain(#[trigger] files[k]) by {
                assert(is_plain(l[4]));
            }
            assert(files.take(0) =~= Seq::empty());
            assert(item_start(place + 1, files, 0) == place + 1);
            lemma_list_keys(data, place + 1, files, 0);
        }
    }
}

} // verus!

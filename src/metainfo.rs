use vstd::prelude::*;
use crate::chunks::{ChunkLengthError, Hashes, CHUNK_SIZE};
use crate::dict::{key_views, vec_eq};
use crate::value::{entries_of, entry_terms, lemma_entries_of_views, term_of, terms_of, Term, Value};

verus! {

broadcast use {vstd::std_specs::vec::group_vec_axioms, vstd::seq::group_seq_axioms};

/// One file of a multi-file torrent.
pub struct File {
    pub length: usize,
    pub path: Vec<String>,
}

/// Single-file or multi-file layout: exactly one of `length` and `files`.
pub enum Key {
    SingleFile { length: usize },
    MultiFile { files: Vec<File> },
}

pub struct Info {
    /// The file name, or the directory name of a multi-file torrent.
    pub name: String,
    pub piece_length: usize,
    pub pieces: Hashes,
    pub key: Key,
}

/// A torrent metainfo dictionary.
pub struct Torrent {
    pub announce: String,
    pub info: Info,
}

/// A metainfo field.
#[derive(Debug, Clone, Copy, PartialEq, Eq, Structural)]
pub enum Field {
    Announce,
    Info,
    Name,
    PieceLength,
    Pieces,
    Length,
    Files,
    Path,
}

/// A decoded term that does not have the shape of a torrent.
#[derive(Debug, Clone, Copy, PartialEq, Eq, Structural)]
pub enum ProjectionError {
    /// The torrent, its `info`, or a file entry is not a dictionary.
    NotADictionary,
    Missing(Field),
    /// The field holds a term of another kind, text that is not UTF-8, or a
    /// negative or too large number.
    WrongKind(Field),
    BadPieces(ChunkLengthError),
    BothLengthAndFiles,
    NeitherLengthNorFiles,
}

/// What `String::from_utf8` makes of some bytes: their text, or nothing when
/// they are not UTF-8.
pub uninterp spec fn utf8_decoded(b: Seq<u8>) -> Option<Seq<char>>;

/// Relies on `String::from_utf8`: it succeeds exactly on valid UTF-8 and then
/// holds the text those bytes spell.
#[verifier::external_body]
fn utf8_text(b: &Vec<u8>) -> (r: Option<String>)
    ensures
        match utf8_decoded(b@) {
            Some(t) => r matches Some(s) && s@ == t,
            None => r is None,
        },
{
    String::from_utf8(b.clone()).ok()
}

pub open spec fn key_announce() -> Seq<u8> {
    seq![97u8, 110, 110, 111, 117, 110, 99, 101]
}

pub open spec fn key_info() -> Seq<u8> {
    seq![105u8, 110, 102, 111]
}

pub open spec fn key_name() -> Seq<u8> {
    seq![110u8, 97, 109, 101]
}

pub open spec fn key_piece_length() -> Seq<u8> {
    seq![112u8, 105, 101, 99, 101, 32, 108, 101, 110, 103, 116, 104]
}

pub open spec fn key_pieces() -> Seq<u8> {
    seq![112u8, 105, 101, 99, 101, 115]
}

pub open spec fn key_length() -> Seq<u8> {
    seq![108u8, 101, 110, 103, 116, 104]
}

pub open spec fn key_files() -> Seq<u8> {
    seq![102u8, 105, 108, 101, 115]
}

pub open spec fn key_path() -> Seq<u8> {
    seq![112u8, 97, 116, 104]
}

/// The value of the first entry with key `k`.
pub open spec fn lookup(d: Seq<(Seq<u8>, Term)>, k: Seq<u8>) -> Option<Term>
    decreases d.len(),
{
    if d.len() == 0 {
        None
    } else if d[0].0 == k {
        Some(d[0].1)
    } else {
        lookup(d.drop_first(), k)
    }
}

pub open spec fn text_in(d: Seq<(Seq<u8>, Term)>, k: Seq<u8>) -> Option<Seq<char>> {
    match lookup(d, k) {
        Some(Term::Bytes(b)) => utf8_decoded(b),
        _ => None,
    }
}

pub open spec fn count_in(d: Seq<(Seq<u8>, Term)>, k: Seq<u8>) -> Option<int> {
    match lookup(d, k) {
        Some(Term::Int(n)) => if 0 <= n <= usize::MAX {
            Some(n)
        } else {
            None
        },
        _ => None,
    }
}

pub open spec fn file_valid(t: Term) -> bool {
    &&& t matches Term::Dict(d)
    &&& count_in(d, key_length()) is Some
    &&& lookup(d, key_path()) matches Some(Term::List(segs))
    &&& forall|i: int| 0 <= i < segs.len() ==> (#[trigger] segs[i] matches Term::Bytes(b) && utf8_decoded(b) is Some)
}

pub open spec fn key_valid(d: Seq<(Seq<u8>, Term)>) -> bool {
    if lookup(d, key_length()) is Some {
        lookup(d, key_files()) is None && count_in(d, key_length()) is Some
    } else {
        &&& lookup(d, key_files()) matches Some(Term::List(fs))
        &&& forall|i: int| 0 <= i < fs.len() ==> file_valid(#[trigger] fs[i])
    }
}

pub open spec fn info_valid(t: Term) -> bool {
    &&& t matches Term::Dict(d)
    &&& key_valid(d)
    &&& text_in(d, key_name()) is Some
    &&& count_in(d, key_piece_length()) is Some
    &&& lookup(d, key_pieces()) matches Some(Term::Bytes(b))
    &&& b.len() % (CHUNK_SIZE as nat) == 0
}

/// The terms that project onto a torrent.
pub open spec fn torrent_valid(t: Term) -> bool {
    &&& t matches Term::Dict(d)
    &&& text_in(d, key_announce()) is Some
    &&& lookup(d, key_info()) matches Some(i)
    &&& info_valid(i)
}

pub open spec fn file_matches(f: File, t: Term) -> bool {
    &&& t matches Term::Dict(d)
    &&& count_in(d, key_length()) == Some(f.length as int)
    &&& lookup(d, key_path()) matches Some(Term::List(segs))
    &&& f.path@.len() == segs.len()
    &&& forall|i: int| 0 <= i < segs.len() ==> (#[trigger] segs[i] matches Term::Bytes(b) && utf8_decoded(b) == Some(f.path@[i]@))
}

pub open spec fn key_matches(k: Key, d: Seq<(Seq<u8>, Term)>) -> bool {
    match k {
        Key::SingleFile { length } => count_in(d, key_length()) == Some(length as int),
        Key::MultiFile { files } => {
            &&& lookup(d, key_files()) matches Some(Term::List(fs))
            &&& files@.len() == fs.len()
            &&& forall|i: int| 0 <= i < fs.len() ==> file_matches(#[trigger] files@[i], fs[i])
        },
    }
}

pub open spec fn info_matches(info: Info, t: Term) -> bool {
    &&& t matches Term::Dict(d)
    &&& text_in(d, key_name()) == Some(info.name@)
    &&& count_in(d, key_piece_length()) == Some(info.piece_length as int)
    &&& lookup(d, key_pieces()) == Some(Term::Bytes(info.pieces.bytes()))
    &&& key_matches(info.key, d)
}

/// `tor` is the projection of `t`.
pub open spec fn torrent_matches(tor: Torrent, t: Term) -> bool {
    &&& t matches Term::Dict(d)
    &&& text_in(d, key_announce()) == Some(tor.announce@)
    &&& lookup(d, key_info()) matches Some(i)
    &&& info_matches(tor.info, i)
}

fn announce_key() -> (r: Vec<u8>)
    ensures
        r@ == key_announce(),
{
    let r = vec![97u8, 110, 110, 111, 117, 110, 99, 101];
    assert(r@ =~= key_announce());
    r
}

fn info_key() -> (r: Vec<u8>)
    ensures
        r@ == key_info(),
{
    let r = vec![105u8, 110, 102, 111];
    assert(r@ =~= key_info());
    r
}

fn name_key() -> (r: Vec<u8>)
    ensures
        r@ == key_name(),
{
    let r = vec![110u8, 97, 109, 101];
    assert(r@ =~= key_name());
    r
}

fn piece_length_key() -> (r: Vec<u8>)
    ensures
        r@ == key_piece_length(),
{
    let r = vec![112u8, 105, 101, 99, 101, 32, 108, 101, 110, 103, 116, 104];
    assert(r@ =~= key_piece_length());
    r
}

fn pieces_key() -> (r: Vec<u8>)
    ensures
        r@ == key_pieces(),
{
    let r = vec![112u8, 105, 101, 99, 101, 115];
    assert(r@ =~= key_pieces());
    r
}

fn length_key() -> (r: Vec<u8>)
    ensures
        r@ == key_length(),
{
    let r = vec![108u8, 101, 110, 103, 116, 104];
    assert(r@ =~= key_length());
    r
}

fn files_key() -> (r: Vec<u8>)
    ensures
        r@ == key_files(),
{
    let r = vec![102u8, 105, 108, 101, 115];
    assert(r@ =~= key_files());
    r
}

fn path_key() -> (r: Vec<u8>)
    ensures
        r@ == key_path(),
{
    let r = vec![112u8, 97, 116, 104];
    assert(r@ =~= key_path());
    r
}

/// An `info` dictionary with both `length` and `files`, or with neither, makes
/// no torrent; of one that does, the layout is single-file exactly when
/// `length` is there.
pub proof fn lemma_layout_exclusive(t: Term, tor: Torrent)
    requires
        t matches Term::Dict(d) && lookup(d, key_info()) matches Some(Term::Dict(_)),
    ensures
        ({
            let info = lookup(t->Dict_0, key_info())->Some_0->Dict_0;
            &&& (lookup(info, key_length()) is Some) == (lookup(info, key_files()) is Some)
                ==> !torrent_valid(t)
            &&& torrent_valid(t) && torrent_matches(tor, t) ==> (tor.info.key is SingleFile
                <==> lookup(info, key_length()) is Some)
        }),
{
}

/// The value of the first entry of `d` with key `k`.
fn find<'a>(d: &'a Vec<(Vec<u8>, Value)>, k: &Vec<u8>) -> (r: Option<&'a Value>)
    ensures
        match lookup(entries_of(d@), k@) {
            Some(t) => r matches Some(v) && v@ == t,
            None => r is None,
        },
{
    proof {
        lemma_entries_of_views(d@);
    }
    let ghost ent = entries_of(d@);
    let mut i: usize = 0;
    assert(ent.subrange(0, ent.len() as int) =~= ent);
    while i < d.len()
        invariant
            i <= d@.len(),
            ent == entries_of(d@),
            ent == entry_terms(key_views(d@)),
            lookup(ent, k@) == lookup(ent.subrange(i as int, ent.len() as int), k@),
        decreases d.len() - i,
    {
        let ghost rest = ent.subrange(i as int, ent.len() as int);
        assert(rest[0] == ent[i as int]);
        assert(rest.drop_first() =~= ent.subrange(i + 1, ent.len() as int));
        if vec_eq(&d[i].0, k) {
            return Some(&d[i].1);
        }
        i = i + 1;
    }
    None
}

fn get_text(d: &Vec<(Vec<u8>, Value)>, k: &Vec<u8>, f: Field) -> (r: Result<String, ProjectionError>)
    ensures
        match text_in(entries_of(d@), k@) {
            Some(t) => r matches Ok(s) && s@ == t,
            None => r is Err,
        },
{
    match find(d, k) {
        Some(Value::ByteString(b)) => match utf8_text(b) {
            Some(s) => Ok(s),
            None => Err(ProjectionError::WrongKind(f)),
        },
        Some(_) => Err(ProjectionError::WrongKind(f)),
        None => Err(ProjectionError::Missing(f)),
    }
}

fn get_count(d: &Vec<(Vec<u8>, Value)>, k: &Vec<u8>, f: Field) -> (r: Result<usize, ProjectionError>)
    ensures
        match count_in(entries_of(d@), k@) {
            Some(n) => r matches Ok(m) && m as int == n,
            None => r is Err,
        },
{
    match find(d, k) {
        Some(Value::Integer(n)) => {
            if *n < 0 || *n as u64 > usize::MAX as u64 {
                Err(ProjectionError::WrongKind(f))
            } else {
                Ok(*n as usize)
            }
        },
        Some(_) => Err(ProjectionError::WrongKind(f)),
        None => Err(ProjectionError::Missing(f)),
    }
}

fn project_file(v: &Value) -> (r: Result<File, ProjectionError>)
    ensures
        r is Ok <==> file_valid(v@),
        r matches Ok(f) ==> file_matches(f, v@),
{
    let d = match v {
        Value::Dictionary(d) => d,
        _ => return Err(ProjectionError::NotADictionary),
    };
    let length = get_count(d, &length_key(), Field::Length)?;
    let segs = match find(d, &path_key()) {
        Some(Value::List(segs)) => segs,
        Some(_) => return Err(ProjectionError::WrongKind(Field::Path)),
        None => return Err(ProjectionError::Missing(Field::Path)),
    };
    let ghost ts = terms_of(segs@);
    proof {
        lemma_terms_index(segs@);
    }
    let mut path: Vec<String> = Vec::new();
    let mut i: usize = 0;
    while i < segs.len()
        invariant
            i <= segs@.len(),
            ts == terms_of(segs@),
            ts.len() == segs@.len(),
            forall|j: int| 0 <= j < segs@.len() ==> #[trigger] ts[j] == term_of(segs@[j]),
            path@.len() == i,
            *v == Value::Dictionary(*d),
            lookup(entries_of(d@), key_path()) == Some(Term::List(ts)),
            count_in(entries_of(d@), key_length()) == Some(length as int),
            forall|j: int| 0 <= j < i ==> (#[trigger] ts[j] matches Term::Bytes(b) && utf8_decoded(b) == Some(path@[j]@)),
        decreases segs.len() - i,
    {
        assert(ts[i as int] == term_of(segs@[i as int]));
        let s = match &segs[i] {
            Value::ByteString(b) => match utf8_text(b) {
                Some(s) => s,
                None => return Err(ProjectionError::WrongKind(Field::Path)),
            },
            _ => return Err(ProjectionError::WrongKind(Field::Path)),
        };
        path.push(s);
        i = i + 1;
    }
    Ok(File { length, path })
}

/// Terms of a sequence of values, index by index.
proof fn lemma_terms_index(s: Seq<Value>)
    ensures
        terms_of(s).len() == s.len(),
        forall|j: int| 0 <= j < s.len() ==> #[trigger] terms_of(s)[j] == term_of(s[j]),
    decreases s.len(),
{
    if s.len() > 0 {
        lemma_terms_index(s.drop_last());
    }
}

fn project_key(d: &Vec<(Vec<u8>, Value)>) -> (r: Result<Key, ProjectionError>)
    ensures
        r is Ok <==> key_valid(entries_of(d@)),
        r matches Ok(k) ==> key_matches(k, entries_of(d@)),
        lookup(entries_of(d@), key_length()) is Some && lookup(entries_of(d@), key_files()) is Some
            ==> r == Err::<Key, ProjectionError>(ProjectionError::BothLengthAndFiles),
        lookup(entries_of(d@), key_length()) is None && lookup(entries_of(d@), key_files()) is None
            ==> r == Err::<Key, ProjectionError>(ProjectionError::NeitherLengthNorFiles),
{
    let lk = length_key();
    let has_length = find(d, &lk).is_some();
    match find(d, &files_key()) {
        Some(files) => {
            if has_length {
                return Err(ProjectionError::BothLengthAndFiles);
            }
            let fs = match files {
                Value::List(fs) => fs,
                _ => return Err(ProjectionError::WrongKind(Field::Files)),
            };
            let ghost ts = terms_of(fs@);
            proof {
                lemma_terms_index(fs@);
            }
            let mut out: Vec<File> = Vec::new();
            let mut i: usize = 0;
            while i < fs.len()
                invariant
                    i <= fs@.len(),
                    ts == terms_of(fs@),
                    ts.len() == fs@.len(),
                    forall|j: int| 0 <= j < fs@.len() ==> #[trigger] ts[j] == term_of(fs@[j]),
                    out@.len() == i,
                    lookup(entries_of(d@), key_files()) == Some(Term::List(ts)),
                    lookup(entries_of(d@), key_length()) is None,
                    forall|j: int| 0 <= j < i ==> file_matches(#[trigger] out@[j], ts[j]),
                    forall|j: int| 0 <= j < i ==> file_valid(#[trigger] ts[j]),
                decreases fs.len() - i,
            {
                assert(ts[i as int] == term_of(fs@[i as int]));
                let f = match project_file(&fs[i]) {
                    Ok(f) => f,
                    Err(e) => {
                        assert(!file_valid(ts[i as int]));
                        proof {
                            if key_valid(entries_of(d@)) {
                                let fl = lookup(entries_of(d@), key_files())->Some_0->List_0;
                                assert(fl == ts);
                                assert(file_valid(fl[i as int]));
                            }
                        }
                        return Err(e);
                    },
                };
                out.push(f);
                i = i + 1;
            }
            Ok(Key::MultiFile { files: out })
        },
        None => {
            if !has_length {
                return Err(ProjectionError::NeitherLengthNorFiles);
            }
            let length = get_count(d, &lk, Field::Length)?;
            Ok(Key::SingleFile { length })
        },
    }
}

fn project_info(v: &Value) -> (r: Result<Info, ProjectionError>)
    ensures
        r is Ok <==> info_valid(v@),
        r matches Ok(info) ==> info_matches(info, v@),
{
    let d = match v {
        Value::Dictionary(d) => d,
        _ => return Err(ProjectionError::NotADictionary),
    };
    let key = project_key(d)?;
    let name = get_text(d, &name_key(), Field::Name)?;
    let piece_length = get_count(d, &piece_length_key(), Field::PieceLength)?;
    let pieces = match find(d, &pieces_key()) {
        Some(Value::ByteString(b)) => match Hashes::from_bytes(b.as_slice()) {
            Ok(h) => h,
            Err(e) => return Err(ProjectionError::BadPieces(e)),
        },
        Some(_) => return Err(ProjectionError::WrongKind(Field::Pieces)),
        None => return Err(ProjectionError::Missing(Field::Pieces)),
    };
    Ok(Info { name, piece_length, pieces, key })
}

impl Torrent {
    /// Reads a torrent out of a decoded metainfo dictionary.
    pub fn from_value(v: &Value) -> (r: Result<Torrent, ProjectionError>)
        ensures
            r is Ok <==> torrent_valid(v@),
            r matches Ok(tor) ==> torrent_matches(tor, v@),
    {
        let d = match v {
            Value::Dictionary(d) => d,
            _ => return Err(ProjectionError::NotADictionary),
        };
        let announce = get_text(d, &announce_key(), Field::Announce)?;
        let info = match find(d, &info_key()) {
            Some(i) => project_info(i)?,
            None => return Err(ProjectionError::Missing(Field::Info)),
        };
        Ok(Torrent { announce, info })
    }
}

} // verus!

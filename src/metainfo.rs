//! The metainfo model: the typed projection of a parsed metainfo dictionary,
//! its tracker list and its content identifier.
use vstd::prelude::*;
use vstd::utf8::{decode_utf8, encode_utf8, valid_utf8};

use crate::bencode::{
    encode_value, spec_encode, spec_entries, entry_views, get_string, key_is, lemma_view_dict, lemma_view_list, views, parse_field, parse_next, spec_bytes, spec_field, spec_value, Bencode,
    Entry, Value, DICTIONARY_START, END,
};
use crate::digest::{sha1_digest, sha1_of};
use crate::text::utf8_string;
use crate::Error;

verus! {

pub open spec fn info_key() -> Seq<u8> {
    seq![105u8, 110, 102, 111]
}

pub open spec fn name_key() -> Seq<u8> {
    seq![110u8, 97, 109, 101]
}

pub open spec fn piece_length_key() -> Seq<u8> {
    seq![112u8, 105, 101, 99, 101, 32, 108, 101, 110, 103, 116, 104]
}

pub open spec fn length_key() -> Seq<u8> {
    seq![108u8, 101, 110, 103, 116, 104]
}

pub open spec fn files_key() -> Seq<u8> {
    seq![102u8, 105, 108, 101, 115]
}

pub open spec fn path_key() -> Seq<u8> {
    seq![112u8, 97, 116, 104]
}

pub open spec fn announce_key() -> Seq<u8> {
    seq![97u8, 110, 110, 111, 117, 110, 99, 101]
}

pub open spec fn announce_list_key() -> Seq<u8> {
    seq![97u8, 110, 110, 111, 117, 110, 99, 101, 45, 108, 105, 115, 116]
}

/// The value of the first entry with key `key`.
pub open spec fn spec_lookup(es: Seq<(Seq<u8>, Bencode)>, key: Seq<u8>) -> Option<Bencode>
    decreases es.len(),
{
    if es.len() == 0 {
        None
    } else if es[0].0 == key {
        Some(es[0].1)
    } else {
        spec_lookup(es.drop_first(), key)
    }
}

pub struct FileModel {
    pub length: int,
    pub path: Seq<Seq<char>>,
}

pub struct InfoModel {
    pub name: Seq<char>,
    pub piece_length: int,
    pub pieces: Seq<Seq<u8>>,
    pub length: Option<int>,
    pub files: Option<Seq<FileModel>>,
}

pub struct TorrentModel {
    pub trackers: Seq<Seq<char>>,
    pub info: InfoModel,
    pub info_hash: Seq<u8>,
}

/// The text of a required byte-string field.
pub open spec fn spec_text(v: Option<Bencode>) -> Result<Seq<char>, Error> {
    match v {
        None => Err(Error::MissingField),
        Some(Bencode::Bytes(b)) => if valid_utf8(b) {
            Ok(decode_utf8(b))
        } else {
            Err(Error::BadShape)
        },
        Some(_) => Err(Error::BadShape),
    }
}

/// The texts of a list of byte strings.
pub open spec fn spec_texts(vs: Seq<Bencode>) -> Result<Seq<Seq<char>>, Error>
    decreases vs.len(),
{
    if vs.len() == 0 {
        Ok(Seq::empty())
    } else {
        match spec_texts(vs.drop_last()) {
            Ok(p) => match spec_text(Some(vs.last())) {
                Ok(t) => Ok(p.push(t)),
                Err(e) => Err(e),
            },
            Err(e) => Err(e),
        }
    }
}

/// A required integer field that must be at least `min`.
pub open spec fn spec_int_field(v: Option<Bencode>, min: int) -> Result<int, Error> {
    match v {
        None => Err(Error::MissingField),
        Some(Bencode::Int(n)) => if n >= min {
            Ok(n)
        } else {
            Err(Error::BadShape)
        },
        Some(_) => Err(Error::BadShape),
    }
}

/// One entry of `files`: a dictionary with `length` and `path`.
pub open spec fn spec_file(v: Bencode) -> Result<FileModel, Error> {
    match v {
        Bencode::Dict(es) => match spec_int_field(spec_lookup(es, length_key()), 0) {
            Ok(length) => match spec_lookup(es, path_key()) {
                None => Err(Error::MissingField),
                Some(Bencode::List(ps)) => match spec_texts(ps) {
                    Ok(path) => Ok(FileModel { length, path }),
                    Err(e) => Err(e),
                },
                Some(_) => Err(Error::BadShape),
            },
            Err(e) => Err(e),
        },
        _ => Err(Error::BadShape),
    }
}

pub open spec fn spec_files(vs: Seq<Bencode>) -> Result<Seq<FileModel>, Error>
    decreases vs.len(),
{
    if vs.len() == 0 {
        Ok(Seq::empty())
    } else {
        match spec_files(vs.drop_last()) {
            Ok(p) => match spec_file(vs.last()) {
                Ok(f) => Ok(p.push(f)),
                Err(e) => Err(e),
            },
            Err(e) => Err(e),
        }
    }
}

/// The sum of the file lengths.
pub open spec fn sum_lengths(fs: Seq<FileModel>) -> int
    decreases fs.len(),
{
    if fs.len() == 0 {
        0
    } else {
        sum_lengths(fs.drop_last()) + fs.last().length
    }
}

/// The length of the whole content: the single file's, or the sum of all.
pub open spec fn total_length(m: InfoModel) -> int {
    match m.length {
        Some(n) => n,
        None => match m.files {
            Some(fs) => sum_lengths(fs),
            None => 0,
        },
    }
}

/// The number of chunks that `total` bytes fill, in chunks of `piece_length`.
pub open spec fn chunk_count(total: int, piece_length: int) -> int
    recommends
        piece_length > 0,
{
    (total + piece_length - 1) / piece_length
}

/// A consistent info: positive piece length, a total that fits in 64
/// signed bits, and one digest per chunk.
pub open spec fn consistent(m: InfoModel) -> bool {
    &&& m.piece_length > 0
    &&& 0 <= total_length(m) <= i64::MAX
    &&& m.pieces.len() == chunk_count(total_length(m), m.piece_length)
    &&& m.length is Some != m.files is Some
    &&& m.files matches Some(fs) ==> forall|k: int| 0 <= k < fs.len() ==> (#[trigger] fs[k]).length >= 0
}

/// The typed projection of an info dictionary, with the first fault found
/// in the order name, piece length, pieces, length or files, consistency.
pub open spec fn spec_info(v: Bencode) -> Result<InfoModel, Error> {
    match v {
        Bencode::Dict(es) => match spec_text(spec_lookup(es, name_key())) {
            Err(e) => Err(e),
            Ok(name) => match spec_int_field(spec_lookup(es, piece_length_key()), 1) {
                Err(e) => Err(e),
                Ok(piece_length) => match spec_lookup(es, crate::bencode::pieces_key()) {
                    None => Err(Error::MissingField),
                    Some(Bencode::Pieces(pieces)) => {
                        let layout: Result<(Option<int>, Option<Seq<FileModel>>), Error> = match (
                            spec_lookup(es, length_key()),
                            spec_lookup(es, files_key()),
                        ) {
                            (None, None) => Err(Error::MissingField),
                            (Some(l), None) => match spec_int_field(Some(l), 0) {
                                Ok(n) => Ok((Some(n), None)),
                                Err(e) => Err(e),
                            },
                            (None, Some(Bencode::List(fs))) => match spec_files(fs) {
                                Ok(files) => Ok((None, Some(files))),
                                Err(e) => Err(e),
                            },
                            _ => Err(Error::BadShape),
                        };
                        match layout {
                            Err(e) => Err(e),
                            Ok((length, files)) => {
                                let m = InfoModel { name, piece_length, pieces, length, files };
                                if consistent(m) {
                                    Ok(m)
                                } else {
                                    Err(Error::BadShape)
                                }
                            },
                        }
                    },
                    Some(_) => Err(Error::BadShape),
                },
            },
        },
        _ => Err(Error::BadShape),
    }
}

/// The URLs of one tier: its byte strings that are UTF-8, in order.
pub open spec fn tier_urls(vs: Seq<Bencode>) -> Seq<Seq<char>>
    decreases vs.len(),
{
    if vs.len() == 0 {
        Seq::empty()
    } else {
        let p = tier_urls(vs.drop_last());
        match vs.last() {
            Bencode::Bytes(b) => if valid_utf8(b) {
                p.push(decode_utf8(b))
            } else {
                p
            },
            _ => p,
        }
    }
}

/// The URLs of all tiers that are lists, flattened in order.
pub open spec fn tiers_urls(tiers: Seq<Bencode>) -> Seq<Seq<char>>
    decreases tiers.len(),
{
    if tiers.len() == 0 {
        Seq::empty()
    } else {
        let p = tiers_urls(tiers.drop_last());
        match tiers.last() {
            Bencode::List(vs) => p + tier_urls(vs),
            _ => p,
        }
    }
}

/// The tracker list: `announce-list` flattened when it is a list, else the
/// single `announce` URL, else none.
pub open spec fn spec_trackers(es: Seq<(Seq<u8>, Bencode)>) -> Seq<Seq<char>> {
    match spec_lookup(es, announce_list_key()) {
        Some(Bencode::List(tiers)) => tiers_urls(tiers),
        _ => match spec_lookup(es, announce_key()) {
            Some(Bencode::Bytes(b)) => if valid_utf8(b) {
                seq![decode_utf8(b)]
            } else {
                Seq::empty()
            },
            _ => Seq::empty(),
        },
    }
}

/// The span `[begin, end)` of the value of the first entry with key `key`
/// among the dictionary entries that start at `i`.
pub open spec fn spec_entry_span(s: Seq<u8>, i: int, key: Seq<u8>) -> Option<(int, int)>
    decreases s.len() - i,
{
    if !(0 <= i < s.len()) || s[i] == END {
        None
    } else {
        match spec_bytes(s, i) {
            Some((k, j)) => if i < j <= s.len() {
                match spec_field(s, j, k) {
                    Some((_, m)) => if j < m <= s.len() {
                        if k == key {
                            Some((j, m))
                        } else {
                            spec_entry_span(s, m, key)
                        }
                    } else {
                        None
                    },
                    None => None,
                }
            } else {
                None
            },
            None => None,
        }
    }
}

/// The span of the top-level `info` value: from its `d` to its `e`.
pub open spec fn spec_info_span(s: Seq<u8>) -> Option<(int, int)> {
    if s.len() > 0 && s[0] == DICTIONARY_START {
        spec_entry_span(s, 1, info_key())
    } else {
        None
    }
}

/// What a metainfo buffer parses to, or the first fault.
pub open spec fn spec_metainfo(s: Seq<u8>) -> Result<TorrentModel, Error> {
    match spec_value(s, 0) {
        None => Err(Error::Malformed),
        Some((Bencode::Dict(es), _)) => match spec_lookup(es, info_key()) {
            None => Err(Error::MissingField),
            Some(iv) => match spec_info(iv) {
                Err(e) => Err(e),
                Ok(info) => match spec_info_span(s) {
                    Some((b, e)) => Ok(
                        TorrentModel {
                            trackers: spec_trackers(es),
                            info,
                            info_hash: sha1_of(s.subrange(b, e)),
                        },
                    ),
                    None => Err(Error::MissingField),
                },
            },
        },
        Some(_) => Err(Error::BadShape),
    }
}


/// One file of a multi-file bundle.
pub struct File {
    pub length: i64,
    pub path: Vec<String>,
}

/// The info dictionary: name, chunk size, chunk digests, and either one
/// length or a list of files.
pub struct Info {
    pub name: String,
    pub piece_length: i64,
    pub pieces: Vec<[u8; 20]>,
    pub length: Option<i64>,
    pub files: Option<Vec<File>>,
}

/// A parsed metainfo: its trackers, its info, and its content identifier.
pub struct Torrent {
    pub trackers: Vec<String>,
    pub info: Info,
    pub info_hash: [u8; 20],
}

pub open spec fn strings_view(v: Seq<String>) -> Seq<Seq<char>> {
    Seq::new(v.len(), |k: int| v[k]@)
}

pub open spec fn files_view(v: Seq<File>) -> Seq<FileModel> {
    Seq::new(v.len(), |k: int| v[k]@)
}

pub open spec fn hashes_view(v: Seq<[u8; 20]>) -> Seq<Seq<u8>> {
    Seq::new(v.len(), |k: int| v[k]@)
}

impl View for File {
    type V = FileModel;

    open spec fn view(&self) -> FileModel {
        FileModel { length: self.length as int, path: strings_view(self.path@) }
    }
}

impl View for Info {
    type V = InfoModel;

    open spec fn view(&self) -> InfoModel {
        InfoModel {
            name: self.name@,
            piece_length: self.piece_length as int,
            pieces: hashes_view(self.pieces@),
            length: match self.length {
                Some(n) => Some(n as int),
                None => None,
            },
            files: match self.files {
                Some(fs) => Some(files_view(fs@)),
                None => None,
            },
        }
    }
}

impl View for Torrent {
    type V = TorrentModel;

    open spec fn view(&self) -> TorrentModel {
        TorrentModel {
            trackers: strings_view(self.trackers@),
            info: self.info@,
            info_hash: self.info_hash@,
        }
    }
}

/// The value of the first entry with key `key`.
pub fn lookup<'a>(d: &'a Vec<Entry>, key: &[u8]) -> (r: Option<&'a Value>)
    ensures
        match r {
            Some(v) => spec_lookup(entry_views(d@), key@) == Some(v@),
            None => spec_lookup(entry_views(d@), key@) is None,
        },
{
    let mut k: usize = 0;
    assert(entry_views(d@).subrange(0, d.len() as int) =~= entry_views(d@));
    while k < d.len()
        invariant
            k <= d.len(),
            spec_lookup(entry_views(d@), key@) == spec_lookup(
                entry_views(d@).subrange(k as int, d.len() as int),
                key@,
            ),
        decreases d.len() - k,
    {
        assert(entry_views(d@).subrange(k as int, d.len() as int).drop_first() =~= entry_views(
            d@,
        ).subrange(k + 1, d.len() as int));
        if key_is(&d[k].key, key) {
            return Some(&d[k].value);
        }
        k = k + 1;
    }
    None
}

fn copy_bytes(b: &Vec<u8>) -> (r: Vec<u8>)
    ensures
        r@ == b@,
{
    vstd::slice::slice_to_vec(b.as_slice())
}

fn copy_hashes(h: &Vec<[u8; 20]>) -> (r: Vec<[u8; 20]>)
    ensures
        r@ == h@,
{
    let mut r: Vec<[u8; 20]> = Vec::new();
    let mut k: usize = 0;
    while k < h.len()
        invariant
            k <= h.len(),
            r@ == h@.subrange(0, k as int),
        decreases h.len() - k,
    {
        let x: [u8; 20] = h[k];
        r.push(x);
        assert(h@.subrange(0, k + 1) =~= h@.subrange(0, k as int).push(x));
        k = k + 1;
    }
    assert(h@.subrange(0, k as int) =~= h@);
    r
}

/// The text of a required byte-string field.
pub(crate) fn text(v: Option<&Value>) -> (r: Result<String, Error>)
    ensures
        match r {
            Ok(t) => spec_text(opt_view(v)) == Ok::<Seq<char>, Error>(t@),
            Err(e) => spec_text(opt_view(v)) == Err::<Seq<char>, Error>(e),
        },
{
    match v {
        None => Err(Error::MissingField),
        Some(Value::Str(b)) => match utf8_string(copy_bytes(b)) {
            Some(t) => Ok(t),
            None => Err(Error::BadShape),
        },
        Some(_) => Err(Error::BadShape),
    }
}

pub open spec fn opt_view(v: Option<&Value>) -> Option<Bencode> {
    match v {
        Some(x) => Some(x@),
        None => None,
    }
}

/// A required integer field that must be at least `min`.
fn int_field(v: Option<&Value>, min: i64) -> (r: Result<i64, Error>)
    ensures
        match r {
            Ok(n) => spec_int_field(opt_view(v), min as int) == Ok::<int, Error>(n as int),
            Err(e) => spec_int_field(opt_view(v), min as int) == Err::<int, Error>(e),
        },
{
    match v {
        None => Err(Error::MissingField),
        Some(Value::Number(n)) => if *n >= min {
            Ok(*n)
        } else {
            Err(Error::BadShape)
        },
        Some(_) => Err(Error::BadShape),
    }
}

/// The texts of a list of byte strings.
fn texts(vs: &Vec<Value>) -> (r: Result<Vec<String>, Error>)
    ensures
        match r {
            Ok(t) => spec_texts(views(vs@)) == Ok::<Seq<Seq<char>>, Error>(strings_view(t@)),
            Err(e) => spec_texts(views(vs@)) == Err::<Seq<Seq<char>>, Error>(e),
        },
{
    let mut out: Vec<String> = Vec::new();
    let mut k: usize = 0;
    assert(views(vs@.subrange(0, 0)) =~= Seq::<Bencode>::empty());
    assert(strings_view(out@) =~= Seq::<Seq<char>>::empty());
    while k < vs.len()
        invariant
            k <= vs.len(),
            spec_texts(views(vs@.subrange(0, k as int))) == Ok::<Seq<Seq<char>>, Error>(
                strings_view(out@),
            ),
        decreases vs.len() - k,
    {
        assert(views(vs@.subrange(0, k + 1)).drop_last() =~= views(vs@.subrange(0, k as int)));
        assert(views(vs@.subrange(0, k + 1)).last() == vs@[k as int]@);
        let t = text(Some(&vs[k]));
        match t {
            Ok(t) => {
                let ghost before = out@;
                out.push(t);
                assert(strings_view(out@) =~= strings_view(before).push(t@));
            },
            Err(e) => {
                proof {
                    assert(views(vs@.subrange(0, k + 1)) =~= views(vs@).subrange(0, k + 1));
                    lemma_texts_stays_err(views(vs@), k as int + 1, e);
                }
                return Err(e);
            },
        }
        k = k + 1;
    }
    assert(vs@.subrange(0, k as int) =~= vs@);
    Ok(out)
}

proof fn lemma_texts_stays_err(vs: Seq<Bencode>, k: int, e: Error)
    requires
        0 <= k <= vs.len(),
        spec_texts(vs.subrange(0, k)) == Err::<Seq<Seq<char>>, Error>(e),
    ensures
        spec_texts(vs) == Err::<Seq<Seq<char>>, Error>(e),
    decreases vs.len() - k,
{
    if k < vs.len() {
        assert(vs.subrange(0, k + 1).drop_last() =~= vs.subrange(0, k));
        lemma_texts_stays_err(vs, k + 1, e);
    } else {
        assert(vs.subrange(0, k) =~= vs);
    }
}


/// One entry of `files`.
fn file(v: &Value) -> (r: Result<File, Error>)
    ensures
        match r {
            Ok(f) => spec_file(v@) == Ok::<FileModel, Error>(f@),
            Err(e) => spec_file(v@) == Err::<FileModel, Error>(e),
        },
{
    match v {
        Value::Dict(d) => {
            proof {
                lemma_view_dict(*d);
            }
            let lk: [u8; 6] = [108, 101, 110, 103, 116, 104];
            let pk: [u8; 4] = [112, 97, 116, 104];
            assert(lk@ =~= length_key());
            assert(pk@ =~= path_key());
            let length = int_field(lookup(d, lk.as_slice()), 0)?;
            match lookup(d, pk.as_slice()) {
                None => Err(Error::MissingField),
                Some(Value::List(ps)) => {
                    proof {
                        lemma_view_list(*ps);
                    }
                    let path = texts(ps)?;
                    Ok(File { length, path })
                },
                Some(_) => Err(Error::BadShape),
            }
        },
        _ => Err(Error::BadShape),
    }
}

proof fn lemma_files_stays_err(vs: Seq<Bencode>, k: int, e: Error)
    requires
        0 <= k <= vs.len(),
        spec_files(vs.subrange(0, k)) == Err::<Seq<FileModel>, Error>(e),
    ensures
        spec_files(vs) == Err::<Seq<FileModel>, Error>(e),
    decreases vs.len() - k,
{
    if k < vs.len() {
        assert(vs.subrange(0, k + 1).drop_last() =~= vs.subrange(0, k));
        lemma_files_stays_err(vs, k + 1, e);
    } else {
        assert(vs.subrange(0, k) =~= vs);
    }
}

/// The entries of `files`.
fn files(vs: &Vec<Value>) -> (r: Result<Vec<File>, Error>)
    ensures
        match r {
            Ok(f) => spec_files(views(vs@)) == Ok::<Seq<FileModel>, Error>(files_view(f@)),
            Err(e) => spec_files(views(vs@)) == Err::<Seq<FileModel>, Error>(e),
        },
{
    let mut out: Vec<File> = Vec::new();
    let mut k: usize = 0;
    assert(views(vs@.subrange(0, 0)) =~= Seq::<Bencode>::empty());
    assert(files_view(out@) =~= Seq::<FileModel>::empty());
    while k < vs.len()
        invariant
            k <= vs.len(),
            spec_files(views(vs@.subrange(0, k as int))) == Ok::<Seq<FileModel>, Error>(
                files_view(out@),
            ),
        decreases vs.len() - k,
    {
        assert(views(vs@.subrange(0, k + 1)).drop_last() =~= views(vs@.subrange(0, k as int)));
        assert(views(vs@.subrange(0, k + 1)).last() == vs@[k as int]@);
        match file(&vs[k]) {
            Ok(f) => {
                let ghost before = out@;
                let ghost fv = f@;
                out.push(f);
                assert(files_view(out@) =~= files_view(before).push(fv));
            },
            Err(e) => {
                proof {
                    assert(views(vs@.subrange(0, k + 1)) =~= views(vs@).subrange(0, k + 1));
                    lemma_files_stays_err(views(vs@), k as int + 1, e);
                }
                return Err(e);
            },
        }
        k = k + 1;
    }
    assert(vs@.subrange(0, k as int) =~= vs@);
    Ok(out)
}

proof fn lemma_sum_monotone(fs: Seq<FileModel>, k: int)
    requires
        0 <= k <= fs.len(),
        forall|m: int| 0 <= m < fs.len() ==> (#[trigger] fs[m]).length >= 0,
    ensures
        sum_lengths(fs.subrange(0, k)) <= sum_lengths(fs),
    decreases fs.len() - k,
{
    if k < fs.len() {
        assert(fs.subrange(0, k + 1).drop_last() =~= fs.subrange(0, k));
        lemma_sum_monotone(fs, k + 1);
    } else {
        assert(fs.subrange(0, k) =~= fs);
    }
}

/// The sum of the file lengths, when it fits in 64 signed bits.
fn total_of(fs: &Vec<File>) -> (r: Option<i64>)
    requires
        forall|m: int| 0 <= m < fs.len() ==> (#[trigger] fs@[m]).length >= 0,
    ensures
        match r {
            Some(t) => t as int == sum_lengths(files_view(fs@)),
            None => sum_lengths(files_view(fs@)) > i64::MAX,
        },
{
    let mut total: i64 = 0;
    let mut k: usize = 0;
    assert(files_view(fs@).subrange(0, 0) =~= Seq::<FileModel>::empty());
    while k < fs.len()
        invariant
            k <= fs.len(),
            forall|m: int| 0 <= m < fs.len() ==> (#[trigger] fs@[m]).length >= 0,
            total as int == sum_lengths(files_view(fs@).subrange(0, k as int)),
            total >= 0,
        decreases fs.len() - k,
    {
        assert(files_view(fs@).subrange(0, k + 1).drop_last() =~= files_view(fs@).subrange(0, k as int));
        let len = fs[k].length;
        if len > i64::MAX - total {
            proof {
                lemma_sum_monotone(files_view(fs@), k + 1);
            }
            return None;
        }
        total = total + len;
        k = k + 1;
    }
    assert(files_view(fs@).subrange(0, k as int) =~= files_view(fs@));
    Some(total)
}

proof fn lemma_files_nonneg(vs: Seq<Bencode>, fs: Seq<FileModel>)
    requires
        spec_files(vs) == Ok::<Seq<FileModel>, Error>(fs),
    ensures
        fs.len() == vs.len(),
        forall|m: int| 0 <= m < fs.len() ==> (#[trigger] fs[m]).length >= 0,
    decreases vs.len(),
{
    if vs.len() > 0 {
        let p = spec_files(vs.drop_last())->Ok_0;
        lemma_files_nonneg(vs.drop_last(), p);
        assert(fs == p.push(spec_file(vs.last())->Ok_0));
    }
}

/// Reads the info dictionary into its typed projection.
pub fn parse_info(v: &Value) -> (r: Result<Info, Error>)
    ensures
        match r {
            Ok(i) => spec_info(v@) == Ok::<InfoModel, Error>(i@),
            Err(e) => spec_info(v@) == Err::<InfoModel, Error>(e),
        },
{
    let d = match v {
        Value::Dict(d) => d,
        _ => {
            return Err(Error::BadShape);
        },
    };
    proof {
        lemma_view_dict(*d);
    }
    let name_k: [u8; 4] = [110, 97, 109, 101];
    let pl_k: [u8; 12] = [112, 105, 101, 99, 101, 32, 108, 101, 110, 103, 116, 104];
    let pieces_k: [u8; 6] = [112, 105, 101, 99, 101, 115];
    let length_k: [u8; 6] = [108, 101, 110, 103, 116, 104];
    let files_k: [u8; 5] = [102, 105, 108, 101, 115];
    assert(name_k@ =~= name_key());
    assert(pl_k@ =~= piece_length_key());
    assert(pieces_k@ =~= crate::bencode::pieces_key());
    assert(length_k@ =~= length_key());
    assert(files_k@ =~= files_key());
    let name = text(lookup(d, name_k.as_slice()))?;
    let piece_length = int_field(lookup(d, pl_k.as_slice()), 1)?;
    let pieces = match lookup(d, pieces_k.as_slice()) {
        None => {
            return Err(Error::MissingField);
        },
        Some(Value::Hashes(h)) => copy_hashes(h),
        Some(_) => {
            return Err(Error::BadShape);
        },
    };
    let (length, files, total) = match (lookup(d, length_k.as_slice()), lookup(d, files_k.as_slice())) {
        (None, None) => {
            return Err(Error::MissingField);
        },
        (Some(l), None) => {
            let n = int_field(Some(l), 0)?;
            (Some(n), None, Some(n))
        },
        (None, Some(Value::List(fs))) => {
            proof {
                lemma_view_list(*fs);
            }
            let files = files(fs)?;
            proof {
                lemma_files_nonneg(views(fs@), files_view(files@));
                assert forall|m: int| 0 <= m < files.len() implies (#[trigger] files@[m]).length >= 0 by {
                    assert(files_view(files@)[m].length == files@[m].length);
                }
            }
            let total = total_of(&files);
            (None, Some(files), total)
        },
        _ => {
            return Err(Error::BadShape);
        },
    };
    let info = Info { name, piece_length, pieces, length, files };
    let total = match total {
        Some(t) => t,
        None => {
            return Err(Error::BadShape);
        },
    };
    if total < 0 {
        return Err(Error::BadShape);
    }
    let count: i128 = (total as i128 + piece_length as i128 - 1) / piece_length as i128;
    if count != info.pieces.len() as i128 {
        return Err(Error::BadShape);
    }
    Ok(info)
}


/// The URLs of one tier.
fn tier_urls_of(vs: &Vec<Value>) -> (r: Vec<String>)
    ensures
        strings_view(r@) == tier_urls(views(vs@)),
{
    let mut out: Vec<String> = Vec::new();
    let mut k: usize = 0;
    assert(views(vs@.subrange(0, 0)) =~= Seq::<Bencode>::empty());
    assert(strings_view(out@) =~= Seq::<Seq<char>>::empty());
    while k < vs.len()
        invariant
            k <= vs.len(),
            strings_view(out@) == tier_urls(views(vs@.subrange(0, k as int))),
        decreases vs.len() - k,
    {
        assert(views(vs@.subrange(0, k + 1)).drop_last() =~= views(vs@.subrange(0, k as int)));
        assert(views(vs@.subrange(0, k + 1)).last() == vs@[k as int]@);
        if let Value::Str(b) = &vs[k] {
            if let Some(t) = utf8_string(copy_bytes(b)) {
                let ghost before = out@;
                out.push(t);
                assert(strings_view(out@) =~= strings_view(before).push(t@));
            }
        }
        k = k + 1;
    }
    assert(vs@.subrange(0, k as int) =~= vs@);
    out
}

/// The URLs of all tiers, flattened in order.
fn tiers_urls_of(tiers: &Vec<Value>) -> (r: Vec<String>)
    ensures
        strings_view(r@) == tiers_urls(views(tiers@)),
{
    let mut out: Vec<String> = Vec::new();
    let mut k: usize = 0;
    assert(views(tiers@.subrange(0, 0)) =~= Seq::<Bencode>::empty());
    assert(strings_view(out@) =~= Seq::<Seq<char>>::empty());
    while k < tiers.len()
        invariant
            k <= tiers.len(),
            strings_view(out@) == tiers_urls(views(tiers@.subrange(0, k as int))),
        decreases tiers.len() - k,
    {
        assert(views(tiers@.subrange(0, k + 1)).drop_last() =~= views(tiers@.subrange(0, k as int)));
        assert(views(tiers@.subrange(0, k + 1)).last() == tiers@[k as int]@);
        if let Value::List(vs) = &tiers[k] {
            proof {
                lemma_view_list(*vs);
            }
            let mut urls = tier_urls_of(vs);
            let ghost before = out@;
            let ghost added = urls@;
            out.append(&mut urls);
            assert(strings_view(out@) =~= strings_view(before) + strings_view(added));
        }
        k = k + 1;
    }
    assert(tiers@.subrange(0, k as int) =~= tiers@);
    out
}

/// The tracker list of a metainfo dictionary.
fn trackers_of(es: &Vec<Entry>) -> (r: Vec<String>)
    ensures
        strings_view(r@) == spec_trackers(entry_views(es@)),
{
    let al_k: [u8; 13] = [97, 110, 110, 111, 117, 110, 99, 101, 45, 108, 105, 115, 116];
    let a_k: [u8; 8] = [97, 110, 110, 111, 117, 110, 99, 101];
    assert(al_k@ =~= announce_list_key());
    assert(a_k@ =~= announce_key());
    if let Some(Value::List(tiers)) = lookup(es, al_k.as_slice()) {
        proof {
            lemma_view_list(*tiers);
        }
        return tiers_urls_of(tiers);
    }
    let mut out: Vec<String> = Vec::new();
    if let Some(Value::Str(b)) = lookup(es, a_k.as_slice()) {
        if let Some(t) = utf8_string(copy_bytes(b)) {
            out.push(t);
            assert(strings_view(out@) =~= seq![t@]);
            return out;
        }
    }
    assert(strings_view(out@) =~= Seq::<Seq<char>>::empty());
    out
}

/// The span `[begin, end)` of the top-level `info` value within `content`.
pub fn get_info_span(content: &[u8]) -> (r: Option<(usize, usize)>)
    ensures
        match r {
            Some((b, e)) => spec_info_span(content@) == Some((b as int, e as int)) && b < e
                <= content.len(),
            None => spec_info_span(content@) is None,
        },
{
    if content.len() == 0 || content[0] != DICTIONARY_START {
        return None;
    }
    let key: [u8; 4] = [105, 110, 102, 111];
    assert(key@ =~= info_key());
    let mut j: usize = 1;
    loop
        invariant
            1 <= j <= content.len(),
            content@[0] == DICTIONARY_START,
            key@ == info_key(),
            spec_info_span(content@) == spec_entry_span(content@, j as int, info_key()),
        decreases content.len() - j,
    {
        if j >= content.len() || content[j] == END {
            return None;
        }
        let (k, m) = match get_string(content, j) {
            Ok(p) => p,
            Err(_) => {
                return None;
            },
        };
        if m <= j || m > content.len() {
            return None;
        }
        let (_, e) = match parse_field(content, m, &k) {
            Ok(p) => p,
            Err(_) => {
                return None;
            },
        };
        if e <= m || e > content.len() {
            return None;
        }
        if key_is(&k, key.as_slice()) {
            return Some((m, e));
        }
        j = e;
    }
}

/// The content identifier: SHA-1 over the bytes of the top-level `info`
/// value, exactly as they stand in `content`.
pub fn get_info_hash(content: &Vec<u8>) -> (r: Result<[u8; 20], Error>)
    ensures
        match r {
            Ok(h) => spec_info_span(content@) matches Some((b, e)) && h@ == sha1_of(
                content@.subrange(b, e),
            ),
            Err(e) => spec_info_span(content@) is None && e == Error::MissingField,
        },
{
    match get_info_span(content.as_slice()) {
        Some((b, e)) => Ok(sha1_digest(vstd::slice::slice_subrange(content.as_slice(), b, e))),
        None => Err(Error::MissingField),
    }
}

/// Parses a metainfo buffer: the root dictionary, the typed info, the
/// tracker list, and the content identifier over the exact `info` bytes.
pub fn parse_metainfo(content: &Vec<u8>) -> (r: Result<Torrent, Error>)
    ensures
        match r {
            Ok(t) => spec_metainfo(content@) == Ok::<TorrentModel, Error>(t@),
            Err(e) => spec_metainfo(content@) == Err::<TorrentModel, Error>(e),
        },
{
    let (root, _) = parse_next(content.as_slice(), 0)?;
    let es = match &root {
        Value::Dict(es) => es,
        _ => {
            return Err(Error::BadShape);
        },
    };
    proof {
        lemma_view_dict(*es);
    }
    let key: [u8; 4] = [105, 110, 102, 111];
    assert(key@ =~= info_key());
    let iv = match lookup(es, key.as_slice()) {
        Some(v) => v,
        None => {
            return Err(Error::MissingField);
        },
    };
    let info = parse_info(iv)?;
    let info_hash = get_info_hash(content)?;
    let trackers = trackers_of(es);
    Ok(Torrent { trackers, info, info_hash })
}


/// The length of chunk `index`: the piece length for all but the last,
/// which holds what is left of the content.
pub open spec fn spec_chunk_length(m: InfoModel, index: int) -> int {
    if index + 1 < m.pieces.len() {
        m.piece_length
    } else {
        total_length(m) - (m.pieces.len() - 1) * m.piece_length
    }
}

proof fn lemma_chunk_bounds(total: int, pl: int)
    requires
        pl > 0,
        total >= 0,
    ensures
        chunk_count(total, pl) >= 0,
        total == 0 ==> chunk_count(total, pl) == 0,
        (chunk_count(total, pl) - 1) * pl == chunk_count(total, pl) * pl - pl,
        total > 0 ==> chunk_count(total, pl) >= 1 && (chunk_count(total, pl) - 1) * pl < total
            <= chunk_count(total, pl) * pl,
{
    let n = chunk_count(total, pl);
    assert(n * pl <= total + pl - 1 < n * pl + pl) by (nonlinear_arith)
        requires
            n == (total + pl - 1) / pl,
            pl > 0,
            total >= 0,
    ;
    assert((n - 1) * pl == n * pl - pl) by (nonlinear_arith);
    if total > 0 {
        assert(n >= 1) by (nonlinear_arith)
            requires
                n * pl + pl > total + pl - 1,
                total > 0,
                pl > 0,
        ;
    }
    if total == 0 {
        assert(n == 0) by (nonlinear_arith)
            requires
                n == (pl - 1) / pl,
                pl > 0,
        ;
    }
    assert(n >= 0) by (nonlinear_arith)
        requires
            n * pl + pl > total + pl - 1,
            total >= 0,
            pl > 0,
    ;
}

/// The final chunk holds `total mod piece_length` bytes when that is not
/// zero, and a whole piece length when it is.
pub proof fn lemma_final_chunk_length(m: InfoModel)
    requires
        consistent(m),
        m.pieces.len() > 0,
    ensures
        total_length(m) % m.piece_length != 0 ==> spec_chunk_length(m, m.pieces.len() - 1)
            == total_length(m) % m.piece_length,
        total_length(m) % m.piece_length == 0 ==> spec_chunk_length(m, m.pieces.len() - 1)
            == m.piece_length,
{
    let t = total_length(m);
    let pl = m.piece_length;
    let n = m.pieces.len() as int;
    let q = t / pl;
    let r = t % pl;
    assert(t == q * pl + r && 0 <= r < pl) by (nonlinear_arith)
        requires
            q == t / pl,
            r == t % pl,
            pl > 0,
            t >= 0,
    ;
    if r != 0 {
        assert(n == q + 1) by (nonlinear_arith)
            requires
                n == (t + pl - 1) / pl,
                t == q * pl + r,
                0 < r < pl,
        ;
        assert(t - (n - 1) * pl == r) by (nonlinear_arith)
            requires
                n == q + 1,
                t == q * pl + r,
        ;
    } else {
        assert(n == q) by (nonlinear_arith)
            requires
                n == (t + pl - 1) / pl,
                t == q * pl,
                pl > 0,
        ;
        assert(t - (n - 1) * pl == pl) by (nonlinear_arith)
            requires
                n == q,
                t == q * pl,
        ;
    }
}

fn lengths_nonneg(fs: &Vec<File>) -> (r: bool)
    ensures
        r == forall|m: int| 0 <= m < fs.len() ==> (#[trigger] files_view(fs@)[m]).length >= 0,
{
    let mut k: usize = 0;
    while k < fs.len()
        invariant
            k <= fs.len(),
            forall|m: int| 0 <= m < k ==> (#[trigger] files_view(fs@)[m]).length >= 0,
        decreases fs.len() - k,
    {
        if fs[k].length < 0 {
            assert(files_view(fs@)[k as int].length < 0);
            return false;
        }
        k = k + 1;
    }
    true
}

impl Info {
    /// Whether the fields are consistent: what every parsed info satisfies.
    pub fn is_consistent(&self) -> (r: bool)
        ensures
            r == consistent(self@),
    {
        if self.piece_length <= 0 || self.length.is_some() == self.files.is_some() {
            return false;
        }
        let total = match self.length {
            Some(n) => n,
            None => {
                let fs = match &self.files {
                    Some(fs) => fs,
                    None => {
                        return false;
                    },
                };
                if !lengths_nonneg(fs) {
                    return false;
                }
                assert forall|m: int| 0 <= m < fs.len() implies (#[trigger] fs@[m]).length >= 0 by {
                    assert(files_view(fs@)[m].length == fs@[m].length);
                }
                match total_of(fs) {
                    Some(t) => t,
                    None => {
                        return false;
                    },
                }
            },
        };
        if total < 0 {
            return false;
        }
        let count: i128 = (total as i128 + self.piece_length as i128 - 1) / self.piece_length as i128;
        count == self.pieces.len() as i128
    }

    /// The length of the whole content.
    pub fn total_length(&self) -> (r: i64)
        requires
            consistent(self@),
        ensures
            r as int == total_length(self@),
    {
        match self.length {
            Some(n) => n,
            None => {
                let fs = match &self.files {
                    Some(fs) => fs,
                    None => {
                        return 0;
                    },
                };
                assert forall|m: int| 0 <= m < fs.len() implies (#[trigger] fs@[m]).length >= 0 by {
                    assert(files_view(fs@)[m].length == fs@[m].length);
                }
                match total_of(fs) {
                    Some(t) => t,
                    None => 0,
                }
            },
        }
    }

    /// The length of chunk `index`; the final chunk may be shorter.
    pub fn chunk_length(&self, index: usize) -> (r: i64)
        requires
            consistent(self@),
            index < self.pieces.len(),
        ensures
            r as int == spec_chunk_length(self@, index as int),
            0 < r <= self.piece_length,
    {
        let total = self.total_length();
        proof {
            lemma_chunk_bounds(total as int, self.piece_length as int);
        }
        if index + 1 < self.pieces.len() {
            self.piece_length
        } else {
            let n = self.pieces.len() as i128;
            assert(total > 0);
            assert((n - 1) * self.piece_length < total);
            let used: i128 = (n - 1) * self.piece_length as i128;
            (total as i128 - used) as i64
        }
    }
}


proof fn lemma_entry_span(s: Seq<u8>, j: int, key: Seq<u8>)
    requires
        spec_entries(s, j) matches Some((es, _)) && spec_lookup(es, key) is Some,
    ensures
        spec_entry_span(s, j, key) matches Some((b, e)) && spec_field(s, b, key) == Some(
            (spec_lookup(spec_entries(s, j)->Some_0.0, key)->Some_0, e),
        ),
    decreases s.len() - j,
{
    let es = spec_entries(s, j)->Some_0.0;
    if s[j] == END {
        assert(es =~= Seq::<(Seq<u8>, Bencode)>::empty());
    } else {
        let (k, jj) = spec_bytes(s, j)->Some_0;
        let (v, m) = spec_field(s, jj, k)->Some_0;
        let es2 = spec_entries(s, m)->Some_0.0;
        assert(es == seq![(k, v)] + es2);
        if k != key {
            assert(es.drop_first() =~= es2);
            lemma_entry_span(s, m, key);
        }
    }
}

/// The bytes over which the content identifier is taken are exactly the
/// encoding of the top-level `info` value: decoding at the start of the
/// span gives that value and ends at the end of the span.
pub proof fn lemma_info_span_holds_info(s: Seq<u8>)
    requires
        spec_value(s, 0) matches Some((Bencode::Dict(es), _)) && spec_lookup(es, info_key()) is Some,
    ensures
        spec_info_span(s) matches Some((b, e)) && spec_value(s, b) == Some(
            (spec_lookup(spec_value(s, 0)->Some_0.0->Dict_0, info_key())->Some_0, e),
        ),
{
    assert(s[0] == DICTIONARY_START);
    assert(info_key() != crate::bencode::pieces_key());
    assert(info_key() != crate::bencode::peers_key());
    lemma_entry_span(s, 1, info_key());
}


/// The byte strings of some texts.
pub open spec fn text_values(ts: Seq<Seq<char>>) -> Seq<Bencode> {
    Seq::new(ts.len(), |k: int| Bencode::Bytes(encode_utf8(ts[k])))
}

/// A file as a dictionary: `length`, then `path`.
pub open spec fn spec_file_value(f: FileModel) -> Bencode {
    Bencode::Dict(
        seq![(length_key(), Bencode::Int(f.length)), (path_key(), Bencode::List(text_values(f.path)))],
    )
}

/// An info as a dictionary, its keys in byte order: `files` or `length`,
/// `name`, `piece length`, `pieces`.
pub open spec fn spec_info_value(m: InfoModel) -> Bencode {
    let layout: Seq<(Seq<u8>, Bencode)> = match m.length {
        Some(n) => seq![(length_key(), Bencode::Int(n))],
        None => match m.files {
            Some(fs) => seq![
                (files_key(), Bencode::List(Seq::new(fs.len(), |k: int| spec_file_value(fs[k])))),
            ],
            None => Seq::empty(),
        },
    };
    Bencode::Dict(
        layout + seq![
            (name_key(), Bencode::Bytes(encode_utf8(m.name))),
            (piece_length_key(), Bencode::Int(m.piece_length)),
            (crate::bencode::pieces_key(), Bencode::Pieces(m.pieces)),
        ],
    )
}

/// A torrent as a dictionary: its trackers as one tier of `announce-list`,
/// then `info`.
pub open spec fn spec_torrent_value(t: TorrentModel) -> Bencode {
    Bencode::Dict(
        seq![
            (announce_list_key(), Bencode::List(seq![Bencode::List(text_values(t.trackers))])),
            (info_key(), spec_info_value(t.info)),
        ],
    )
}

fn text_value(t: &String) -> (r: Value)
    ensures
        r@ == Bencode::Bytes(encode_utf8(t@)),
{
    Value::Str(vstd::slice::slice_to_vec(t.as_str().as_bytes()))
}

fn text_list(ts: &Vec<String>) -> (r: Value)
    ensures
        r@ == Bencode::List(text_values(strings_view(ts@))),
{
    let mut out: Vec<Value> = Vec::new();
    let mut k: usize = 0;
    while k < ts.len()
        invariant
            k <= ts.len(),
            views(out@) == text_values(strings_view(ts@.subrange(0, k as int))),
        decreases ts.len() - k,
    {
        let v = text_value(&ts[k]);
        let ghost before = views(out@);
        let ghost vv = v@;
        out.push(v);
        assert(views(out@) =~= before.push(vv));
        assert(text_values(strings_view(ts@.subrange(0, k + 1))) =~= text_values(
            strings_view(ts@.subrange(0, k as int)),
        ).push(vv));
        k = k + 1;
    }
    assert(ts@.subrange(0, k as int) =~= ts@);
    proof {
        lemma_view_list(out);
    }
    Value::List(out)
}

fn entry(key: &[u8], value: Value) -> (r: Entry)
    ensures
        r.key@ == key@,
        r.value@ == value@,
{
    Entry { key: vstd::slice::slice_to_vec(key), value }
}

/// A file as a bencoded dictionary.
pub fn file_to_value(file: &File) -> (r: Value)
    ensures
        r@ == spec_file_value(file@),
{
    let lk: [u8; 6] = [108, 101, 110, 103, 116, 104];
    let pk: [u8; 4] = [112, 97, 116, 104];
    assert(lk@ =~= length_key());
    assert(pk@ =~= path_key());
    let mut d: Vec<Entry> = Vec::new();
    d.push(entry(lk.as_slice(), Value::Number(file.length)));
    d.push(entry(pk.as_slice(), text_list(&file.path)));
    proof {
        lemma_view_dict(d);
    }
    assert(entry_views(d@) =~= spec_file_value(file@)->Dict_0);
    Value::Dict(d)
}

fn copy_pieces(h: &Vec<[u8; 20]>) -> (r: Value)
    ensures
        r@ == Bencode::Pieces(hashes_view(h@)),
{
    let c = copy_hashes(h);
    let v = Value::Hashes(c);
    assert(v@ == Bencode::Pieces(hashes_view(h@))) by {
        assert(v@->Pieces_0 =~= hashes_view(h@));
    }
    v
}

/// An info as a bencoded dictionary, its keys in byte order.
pub fn info_to_value(info: &Info) -> (r: Value)
    ensures
        r@ == spec_info_value(info@),
{
    let fk: [u8; 5] = [102, 105, 108, 101, 115];
    let lk: [u8; 6] = [108, 101, 110, 103, 116, 104];
    let nk: [u8; 4] = [110, 97, 109, 101];
    let plk: [u8; 12] = [112, 105, 101, 99, 101, 32, 108, 101, 110, 103, 116, 104];
    let pk: [u8; 6] = [112, 105, 101, 99, 101, 115];
    assert(fk@ =~= files_key());
    assert(lk@ =~= length_key());
    assert(nk@ =~= name_key());
    assert(plk@ =~= piece_length_key());
    assert(pk@ =~= crate::bencode::pieces_key());
    let mut d: Vec<Entry> = Vec::new();
    match (info.length, &info.files) {
        (Some(n), _) => {
            d.push(entry(lk.as_slice(), Value::Number(n)));
        },
        (None, Some(fs)) => {
            let mut items: Vec<Value> = Vec::new();
            let mut k: usize = 0;
            while k < fs.len()
                invariant
                    k <= fs.len(),
                    d.len() == 0,
                    views(items@) == Seq::new(k as nat, |m: int| spec_file_value(fs@[m]@)),
                decreases fs.len() - k,
            {
                let v = file_to_value(&fs[k]);
                let ghost before = views(items@);
                let ghost vv = v@;
                items.push(v);
                assert(views(items@) =~= before.push(vv));
                assert(views(items@) =~= Seq::new((k + 1) as nat, |m: int| spec_file_value(fs@[m]@)));
                k = k + 1;
            }
            proof {
                lemma_view_list(items);
            }
            assert(views(items@) =~= Seq::new(
                files_view(fs@).len(),
                |m: int| spec_file_value(files_view(fs@)[m]),
            ));
            d.push(entry(fk.as_slice(), Value::List(items)));
        },
        (None, None) => {},
    }
    d.push(entry(nk.as_slice(), text_value(&info.name)));
    d.push(entry(plk.as_slice(), Value::Number(info.piece_length)));
    d.push(entry(pk.as_slice(), copy_pieces(&info.pieces)));
    proof {
        lemma_view_dict(d);
    }
    assert(entry_views(d@) =~= spec_info_value(info@)->Dict_0);
    Value::Dict(d)
}

/// The canonical encoding of a torrent: its trackers as one tier of
/// `announce-list`, and its info.
pub fn encode_torrent(torrent: &Torrent) -> (r: Vec<u8>)
    ensures
        r@ == spec_encode(spec_torrent_value(torrent@)),
{
    let alk: [u8; 13] = [97, 110, 110, 111, 117, 110, 99, 101, 45, 108, 105, 115, 116];
    let ik: [u8; 4] = [105, 110, 102, 111];
    assert(alk@ =~= announce_list_key());
    assert(ik@ =~= info_key());
    let tier = text_list(&torrent.trackers);
    let mut tiers: Vec<Value> = Vec::new();
    tiers.push(tier);
    proof {
        lemma_view_list(tiers);
    }
    assert(views(tiers@) =~= seq![Bencode::List(text_values(strings_view(torrent.trackers@)))]);
    let mut d: Vec<Entry> = Vec::new();
    d.push(entry(alk.as_slice(), Value::List(tiers)));
    d.push(entry(ik.as_slice(), info_to_value(&torrent.info)));
    proof {
        lemma_view_dict(d);
    }
    assert(entry_views(d@) =~= spec_torrent_value(torrent@)->Dict_0);
    encode_value(Value::Dict(d))
}

} // verus!

//! The fields of a metainfo (.torrent) dictionary that a download needs.
use vstd::prelude::*;
use vstd::string::{StrSliceExecFns, StringSliceAdditionalSpecFns};
use vstd::utf8::{encode_utf8, valid_utf8};

use crate::bytes::compare_bytes;
use crate::crypto::{sha1_digest, Sha1};
use crate::encoder::encoding;
use crate::text::string_from_utf8;
use crate::value::{dict_model, key_bytes, lemma_dict_model_len, lemma_list_model_len, list_model, model, Bencode, Value};

verus! {

/// Why a metainfo dictionary cannot be read.
#[derive(Debug, PartialEq, Eq)]
pub enum TorrentError {
    /// An entry was looked up in a value that is no dictionary.
    NotADictionary,
    /// A dictionary lacks an entry the download needs.
    MissingEntry,
    /// A size is no integer.
    NotAnInteger,
    /// The name or the piece hashes are no byte string.
    NotAString,
    /// The files of a torrent are no list.
    NotAList,
    /// The name is not UTF-8.
    InvalidName,
    /// A size is negative, or a size or the sum of the file sizes does not
    /// fit in a `usize`.
    SizeOutOfRange,
    /// The piece hashes are not a whole number of 20-byte digests.
    BadPieceHashes,
}

/// What a download needs of a torrent.
#[derive(Debug)]
pub struct Torrent {
    /// The digest of the bencoded info dictionary.
    pub info_hash: Sha1,
    pub name: String,
    pub piece_size: usize,
    /// The size of the content, summed over its files.
    pub total_size: usize,
    /// The digest of each piece, in order.
    pub pieces: Vec<Sha1>,
}

/// The value under the first entry with this key.
pub open spec fn find_entry(es: Seq<(Seq<u8>, Bencode)>, key: Seq<u8>) -> Option<Bencode>
    decreases es.len(),
{
    if es.len() == 0 {
        None
    } else if es[0].0 == key {
        Some(es[0].1)
    } else {
        find_entry(es.drop_first(), key)
    }
}

/// The entry under a key of a dictionary.
pub open spec fn entry_of(v: Bencode, key: Seq<u8>) -> Result<Bencode, TorrentError> {
    match v {
        Bencode::Dict(es) => match find_entry(es, key) {
            Some(x) => Ok(x),
            None => Err(TorrentError::MissingEntry),
        },
        _ => Err(TorrentError::NotADictionary),
    }
}

/// A size: a non-negative integer that fits in a `usize`.
pub open spec fn size_of_value(v: Bencode) -> Result<nat, TorrentError> {
    match v {
        Bencode::Int(i) => if 0 <= i <= usize::MAX {
            Ok(i as nat)
        } else {
            Err(TorrentError::SizeOutOfRange)
        },
        _ => Err(TorrentError::NotAnInteger),
    }
}

/// The key of the info dictionary.
pub open spec fn info_key() -> Seq<u8> {
    "info".spec_bytes()
}

pub open spec fn name_key() -> Seq<u8> {
    "name".spec_bytes()
}

pub open spec fn piece_length_key() -> Seq<u8> {
    "piece length".spec_bytes()
}

pub open spec fn length_key() -> Seq<u8> {
    "length".spec_bytes()
}

pub open spec fn files_key() -> Seq<u8> {
    "files".spec_bytes()
}

pub open spec fn pieces_key() -> Seq<u8> {
    "pieces".spec_bytes()
}

/// The sum of the lengths of the files, file by file; the first file
/// whose length cannot be read, or that makes the sum overflow, decides the
/// error.
pub open spec fn files_total(files: Seq<Bencode>) -> Result<nat, TorrentError>
    decreases files.len(),
{
    if files.len() == 0 {
        Ok(0)
    } else {
        match files_total(files.drop_last()) {
            Err(e) => Err(e),
            Ok(t) => match entry_of(files.last(), length_key()) {
                Err(e) => Err(e),
                Ok(l) => match size_of_value(l) {
                    Err(e) => Err(e),
                    Ok(n) => if t + n <= usize::MAX {
                        Ok(t + n)
                    } else {
                        Err(TorrentError::SizeOutOfRange)
                    },
                },
            },
        }
    }
}

/// The size of the content of an info dictionary: its length, or, where it
/// has none, the sum of the lengths of its files.
pub open spec fn content_size(info: Bencode) -> Result<nat, TorrentError> {
    match entry_of(info, length_key()) {
        Ok(l) => size_of_value(l),
        Err(_) => match entry_of(info, files_key()) {
            Err(e) => Err(e),
            Ok(Bencode::List(files)) => files_total(files),
            Ok(_) => Err(TorrentError::NotAList),
        },
    }
}

/// What a metainfo dictionary gives, read in this order: the info
/// dictionary, its name (UTF-8), piece size, content size and piece hashes.
pub open spec fn metainfo(v: Bencode) -> Result<(Bencode, Seq<u8>, nat, nat, Seq<u8>), TorrentError> {
    match entry_of(v, info_key()) {
        Err(e) => Err(e),
        Ok(info) => match entry_of(info, name_key()) {
            Err(e) => Err(e),
            Ok(Bencode::Bytes(name)) => if !valid_utf8(name) {
                Err(TorrentError::InvalidName)
            } else {
                match entry_of(info, piece_length_key()) {
                    Err(e) => Err(e),
                    Ok(pl) => match size_of_value(pl) {
                        Err(e) => Err(e),
                        Ok(piece_size) => match content_size(info) {
                            Err(e) => Err(e),
                            Ok(total) => match entry_of(info, pieces_key()) {
                                Err(e) => Err(e),
                                Ok(Bencode::Bytes(hashes)) => if hashes.len() % 20 == 0 {
                                    Ok((info, name, piece_size, total, hashes))
                                } else {
                                    Err(TorrentError::BadPieceHashes)
                                },
                                Ok(_) => Err(TorrentError::NotAString),
                            },
                        },
                    },
                }
            },
            Ok(_) => Err(TorrentError::NotAString),
        },
    }
}

/// Whether `t` holds what `m`, read from a metainfo dictionary, gives: the
/// digest of the bencoded info dictionary, and the piece hashes cut in
/// 20-byte digests.
pub open spec fn torrent_is(t: Torrent, m: (Bencode, Seq<u8>, nat, nat, Seq<u8>)) -> bool {
    &&& t.info_hash.0@ == sha1_digest(encoding(m.0))
    &&& encode_utf8(t.name@) == m.1
    &&& t.piece_size == m.2
    &&& t.total_size == m.3
    &&& t.pieces@.len() * 20 == m.4.len()
    &&& forall|i: int| 0 <= i < t.pieces@.len() ==> (#[trigger] t.pieces@[i]).0@ == m.4.subrange(20 * i, 20 * i + 20)
}

/// Once the files read so far give an error, that error stands.
proof fn lemma_files_total_err(fs: Seq<Bencode>, i: int)
    requires
        0 <= i <= fs.len(),
        files_total(fs.take(i)) is Err,
    ensures
        files_total(fs) == files_total(fs.take(i)),
    decreases fs.len() - i,
{
    if i < fs.len() {
        assert(fs.take(i + 1).drop_last() =~= fs.take(i));
        lemma_files_total_err(fs, i + 1);
    } else {
        assert(fs.take(i) =~= fs);
    }
}

/// The value under a key of a dictionary.
fn entry<'a>(value: &'a Value, key: &[u8]) -> (r: Result<&'a Value, TorrentError>)
    ensures
        r matches Ok(v) ==> entry_of(model(*value), key@) == Ok::<Bencode, TorrentError>(model(*v)),
        r matches Err(e) ==> entry_of(model(*value), key@) == Err::<Bencode, TorrentError>(e),
{
    match value {
        Value::Dictionary(entries) => {
            proof {
                lemma_dict_model_len(entries@);
            }
            let ghost es = dict_model(entries@);
            let mut i: usize = 0;
            assert(es.skip(0) =~= es);
            assert(model(*value) == Bencode::Dict(es));
            while i < entries.len()
                invariant
                    i <= entries@.len(),
                    es == dict_model(entries@),
                    es.len() == entries@.len(),
                    model(*value) == Bencode::Dict(es),
                    forall|j: int| 0 <= j < entries@.len() ==> #[trigger] es[j] == (key_bytes(entries@[j].0), model(entries@[j].1)),
                    find_entry(es, key@) == find_entry(es.skip(i as int), key@),
                decreases entries@.len() - i,
            {
                let k = entries[i].0.as_str().as_bytes();
                proof {
                    assert(es.skip(i as int).drop_first() =~= es.skip(i + 1));
                    assert(es.skip(i as int)[0] == es[i as int]);
                }
                if compare_bytes(k, key) == 0 {
                    proof {
                        assert(k@ == key_bytes(entries@[i as int].0));
                        assert(es.skip(i as int)[0].0 == key@);
                        assert(es.skip(i as int)[0] == es[i as int]);
                        assert(find_entry(es.skip(i as int), key@) == Some(es[i as int].1));
                        assert(model(*value) == Bencode::Dict(es));
                    }
                    return Ok(&entries[i].1);
                }
                i += 1;
            }
            proof {
                assert(es.skip(i as int).len() == 0);
            }
            Err(TorrentError::MissingEntry)
        },
        _ => Err(TorrentError::NotADictionary),
    }
}

/// A size held in a value.
fn size(value: &Value) -> (r: Result<usize, TorrentError>)
    ensures
        r matches Ok(n) ==> size_of_value(model(*value)) == Ok::<nat, TorrentError>(n as nat),
        r matches Err(e) ==> size_of_value(model(*value)) == Err::<nat, TorrentError>(e),
{
    match value {
        Value::Integer(i) => {
            if *i < 0 || (*i as u64) > (usize::MAX as u64) {
                Err(TorrentError::SizeOutOfRange)
            } else {
                Ok(*i as usize)
            }
        },
        _ => Err(TorrentError::NotAnInteger),
    }
}

/// The size of the content of an info dictionary.
fn total_size(info: &Value) -> (r: Result<usize, TorrentError>)
    ensures
        r matches Ok(n) ==> content_size(model(*info)) == Ok::<nat, TorrentError>(n as nat),
        r matches Err(e) ==> content_size(model(*info)) == Err::<nat, TorrentError>(e),
{
    if let Ok(length) = entry(info, "length".as_bytes()) {
        return size(length);
    }
    let files = match entry(info, "files".as_bytes()) {
        Ok(Value::List(files)) => files,
        Ok(_) => return Err(TorrentError::NotAList),
        Err(e) => return Err(e),
    };
    proof {
        lemma_list_model_len(files@);
    }
    let ghost fs = list_model(files@);
    assert(content_size(model(*info)) == files_total(fs));
    let mut total: usize = 0;
    let mut i: usize = 0;
    while i < files.len()
        invariant
            i <= files@.len(),
            fs == list_model(files@),
            fs.len() == files@.len(),
            content_size(model(*info)) == files_total(fs),
            forall|j: int| 0 <= j < files@.len() ==> #[trigger] fs[j] == model(files@[j]),
            files_total(fs.take(i as int)) == Ok::<nat, TorrentError>(total as nat),
        decreases files@.len() - i,
    {
        proof {
            assert(fs.take(i + 1).drop_last() =~= fs.take(i as int));
            assert(fs.take(i + 1).last() == model(files@[i as int]));
        }
        let length = match entry(&files[i], "length".as_bytes()) {
            Ok(length) => length,
            Err(e) => {
                proof {
                    lemma_files_total_err(fs, i + 1);
                }
                return Err(e);
            },
        };
        let n = match size(length) {
            Ok(n) => n,
            Err(e) => {
                proof {
                    assert(entry_of(fs.take(i + 1).last(), length_key()) == Ok::<Bencode, TorrentError>(model(*length)));
                    assert(files_total(fs.take(i + 1)) == Err::<nat, TorrentError>(e));
                    lemma_files_total_err(fs, i + 1);
                }
                return Err(e);
            },
        };
        total = match total.checked_add(n) {
            Some(t) => t,
            None => {
                proof {
                    lemma_files_total_err(fs, i + 1);
                }
                return Err(TorrentError::SizeOutOfRange);
            },
        };
        i += 1;
    }
    proof {
        assert(fs.take(i as int) =~= fs);
    }
    Ok(total)
}

impl Torrent {
    /// Reads a metainfo dictionary.
    pub fn from_value(value: &Value) -> (r: Result<Torrent, TorrentError>)
        ensures
            r is Ok <==> metainfo(model(*value)) is Ok,
            r matches Err(e) ==> metainfo(model(*value)) == Err::<(Bencode, Seq<u8>, nat, nat, Seq<u8>), TorrentError>(e),
            r matches Ok(t) ==> (metainfo(model(*value)) matches Ok(m) && torrent_is(t, m)),
    {
        let info = match entry(value, "info".as_bytes()) {
            Ok(info) => info,
            Err(e) => return Err(e),
        };
        let info_hash = Sha1::of_value(info);
        let name_bytes = match entry(info, "name".as_bytes()) {
            Ok(Value::String(bytes)) => bytes,
            Ok(_) => return Err(TorrentError::NotAString),
            Err(e) => return Err(e),
        };
        let mut copy: Vec<u8> = Vec::new();
        let mut i: usize = 0;
        while i < name_bytes.len()
            invariant
                i <= name_bytes@.len(),
                copy@ == name_bytes@.take(i as int),
            decreases name_bytes@.len() - i,
        {
            copy.push(name_bytes[i]);
            i += 1;
            assert(copy@ =~= name_bytes@.take(i as int));
        }
        assert(copy@ =~= name_bytes@);
        let name = match string_from_utf8(copy) {
            Some(name) => name,
            None => return Err(TorrentError::InvalidName),
        };
        let piece_size = match entry(info, "piece length".as_bytes()) {
            Ok(pl) => match size(pl) {
                Ok(n) => n,
                Err(e) => return Err(e),
            },
            Err(e) => return Err(e),
        };
        let total_size = match total_size(info) {
            Ok(n) => n,
            Err(e) => return Err(e),
        };
        let hashes = match entry(info, "pieces".as_bytes()) {
            Ok(Value::String(bytes)) => bytes,
            Ok(_) => return Err(TorrentError::NotAString),
            Err(e) => return Err(e),
        };
        if hashes.len() % 20 != 0 {
            return Err(TorrentError::BadPieceHashes);
        }
        let count = hashes.len() / 20;
        let mut pieces: Vec<Sha1> = Vec::new();
        let mut k: usize = 0;
        while k < count
            invariant
                count * 20 == hashes.len(),
                k <= count,
                pieces@.len() == k,
                forall|x: int| 0 <= x < k ==> (#[trigger] pieces@[x]).0@ == hashes@.subrange(20 * x, 20 * x + 20),
            decreases count - k,
        {
            let mut digest = [0u8; 20];
            let mut j: usize = 0;
            while j < 20
                invariant
                    count * 20 == hashes.len(),
                    k < count,
                    j <= 20,
                    forall|y: int| 0 <= y < j ==> digest@[y] == hashes@[20 * k + y],
                decreases 20 - j,
            {
                assert(20 * k + j < hashes@.len()) by (nonlinear_arith)
                    requires
                        k < count,
                        j < 20,
                        count * 20 == hashes@.len(),
                ;
                assert(20 * k + j < hashes.len());
                digest[j] = hashes[20 * k + j];
                j += 1;
            }
            assert(digest@ =~= hashes@.subrange(20 * k as int, 20 * k + 20));
            pieces.push(Sha1(digest));
            k += 1;
        }
        Ok(Torrent { info_hash, name, piece_size, total_size, pieces })
    }
}

} // verus!

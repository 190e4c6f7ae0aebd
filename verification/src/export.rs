//! Export and load paths around the codec.
//!
//! The canonical snapshot is the ordered-pairs byte form in roster order; the
//! map snapshot uses the same framing, emitted in roster order so that the
//! bytes are deterministic.  Exports can additionally be base64-armoured for
//! a data URL, or compressed with bzip2 as an outer layer around the codec.
//! Loading decodes the ordered-pairs bytes and rebuilds the database.

use vstd::prelude::*;

use crate::codec::bounded_pairs;
use crate::codec::decode_pairs;
use crate::codec::dec_file;
use crate::codec::enc_file;
use crate::codec::encode_pairs;
use crate::db::Database;
use crate::db::build_db;
use crate::db::strokes_nonempty;
use crate::errors::EditError;
use crate::point::Point;

verus! {

/// What base64 encoding returns for the given bytes.
pub uninterp spec fn base64_of(data: Seq<u8>) -> Seq<char>;

/// Relies on base64's standard-alphabet engine with padding: the result is a
/// function of the input bytes alone, four characters for every three input
/// bytes begun.
#[verifier::external_body]
fn to_base64(data: &Vec<u8>) -> (r: String)
    ensures
        r@ == base64_of(data@),
        r@.len() == 4 * ((data@.len() + 2) / 3),
{
    base64::engine::Engine::encode(&base64::engine::general_purpose::STANDARD, data)
}

/// What bzip2 compression at the highest level returns for the given bytes.
pub uninterp spec fn bz2_of(data: Seq<u8>) -> Seq<u8>;

/// Relies on `bzip2::read::BzEncoder` at `Compression::best()`: libbz2's
/// output is a deterministic function of the input bytes and the level, and
/// the read cannot fail here, because its only error source is the
/// underlying reader and an in-memory slice never reports one.
#[verifier::external_body]
fn bz2_compress(data: &Vec<u8>) -> (r: Vec<u8>)
    ensures
        r@ == bz2_of(data@),
{
    let mut enc = bzip2::read::BzEncoder::new(data.as_slice(), bzip2::Compression::best());
    let mut out = Vec::new();
    // Total on slice input: the discarded value carries no other information.
    let _ = std::io::Read::read_to_end(&mut enc, &mut out);
    out
}

/// Relies on `bzip2::read::BzDecoder`: decompressing what the matching
/// compressor produced returns the original bytes, and a malformed stream is
/// reported as an error.
#[verifier::external_body]
fn bz2_decompress(data: &Vec<u8>) -> (r: Result<Vec<u8>, ()>)
    ensures
        r is Ok <== exists|s: Seq<u8>| data@ == bz2_of(s),
        r matches Ok(out) ==> forall|s: Seq<u8>| data@ == bz2_of(s) ==> out@ == s,
{
    let mut dec = bzip2::read::BzDecoder::new(data.as_slice());
    let mut out = Vec::new();
    match std::io::Read::read_to_end(&mut dec, &mut out) {
        Ok(_) => Ok(out),
        Err(_) => Err(()),
    }
}

/// Canonical export: the ordered-pairs bytes, in roster order.  This is the
/// form the loader reads back.
pub fn export_vector(db: &Database) -> (out: Vec<u8>)
    ensures
        out@ == enc_file(db@),
{
    encode_pairs(db.to_pairs())
}

/// Map snapshot export: the database keyed by character.  The entries are
/// walked in roster order, so the bytes are deterministic and coincide with
/// the canonical form.
pub fn export_map(db: &Database) -> (out: Vec<u8>)
    ensures
        out@ == enc_file(db@),
{
    encode_pairs(db.to_pairs())
}

/// Map snapshot as base64 text, ready for a data URL.
pub fn export_map_base64(db: &Database) -> (r: String)
    ensures
        r@ == base64_of(enc_file(db@)),
{
    let bytes = export_map(db);
    to_base64(&bytes)
}

/// Map snapshot compressed with bzip2: exactly the compressed form of the
/// snapshot bytes, as an outer layer around the codec.
pub fn export_map_bzip2(db: &Database) -> (r: Vec<u8>)
    ensures
        r@ == bz2_of(enc_file(db@)),
{
    let bytes = export_map(db);
    bz2_compress(&bytes)
}

/// Loads a database from ordered-pairs bytes: decode, then rebuild the
/// roster and the map.  Fails with `MalformedData` on truncated or
/// structurally invalid bytes, or when a pair holds an empty stroke.
pub fn load_database(bytes: &Vec<u8>) -> (r: Result<Database, EditError>)
    ensures
        dec_file(bytes@) is None ==> r == Err::<Database, EditError>(EditError::MalformedData),
        dec_file(bytes@) matches Some(p) ==> {
            if strokes_nonempty(p) {
                r matches Ok(d) && d@ == build_db(Seq::empty(), p) && d.wf()
            } else {
                r == Err::<Database, EditError>(EditError::MalformedData)
            }
        },
{
    match decode_pairs(bytes) {
        Ok(pairs) => Database::from_pairs(pairs),
        Err(e) => Err(e),
    }
}

/// Round-trip law for the canonical snapshot: the exported ordered-pairs
/// bytes of a well-formed database decode back to exactly its contents, and
/// rebuilding a database from them reproduces those contents — the same
/// roster order and the same character→stroke→point data.  The only proviso
/// is that every count fits the format's 64-bit fields, which holds of every
/// database that exists in memory.
pub proof fn lemma_snapshot_round_trip(v: Seq<(char, Seq<Seq<Point>>)>)
    requires
        crate::db::db_wf(v),
        bounded_pairs(v),
    ensures
        dec_file(enc_file(v)) == Some(v),
        build_db(Seq::empty(), v) == v,
{
    crate::codec::lemma_codec_round_trip(v);
    crate::db::lemma_build_db_identity(v);
}

/// Loads a database from bzip2-compressed ordered-pairs bytes.
pub fn load_database_bzip2(bytes: &Vec<u8>) -> (r: Result<Database, EditError>)
    ensures
        r is Err ==> r == Err::<Database, EditError>(EditError::MalformedData),
        forall|p: Seq<(char, Seq<Seq<Point>>)>|
            bytes@ == bz2_of(enc_file(p)) && bounded_pairs(p) && strokes_nonempty(p) ==> (r matches
                Ok(d) && d@ == build_db(Seq::empty(), p) && d.wf()),
{
    match bz2_decompress(bytes) {
        Ok(plain) => {
            proof {
                assert forall|p: Seq<(char, Seq<Seq<Point>>)>|
                    bytes@ == bz2_of(enc_file(p)) && bounded_pairs(p) implies dec_file(plain@)
                    == Some(p) by {
                    crate::codec::lemma_codec_round_trip(p);
                }
            }
            load_database(&plain)
        },
        Err(_) => Err(EditError::MalformedData),
    }
}

} // verus!

use vstd::prelude::*;

use crate::compress::{deflate, inflate_prefix, zlib_deflate, zlib_inflate};
use crate::digest::{sha1_digest, sha1_of};
use crate::error::GitError;
use crate::object::{
    canonical, decode, decode_spec, encode, encode_spec, encode_with_header, lemma_codec_round_trip,
    model_wf, Object, ObjectKind, ObjectModel,
};
use crate::pack::PackObject;

verus! {

/// What the store writes for one object: its id and the compressed bytes of
/// the file named after that id.
pub struct LooseObject {
    pub id: crate::object::Hash,
    pub data: Vec<u8>,
}

/// The id and file contents under which the encoded object `raw` is stored.
pub open spec fn stored_form(raw: Seq<u8>) -> (Seq<u8>, Seq<u8>) {
    (sha1_of(raw), zlib_deflate(raw))
}

/// What reading a stored file gives: the object that its inflated contents
/// decode to; any failure of inflation or decoding is a corrupt object.
pub open spec fn read_spec(file: Seq<u8>) -> Result<ObjectModel, GitError> {
    match zlib_inflate(file) {
        Err(_) => Err(GitError::CorruptObject),
        Ok((raw, _)) => match decode_spec(raw) {
            Ok(m) => Ok(m),
            Err(_) => Err(GitError::CorruptObject),
        },
    }
}

/// Hashes and compresses an already encoded object.
pub fn write_payload(payload: &[u8]) -> (r: LooseObject)
    ensures
        (r.id@, r.data@) == stored_form(payload@),
        zlib_inflate(r.data@) == Ok::<(Seq<u8>, nat), bool>((payload@, r.data@.len() as nat)),
{
    let id = crate::object::Hash::from_digest(sha1_digest(payload));
    let data = deflate(payload);
    assert(data@ + Seq::<u8>::empty() =~= data@);
    LooseObject { id, data }
}

/// Encodes, hashes and compresses an object.
pub fn write_object(o: &Object) -> (r: LooseObject)
    ensures
        (r.id@, r.data@) == stored_form(encode_spec(o@)),
        zlib_inflate(r.data@) == Ok::<(Seq<u8>, nat), bool>((encode_spec(o@), r.data@.len() as nat)),
{
    let raw = encode(o);
    write_payload(raw.as_slice())
}

/// Stores a file's contents as a blob.
pub fn write_blob(content: &[u8]) -> (r: LooseObject)
    ensures
        (r.id@, r.data@) == stored_form(canonical(ObjectKind::Blob, content@)),
        zlib_inflate(r.data@) == Ok::<(Seq<u8>, nat), bool>(
            (canonical(ObjectKind::Blob, content@), r.data@.len() as nat),
        ),
{
    let raw = encode_with_header(ObjectKind::Blob, content);
    write_payload(raw.as_slice())
}

/// Stores an object resolved from a pack, whose header the pack did not carry.
pub fn write_pack_object(o: &PackObject) -> (r: LooseObject)
    ensures
        (r.id@, r.data@) == stored_form(canonical(o.kind, o.payload@)),
        zlib_inflate(r.data@) == Ok::<(Seq<u8>, nat), bool>(
            (canonical(o.kind, o.payload@), r.data@.len() as nat),
        ),
{
    let raw = encode_with_header(o.kind, o.payload.as_slice());
    write_payload(raw.as_slice())
}

impl crate::object::Hash {
    /// Reads the object stored under this id, given the contents of its file
    /// (at `file_path`). The contents are not checked against the id.
    pub fn read(&self, file: &[u8]) -> (r: Result<Object, GitError>)
        ensures
            match read_spec(file@) {
                Ok(m) => r is Ok && r->Ok_0@ == m,
                Err(e) => r is Err && r->Err_0 == e,
            },
    {
        read_object(file)
    }
}

/// Reads back an object from the contents of its stored file.
pub fn read_object(file: &[u8]) -> (r: Result<Object, GitError>)
    ensures
        match read_spec(file@) {
            Ok(m) => r is Ok && r->Ok_0@ == m,
            Err(e) => r is Err && r->Err_0 == e,
        },
{
    let (raw, _used) = match inflate_prefix(file) {
        Ok(p) => p,
        Err(_) => return Err(GitError::CorruptObject),
    };
    match decode(raw.as_slice()) {
        Ok(o) => Ok(o),
        Err(_) => Err(GitError::CorruptObject),
    }
}

} // verus!

verus! {

/// Writing the same blob twice yields the same id and the same stored bytes.
pub proof fn lemma_blob_write_deterministic(b: Seq<u8>, first: (Seq<u8>, Seq<u8>), second: (Seq<u8>, Seq<u8>))
    requires
        first == stored_form(canonical(ObjectKind::Blob, b)),
        second == stored_form(canonical(ObjectKind::Blob, b)),
    ensures
        first.0 == second.0,
        first.1 == second.1,
{
}

/// A stored object reads back as the object that was written: a file whose
/// contents inflate to the canonical encoding of an unambiguous object (any
/// blob, such as a file's contents) decodes to that object.
pub proof fn lemma_read_back(o: ObjectModel, file: Seq<u8>)
    requires
        model_wf(o),
        zlib_inflate(file) matches Ok((raw, _)) && raw == encode_spec(o),
    ensures
        read_spec(file) == Ok::<ObjectModel, GitError>(o),
{
    lemma_codec_round_trip(o);
}

} // verus!

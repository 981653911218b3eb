use vstd::prelude::*;
use vstd::slice::slice_subrange;

use crate::compress::{inflate_prefix, zlib_inflate};
use crate::delta::{apply_delta, delta_result};
use crate::digest::{sha1_digest, sha1_of};
use crate::error::GitError;
use crate::object::{canonical, encode_with_header, ObjectKind};
use crate::reader::Reader;
use crate::varint::{
    continues, continues_from, lemma_offset_value_bound, lemma_pow128_mono, lemma_pow_values,
    lemma_varint_end_unique, offset_value, parse_offset_varint, parse_varint, pow128,
    varint_ends_at, MAX_VARINT_BYTES,
};

verus! {

/// An entry header at the front of `s`: type tag (bits 4..6 of the first
/// byte), declared size (low four bits of the first byte, then seven bits per
/// continuation byte, least significant group first) and header length.
pub open spec fn entry_header(s: Seq<u8>) -> Option<(u8, nat, nat)> {
    if s.len() == 0 {
        None
    } else if s[0] < 128 {
        Some(((s[0] / 16) % 8, (s[0] % 16) as nat, 1))
    } else {
        match parse_varint(s.drop_first()) {
            Some((v, n)) => Some(((s[0] / 16) % 8, (s[0] % 16) as nat + 16 * v, n + 1)),
            None => None,
        }
    }
}

/// The error for a header or offset varint that cannot be read from `s`:
/// truncation when the input ends inside it, overflow when it runs past the
/// length limit before its last byte.
pub open spec fn varint_error(s: Seq<u8>) -> GitError {
    if continues(s, s.len() as int) {
        GitError::TruncatedPack
    } else {
        GitError::VarintOverflow
    }
}

/// The id of an object: the digest of its canonical encoding.
pub open spec fn object_id(k: ObjectKind, payload: Seq<u8>) -> Seq<u8> {
    sha1_of(canonical(k, payload))
}

/// A resolved pack entry: kind, stream offset, payload and id.
pub type PackObjectView = (ObjectKind, nat, Seq<u8>, Seq<u8>);

/// An object resolved to a base kind, read from the pack at `offset`.
pub struct PackObject {
    pub kind: ObjectKind,
    pub offset: usize,
    pub payload: Vec<u8>,
    pub id: Vec<u8>,
}

impl View for PackObject {
    type V = PackObjectView;

    open spec fn view(&self) -> PackObjectView {
        (self.kind, self.offset as nat, self.payload@, self.id@)
    }
}

pub open spec fn views(v: Seq<PackObject>) -> Seq<PackObjectView> {
    v.map_values(|o: PackObject| o@)
}

pub open spec fn resolved(k: ObjectKind, offset: nat, payload: Seq<u8>) -> PackObjectView {
    (k, offset, payload, object_id(k, payload))
}

/// The base kind that a non-delta type tag (1, 2 or 3) stands for.
pub open spec fn tag_kind(tag: u8) -> ObjectKind {
    if tag == 1 {
        ObjectKind::Commit
    } else if tag == 2 {
        ObjectKind::Tree
    } else {
        ObjectKind::Blob
    }
}

/// The last object resolved at stream offset `off`.
pub open spec fn find_offset(done: Seq<PackObjectView>, off: nat) -> Option<int>
    decreases done.len(),
{
    if done.len() == 0 {
        None
    } else if done.last().1 == off {
        Some(done.len() - 1)
    } else {
        find_offset(done.drop_last(), off)
    }
}

/// The last object resolved with id `id`.
pub open spec fn find_id(done: Seq<PackObjectView>, id: Seq<u8>) -> Option<int>
    decreases done.len(),
{
    if done.len() == 0 {
        None
    } else if done.last().3 == id {
        Some(done.len() - 1)
    } else {
        find_id(done.drop_last(), id)
    }
}

/// Inflates an entry's data and holds it to the declared size; a stream
/// that the pack ends inside of is a truncated pack.
pub open spec fn inflate_entry(body: Seq<u8>, size: nat) -> Result<(Seq<u8>, nat), GitError> {
    match zlib_inflate(body) {
        Err(true) => Err(GitError::TruncatedPack),
        Err(false) => Err(GitError::CorruptObject),
        Ok((out, used)) => if out.len() == size {
            Ok((out, used))
        } else {
            Err(GitError::CorruptObject)
        },
    }
}

/// Resolves a delta entry whose data starts at the front of `body`, against
/// `base`; `skip` is what precedes `body` in the entry.
pub open spec fn delta_step(
    base: PackObjectView,
    pos: nat,
    body: Seq<u8>,
    size: nat,
    skip: nat,
) -> Result<(PackObjectView, nat), GitError> {
    match inflate_entry(body, size) {
        Err(e) => Err(e),
        Ok((d, used)) => match delta_result(base.2, d) {
            Err(e) => Err(e),
            Ok(out) => Ok((resolved(base.0, pos, out), pos + skip + used)),
        },
    }
}

/// A whole entry (tag 1, 2 or 3) whose zlib data starts `skip` bytes into it.
pub open spec fn base_step(tag: u8, size: nat, pos: nat, skip: nat, body: Seq<u8>) -> Result<
    (PackObjectView, nat),
    GitError,
> {
    match inflate_entry(body, size) {
        Err(e) => Err(e),
        Ok((out, used)) => Ok((resolved(tag_kind(tag), pos, out), pos + skip + used)),
    }
}

/// An offset delta (tag 6): the distance back to its base, then its data.
pub open spec fn ofs_delta_step(
    done: Seq<PackObjectView>,
    size: nat,
    pos: nat,
    skip: nat,
    body: Seq<u8>,
) -> Result<(PackObjectView, nat), GitError> {
    match parse_offset_varint(body) {
        None => Err(varint_error(body)),
        Some((dist, ol)) => if dist > pos || find_offset(done, (pos - dist) as nat) is None {
            Err(GitError::UnknownDeltaBase)
        } else {
            let base = done[find_offset(done, (pos - dist) as nat)->Some_0];
            delta_step(base, pos, body.skip(ol as int), size, skip + ol)
        },
    }
}

/// A reference delta (tag 7): the 20-byte id of its base, then its data.
/// The base is an object decoded earlier in the pack or, failing that, one
/// of the `known` objects of the store.
pub open spec fn ref_delta_step(
    done: Seq<PackObjectView>,
    known: Seq<PackObjectView>,
    size: nat,
    pos: nat,
    skip: nat,
    body: Seq<u8>,
) -> Result<(PackObjectView, nat), GitError> {
    if body.len() < 20 {
        Err(GitError::TruncatedPack)
    } else {
        match find_id(done, body.take(20)) {
            Some(i) => delta_step(done[i], pos, body.skip(20), size, skip + 20),
            None => match find_id(known, body.take(20)) {
                Some(i) => delta_step(known[i], pos, body.skip(20), size, skip + 20),
                None => Err(GitError::UnknownDeltaBase),
            },
        }
    }
}

/// Decodes the entry at offset `pos` of the pack `data`, after the objects
/// `done`, with the store's objects `known`: the resolved object and the
/// offset of the next entry.
#[verifier::opaque]
pub open spec fn entry_step(
    data: Seq<u8>,
    pos: nat,
    done: Seq<PackObjectView>,
    known: Seq<PackObjectView>,
) -> Result<
    (PackObjectView, nat),
    GitError,
> {
    let s = data.skip(pos as int);
    match entry_header(s) {
        None => Err(
            if s.len() == 0 {
                GitError::TruncatedPack
            } else {
                varint_error(s.drop_first())
            },
        ),
        Some((tag, size, hl)) => {
            let body = s.skip(hl as int);
            if 1 <= tag <= 3 {
                base_step(tag, size, pos, hl, body)
            } else if tag == 6 {
                ofs_delta_step(done, size, pos, hl, body)
            } else if tag == 7 {
                ref_delta_step(done, known, size, pos, hl, body)
            } else {
                Err(GitError::UnknownPackObjectType)
            }
        },
    }
}

/// Decodes `n` entries from offset `pos` on, after the objects `done`.
pub open spec fn decode_entries(
    data: Seq<u8>,
    pos: nat,
    n: nat,
    done: Seq<PackObjectView>,
    known: Seq<PackObjectView>,
) -> Result<
    Seq<PackObjectView>,
    GitError,
>
    decreases n,
{
    if n == 0 {
        Ok(done)
    } else {
        match entry_step(data, pos, done, known) {
            Err(e) => Err(e),
            Ok((o, next)) => decode_entries(data, next, (n - 1) as nat, done.push(o), known),
        }
    }
}

/// A 4-byte big-endian integer.
pub open spec fn be32(b: Seq<u8>) -> nat {
    ((b[0] as nat * 256 + b[1] as nat) * 256 + b[2] as nat) * 256 + b[3] as nat
}

/// The magic bytes `"PACK"` that open a pack stream.
pub open spec fn pack_magic() -> Seq<u8> {
    seq![80u8, 65u8, 67u8, 75u8]
}

/// Decodes a pack stream: the header (magic, version, object count) and
/// then that many entries, each delta resolved against its base, which for a
/// reference delta may be one of the store's objects `known`.
pub open spec fn decode_pack(data: Seq<u8>, known: Seq<PackObjectView>) -> Result<
    Seq<PackObjectView>,
    GitError,
> {
    if data.len() < 12 || data.take(4) != pack_magic() {
        Err(GitError::TruncatedPack)
    } else {
        decode_entries(data, 12, be32(data.subrange(8, 12)), Seq::empty(), known)
    }
}

pub proof fn lemma_find_offset(done: Seq<PackObjectView>, off: nat)
    ensures
        find_offset(done, off) matches Some(i) ==> 0 <= i < done.len() && done[i].1 == off,
    decreases done.len(),
{
    if done.len() > 0 && done.last().1 != off {
        lemma_find_offset(done.drop_last(), off);
    }
}

pub proof fn lemma_find_id(done: Seq<PackObjectView>, id: Seq<u8>)
    ensures
        find_id(done, id) matches Some(i) ==> 0 <= i < done.len() && done[i].3 == id,
    decreases done.len(),
{
    if done.len() > 0 && done.last().3 != id {
        lemma_find_id(done.drop_last(), id);
    }
}

/// The last index of `done` whose object sits at offset `off`.
fn find_by_offset(done: &Vec<PackObject>, off: usize) -> (r: Option<usize>)
    ensures
        match find_offset(views(done@), off as nat) {
            Some(i) => r is Some && r->Some_0 as int == i,
            None => r is None,
        },
{
    let mut i = done.len();
    assert(views(done@).take(i as int) =~= views(done@));
    while i > 0
        invariant
            i <= done@.len(),
            find_offset(views(done@), off as nat) == find_offset(views(done@).take(i as int), off as nat),
        decreases i,
    {
        let ghost t = views(done@).take(i as int);
        assert(t.drop_last() =~= views(done@).take(i - 1));
        if done[i - 1].offset == off {
            return Some(i - 1);
        }
        i -= 1;
    }
    None
}

/// Whether two byte sequences are equal.
pub(crate) fn bytes_eq(a: &[u8], b: &[u8]) -> (r: bool)
    ensures
        r == (a@ == b@),
{
    if a.len() != b.len() {
        return false;
    }
    let mut i: usize = 0;
    while i < a.len()
        invariant
            a@.len() == b@.len(),
            i <= a@.len(),
            forall|j: int| 0 <= j < i ==> a@[j] == b@[j],
        decreases a@.len() - i,
    {
        if a[i] != b[i] {
            return false;
        }
        i += 1;
    }
    assert(a@ =~= b@);
    true
}

/// The last index of `done` whose object has id `id`.
fn find_by_id(done: &Vec<PackObject>, id: &[u8]) -> (r: Option<usize>)
    ensures
        match find_id(views(done@), id@) {
            Some(i) => r is Some && r->Some_0 as int == i,
            None => r is None,
        },
{
    let mut i = done.len();
    assert(views(done@).take(i as int) =~= views(done@));
    while i > 0
        invariant
            i <= done@.len(),
            find_id(views(done@), id@) == find_id(views(done@).take(i as int), id@),
        decreases i,
    {
        let ghost t = views(done@).take(i as int);
        assert(t.drop_last() =~= views(done@).take(i - 1));
        if bytes_eq(done[i - 1].id.as_slice(), id) {
            return Some(i - 1);
        }
        i -= 1;
    }
    None
}

/// Builds a resolved object, computing its id.
fn make_object(kind: ObjectKind, offset: usize, payload: Vec<u8>) -> (r: PackObject)
    ensures
        r@ == resolved(kind, offset as nat, payload@),
{
    let encoded = encode_with_header(kind, payload.as_slice());
    let id = sha1_digest(encoded.as_slice());
    PackObject { kind, offset, payload, id }
}

/// A cursor over a whole pack stream that knows its byte offset in it.
pub struct PackReader<'a> {
    slice: &'a [u8],
    slice_ptr: usize,
}

impl<'a> PackReader<'a> {
    /// The whole stream.
    pub closed spec fn data(&self) -> Seq<u8> {
        self.slice@
    }

    /// The offset of the next byte to read.
    pub closed spec fn pos(&self) -> nat {
        self.slice_ptr as nat
    }

    pub closed spec fn wf(&self) -> bool {
        self.slice_ptr <= self.slice@.len()
    }

    /// The bytes that are still to be read.
    pub open spec fn rest(&self) -> Seq<u8> {
        self.data().skip(self.pos() as int)
    }

    pub fn new(slice: &'a [u8]) -> (r: Self)
        ensures
            r.wf(),
            r.data() == slice@,
            r.pos() == 0,
    {
        PackReader { slice, slice_ptr: 0 }
    }

    /// Takes exactly `n` bytes.
    fn popn(&mut self, n: usize) -> (r: Result<&'a [u8], GitError>)
        requires
            old(self).wf(),
        ensures
            final(self).wf(),
            final(self).data() == old(self).data(),
            n <= old(self).rest().len() ==> r is Ok && r->Ok_0@ == old(self).rest().take(n as int)
                && final(self).pos() == old(self).pos() + n,
            n > old(self).rest().len() ==> r is Err && r->Err_0 == GitError::Exhausted
                && final(self).pos() == old(self).pos(),
    {
        if n > self.slice.len() - self.slice_ptr {
            return Err(GitError::Exhausted);
        }
        let out = slice_subrange(self.slice, self.slice_ptr, self.slice_ptr + n);
        self.slice_ptr = self.slice_ptr + n;
        assert(out@ =~= old(self).rest().take(n as int));
        Ok(out)
    }

    /// Skips `n` bytes.
    fn dropn(&mut self, n: usize)
        requires
            old(self).wf(),
            n <= old(self).rest().len(),
        ensures
            final(self).wf(),
            final(self).data() == old(self).data(),
            final(self).pos() == old(self).pos() + n,
    {
        let total = self.slice.len();
        assert(self.rest().len() == total - self.slice_ptr);
        self.slice_ptr = self.slice_ptr + n;
    }

    /// What is left, as a slice.
    fn remaining(&self) -> (r: &'a [u8])
        requires
            self.wf(),
        ensures
            r@ == self.rest(),
    {
        slice_subrange(self.slice, self.slice_ptr, self.slice.len())
    }

    /// Reads an entry header: its type tag and declared size.
    pub fn read_varint(&mut self) -> (r: Result<(u8, u128), GitError>)
        requires
            old(self).wf(),
        ensures
            final(self).wf(),
            final(self).data() == old(self).data(),
            match entry_header(old(self).rest()) {
                Some((tag, size, n)) => r == Ok::<(u8, u128), GitError>((tag, size as u128))
                    && final(self).pos() == old(self).pos() + n && size <= u128::MAX,
                None => r == Err::<(u8, u128), GitError>(
                    if old(self).rest().len() == 0 {
                        GitError::TruncatedPack
                    } else {
                        varint_error(old(self).rest().drop_first())
                    },
                ),
            },
    {
        let s = self.remaining();
        if s.len() == 0 {
            return Err(GitError::TruncatedPack);
        }
        let b0 = s[0];
        let tag = (b0 / 16) % 8;
        let low = (b0 % 16) as u128;
        if b0 < 128 {
            self.dropn(1);
            return Ok((tag, low));
        }
        let tail = slice_subrange(s, 1, s.len());
        assert(tail@ =~= s@.drop_first());
        let mut rd = Reader::new(tail);
        match rd.pop_varint() {
            Ok(v) => {
                let ghost n = parse_varint(tail@)->Some_0.1;
                self.dropn(1);
                proof {
                    assert(n <= tail@.len());
                }
                self.dropn((tail.len() - rd.len()) as usize);
                Ok((tag, low + 16 * (v as u128)))
            },
            Err(e) => {
                match e {
                    GitError::Exhausted => Err(GitError::TruncatedPack),
                    _ => Err(GitError::VarintOverflow),
                }
            },
        }
    }
    /// Reads an offset varint: the distance back to a delta's base.
    #[verifier::spinoff_prover]
    pub fn read_offset_varint(&mut self) -> (r: Result<u64, GitError>)
        requires
            old(self).wf(),
        ensures
            final(self).wf(),
            final(self).data() == old(self).data(),
            match parse_offset_varint(old(self).rest()) {
                Some((v, n)) => r == Ok::<u64, GitError>(v as u64) && final(self).pos() == old(
                    self,
                ).pos() + n && v <= u64::MAX,
                None => r == Err::<u64, GitError>(varint_error(old(self).rest())),
            },
    {
        let s = self.remaining();
        let mut i: usize = 0;
        let mut value: u64 = 0;
        proof {
            lemma_pow_values();
        }
        loop
            invariant
                s@ == self.rest(),
                self.wf(),
                self.data() == old(self).data(),
                self.pos() == old(self).pos(),
                i <= MAX_VARINT_BYTES,
                i <= s@.len(),
                continues(s@, i as int),
                i >= 1 ==> value as nat == offset_value(s@.take(i as int)) && value + 3 <= 2
                    * pow128(i as nat),
                pow128(8) == 0x100_0000_0000_0000,
            decreases MAX_VARINT_BYTES - i,
        {
            if i == MAX_VARINT_BYTES {
                proof {
                    assert forall|n: int| 1 <= n <= MAX_VARINT_BYTES implies !varint_ends_at(s@, n) by {
                        assert(s@[n - 1] >= 128);
                    }
                }
                if continues_from(s, i) {
                    return Err(GitError::TruncatedPack);
                }
                return Err(GitError::VarintOverflow);
            }
            if i == s.len() {
                proof {
                    assert forall|n: int| 1 <= n <= MAX_VARINT_BYTES implies !varint_ends_at(s@, n) by {
                        if n <= s@.len() {
                            assert(s@[n - 1] >= 128);
                        }
                    }
                }
                return Err(GitError::TruncatedPack);
            }
            let b = s[i];
            proof {
                assert(s@.take(i + 1).drop_last() =~= s@.take(i as int));
                assert(s@.take(i + 1).last() == b);
                lemma_offset_value_bound(s@.take(i + 1));
                if i >= 1 {
                    lemma_pow128_mono(i as nat, 8);
                }
            }
            if i == 0 {
                value = (b % 128) as u64;
            } else {
                value = (value + 1) * 128 + (b % 128) as u64;
            }
            i += 1;
            if b < 128 {
                proof {
                    assert(varint_ends_at(s@, i as int));
                    let n = choose|n: int| 1 <= n <= MAX_VARINT_BYTES && varint_ends_at(s@, n);
                    lemma_varint_end_unique(s@, n, i as int);
                }
                self.dropn(i);
                return Ok(value);
            }
        }
    }

    /// Decodes the entry at the current position, after the objects `done`.
    #[verifier::spinoff_prover]
    fn read_entry(&mut self, done: &Vec<PackObject>, known: &Vec<PackObject>) -> (r: Result<
        PackObject,
        GitError,
    >)
        requires
            old(self).wf(),
        ensures
            final(self).wf(),
            final(self).data() == old(self).data(),
            match entry_step(old(self).data(), old(self).pos(), views(done@), views(known@)) {
                Ok((o, next)) => r is Ok && r->Ok_0@ == o && final(self).pos() == next,
                Err(e) => r is Err && r->Err_0 == e,
            },
    {
        reveal(entry_step);
        let location = self.slice_ptr;
        let ghost s = self.rest();
        let (tag, size) = match self.read_varint() {
            Ok(h) => h,
            Err(e) => return Err(e),
        };
        let ghost hl = entry_header(s)->Some_0.2;
        assert(self.rest() =~= s.skip(hl as int));
        if 1 <= tag && tag <= 3 {
            self.read_base(tag, size, location)
        } else if tag == 6 {
            self.read_ofs_delta(done, size, location)
        } else if tag == 7 {
            self.read_ref_delta(done, known, size, location)
        } else {
            Err(GitError::UnknownPackObjectType)
        }
    }

    /// Inflates a whole object of kind `tag` at the current position.
    fn read_base(&mut self, tag: u8, size: u128, location: usize) -> (r: Result<PackObject, GitError>)
        requires
            old(self).wf(),
            location <= old(self).pos(),
            1 <= tag <= 3,
        ensures
            final(self).wf(),
            final(self).data() == old(self).data(),
            match base_step(tag, size as nat, location as nat, (old(self).pos() - location) as nat, old(self).rest()) {
                Ok((o, next)) => r is Ok && r->Ok_0@ == o && final(self).pos() == next,
                Err(e) => r is Err && r->Err_0 == e,
            },
    {
        let (out, used) = match inflate_prefix(self.remaining()) {
            Ok(p) => p,
            Err(true) => return Err(GitError::TruncatedPack),
            Err(false) => return Err(GitError::CorruptObject),
        };
        if out.len() as u128 != size {
            return Err(GitError::CorruptObject);
        }
        self.dropn(used);
        let kind = if tag == 1 {
            ObjectKind::Commit
        } else if tag == 2 {
            ObjectKind::Tree
        } else {
            ObjectKind::Blob
        };
        Ok(make_object(kind, location, out))
    }

    /// Reads an offset delta at the current position.
    #[verifier::spinoff_prover]
    fn read_ofs_delta(&mut self, done: &Vec<PackObject>, size: u128, location: usize) -> (r: Result<PackObject, GitError>)
        requires
            old(self).wf(),
            location <= old(self).pos(),
        ensures
            final(self).wf(),
            final(self).data() == old(self).data(),
            match ofs_delta_step(views(done@), size as nat, location as nat, (old(self).pos() - location) as nat, old(self).rest()) {
                Ok((o, next)) => r is Ok && r->Ok_0@ == o && final(self).pos() == next,
                Err(e) => r is Err && r->Err_0 == e,
            },
    {
        let ghost body = self.rest();
        let dist = match self.read_offset_varint() {
            Ok(d) => d,
            Err(e) => return Err(e),
        };
        let ghost ol = parse_offset_varint(body)->Some_0.1;
        assert(self.rest() =~= body.skip(ol as int));
        if dist as u128 > location as u128 {
            return Err(GitError::UnknownDeltaBase);
        }
        let target = location - dist as usize;
        assert(target as nat == (location - dist) as nat);
        let idx = match find_by_offset(done, target) {
            Some(i) => i,
            None => return Err(GitError::UnknownDeltaBase),
        };
        proof {
            lemma_find_offset(views(done@), target as nat);
            let fi = find_offset(views(done@), target as nat);
            assert(fi is Some);
            assert(0 <= fi->Some_0 < views(done@).len());
            assert(fi->Some_0 == idx as int);
            assert(views(done@)[idx as int] == done@[idx as int]@);
        }
        let ghost pos1 = self.pos();
        let ghost rest1 = self.rest();
        let r = self.resolve_delta(&done[idx], location, size);
        proof {
            let (dv, olv) = parse_offset_varint(body)->Some_0;
            assert(dv == dist as nat);
            assert(olv == ol);
            assert(find_offset(views(done@), target as nat) == Some(idx as int));
            assert(rest1 == body.skip(ol as int));
            assert(pos1 - location == (old(self).pos() - location) + ol);
        }
        r
    }

    /// Reads a reference delta at the current position.
    #[verifier::spinoff_prover]
    fn read_ref_delta(&mut self, done: &Vec<PackObject>, known: &Vec<PackObject>, size: u128, location: usize) -> (r: Result<PackObject, GitError>)
        requires
            old(self).wf(),
            location <= old(self).pos(),
        ensures
            final(self).wf(),
            final(self).data() == old(self).data(),
            match ref_delta_step(views(done@), views(known@), size as nat, location as nat, (old(self).pos() - location) as nat, old(self).rest()) {
                Ok((o, next)) => r is Ok && r->Ok_0@ == o && final(self).pos() == next,
                Err(e) => r is Err && r->Err_0 == e,
            },
    {
        let ghost body = self.rest();
        let id = match self.popn(20) {
            Ok(b) => b,
            Err(_) => return Err(GitError::TruncatedPack),
        };
        assert(self.rest() =~= body.skip(20));
        match find_by_id(done, id) {
            Some(idx) => {
                proof {
                    lemma_find_id(views(done@), id@);
                    assert(views(done@)[idx as int] == done@[idx as int]@);
                }
                self.resolve_delta(&done[idx], location, size)
            },
            None => match find_by_id(known, id) {
                Some(idx) => {
                    proof {
                        lemma_find_id(views(known@), id@);
                        assert(views(known@)[idx as int] == known@[idx as int]@);
                    }
                    self.resolve_delta(&known[idx], location, size)
                },
                None => Err(GitError::UnknownDeltaBase),
            },
        }
    }

    /// Inflates the delta data at the current position and applies it to
    /// `base`.
    fn resolve_delta(&mut self, base: &PackObject, location: usize, size: u128) -> (r: Result<
        PackObject,
        GitError,
    >)
        requires
            old(self).wf(),
            location <= old(self).pos(),
        ensures
            final(self).wf(),
            final(self).data() == old(self).data(),
            match delta_step(
                base@,
                location as nat,
                old(self).rest(),
                size as nat,
                (old(self).pos() - location) as nat,
            ) {
                Ok((o, next)) => r is Ok && r->Ok_0@ == o && final(self).pos() == next,
                Err(e) => r is Err && r->Err_0 == e,
            },
    {
        let (d, used) = match inflate_prefix(self.remaining()) {
            Ok(p) => p,
            Err(true) => return Err(GitError::TruncatedPack),
            Err(false) => return Err(GitError::CorruptObject),
        };
        if d.len() as u128 != size {
            return Err(GitError::CorruptObject);
        }
        self.dropn(used);
        let out = match apply_delta(base.payload.as_slice(), d.as_slice()) {
            Ok(o) => o,
            Err(e) => return Err(e),
        };
        Ok(make_object(base.kind, location, out))
    }

    /// Decodes the whole pack: the header, then every entry in stream order,
    /// each delta resolved against an object decoded before it.
    pub fn read(self) -> (r: Result<Vec<PackObject>, GitError>)
        requires
            self.wf(),
            self.pos() == 0,
        ensures
            match decode_pack(self.data(), Seq::empty()) {
                Ok(objs) => r is Ok && views(r->Ok_0@) == objs,
                Err(e) => r is Err && r->Err_0 == e,
            },
    {
        let known: Vec<PackObject> = Vec::new();
        assert(views(known@) =~= Seq::<PackObjectView>::empty());
        self.read_with_bases(&known)
    }

    /// Decodes the whole pack as `read` does; a reference delta whose base
    /// is not in the pack takes it from `known`, objects of the store.
    #[verifier::spinoff_prover]
    pub fn read_with_bases(self, known: &Vec<PackObject>) -> (r: Result<Vec<PackObject>, GitError>)
        requires
            self.wf(),
            self.pos() == 0,
        ensures
            match decode_pack(self.data(), views(known@)) {
                Ok(objs) => r is Ok && views(r->Ok_0@) == objs,
                Err(e) => r is Err && r->Err_0 == e,
            },
    {
        let ghost data = self.data();
        let mut rd = PackReader { slice: self.slice, slice_ptr: self.slice_ptr };
        assert(rd.rest() =~= data);
        let magic = match rd.popn(4) {
            Ok(m) => m,
            Err(_) => return Err(GitError::TruncatedPack),
        };
        let _version = match rd.popn(4) {
            Ok(v) => v,
            Err(_) => return Err(GitError::TruncatedPack),
        };
        let count_bytes = match rd.popn(4) {
            Ok(c) => c,
            Err(_) => return Err(GitError::TruncatedPack),
        };
        if !(magic[0] == 80 && magic[1] == 65 && magic[2] == 67 && magic[3] == 75) {
            proof {
                assert(data.take(4) != pack_magic()) by {
                    if data.take(4) == pack_magic() {
                        assert(magic@ =~= data.take(4));
                    }
                }
            }
            return Err(GitError::TruncatedPack);
        }
        proof {
            assert(magic@ =~= data.take(4));
            assert(data.take(4) =~= pack_magic());
            assert(count_bytes@ =~= data.subrange(8, 12));
            assert(views(Seq::<PackObject>::empty()) =~= Seq::<PackObjectView>::empty());
            assert(rd.pos() == 12);
        }
        let count: u64 = ((count_bytes[0] as u64 * 256 + count_bytes[1] as u64) * 256
            + count_bytes[2] as u64) * 256 + count_bytes[3] as u64;
        let mut objects: Vec<PackObject> = Vec::new();
        let mut i: u64 = 0;
        while i < count
            invariant
                rd.wf(),
                rd.data() == data,
                i <= count,
                data == self.data(),
                data.len() >= 12,
                decode_pack(data, views(known@)) == decode_entries(
                    data,
                    rd.pos(),
                    (count - i) as nat,
                    views(objects@),
                    views(known@),
                ),
            decreases count - i,
        {
            let obj = match rd.read_entry(&objects, known) {
                Ok(o) => o,
                Err(e) => return Err(e),
            };
            proof {
                assert(views(objects@).push(obj@) =~= views(objects@.push(obj)));
            }
            objects.push(obj);
            i += 1;
        }
        Ok(objects)
    }
}

} // verus!

verus! {

pub proof fn lemma_decode_entries_len(
    data: Seq<u8>,
    pos: nat,
    n: nat,
    done: Seq<PackObjectView>,
    known: Seq<PackObjectView>,
)
    ensures
        decode_entries(data, pos, n, done, known) matches Ok(v) ==> v.len() == done.len() + n,
    decreases n,
{
    if n > 0 {
        if let Ok((o, next)) = entry_step(data, pos, done, known) {
            lemma_decode_entries_len(data, next, (n - 1) as nat, done.push(o), known);
        }
    }
}

/// A pack that decodes yields exactly as many objects as its header
/// declares; one that cannot supply them all fails.
pub proof fn lemma_pack_count(data: Seq<u8>, known: Seq<PackObjectView>)
    ensures
        decode_pack(data, known) matches Ok(v) ==> data.len() >= 12 && v.len() == be32(
            data.subrange(8, 12),
        ),
{
    if data.len() >= 12 && data.take(4) == pack_magic() {
        lemma_decode_entries_len(data, 12, be32(data.subrange(8, 12)), Seq::empty(), known);
    }
}

} // verus!

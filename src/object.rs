use vstd::prelude::*;

use crate::delta::append_bytes;
use crate::error::GitError;
use crate::hex::{
    ascii_chars, hex_ascii, hex_of, hex_to_bytes, is_lower_hex, lemma_hex_len, string_from_ascii,
};
use crate::pack::bytes_eq;
use crate::reader::Reader;
use vstd::string::StringSliceAdditionalSpecFns;

verus! {

/// The three kinds of stored object.
#[derive(Debug, Clone, Copy, PartialEq, Eq, Structural)]
pub enum ObjectKind {
    Commit,
    Tree,
    Blob,
}

/// The keyword that names `k` in an encoded object (ASCII bytes).
pub open spec fn kind_word(k: ObjectKind) -> Seq<u8> {
    match k {
        ObjectKind::Commit => seq![99u8, 111u8, 109u8, 109u8, 105u8, 116u8],
        ObjectKind::Tree => seq![116u8, 114u8, 101u8, 101u8],
        ObjectKind::Blob => seq![98u8, 108u8, 111u8, 98u8],
    }
}

/// The decimal digits of `n`, most significant first, with no leading zero.
pub open spec fn decimal(n: nat) -> Seq<u8>
    decreases n,
{
    if n < 10 {
        seq![(48 + n) as u8]
    } else {
        decimal(n / 10).push((48 + n % 10) as u8)
    }
}

/// The canonical encoding `"<kind> <len>\0<body>"`.
pub open spec fn canonical(k: ObjectKind, body: Seq<u8>) -> Seq<u8> {
    kind_word(k) + seq![32u8] + decimal(body.len()) + seq![0u8] + body
}

/// Appends the decimal digits of `n`.
pub fn push_decimal(out: &mut Vec<u8>, n: u64)
    ensures
        final(out)@ == old(out)@ + decimal(n as nat),
    decreases n,
{
    if n >= 10 {
        push_decimal(out, n / 10);
    }
    out.push(48u8 + (n % 10) as u8);
}

/// Appends the keyword of `k`.
pub fn push_kind_word(out: &mut Vec<u8>, k: ObjectKind)
    ensures
        final(out)@ == old(out)@ + kind_word(k),
{
    let ghost o = out@;
    match k {
        ObjectKind::Commit => {
            out.push(99u8);
            out.push(111u8);
            out.push(109u8);
            out.push(109u8);
            out.push(105u8);
            out.push(116u8);
        },
        ObjectKind::Tree => {
            out.push(116u8);
            out.push(114u8);
            out.push(101u8);
            out.push(101u8);
        },
        ObjectKind::Blob => {
            out.push(98u8);
            out.push(108u8);
            out.push(111u8);
            out.push(98u8);
        },
    }
    assert(out@ =~= o + kind_word(k));
}

/// Prefixes `body` with its canonical header.
pub fn encode_with_header(k: ObjectKind, body: &[u8]) -> (r: Vec<u8>)
    ensures
        r@ == canonical(k, body@),
{
    let mut out: Vec<u8> = Vec::new();
    push_kind_word(&mut out, k);
    out.push(32u8);
    push_decimal(&mut out, body.len() as u64);
    out.push(0u8);
    append_bytes(&mut out, body);
    assert(out@ =~= canonical(k, body@));
    out
}

/// An object id: the 20 bytes of a digest.
pub struct Hash {
    bytes: Vec<u8>,
}

impl View for Hash {
    type V = Seq<u8>;

    closed spec fn view(&self) -> Seq<u8> {
        self.bytes@
    }
}

impl Hash {
    #[verifier::type_invariant]
    closed spec fn inv(&self) -> bool {
        self.bytes@.len() == 20
    }

    /// The id spelled by 40 lowercase hex digits.
    pub fn new(hex: &str) -> (r: Option<Hash>)
        ensures
            r is Some <==> hex.spec_bytes().len() == 40 && is_lower_hex(hex.spec_bytes()),
            r matches Some(h) ==> hex_ascii(h@) == hex.spec_bytes(),
    {
        let b = hex.as_bytes();
        if b.len() != 40 {
            return None;
        }
        match hex_to_bytes(b) {
            Some(v) => {
                proof {
                    lemma_hex_len(v@);
                }
                Some(Hash { bytes: v })
            },
            None => None,
        }
    }

    /// The id made of exactly 20 raw bytes.
    pub fn from_bytes(b: &[u8]) -> (r: Option<Hash>)
        ensures
            r is Some <==> b@.len() == 20,
            r matches Some(h) ==> h@ == b@,
    {
        if b.len() != 20 {
            return None;
        }
        Some(Hash { bytes: vstd::slice::slice_to_vec(b) })
    }

    pub(crate) fn from_digest(bytes: Vec<u8>) -> (r: Hash)
        requires
            bytes@.len() == 20,
        ensures
            r@ == bytes@,
    {
        Hash { bytes }
    }

    /// The 20 raw bytes.
    pub fn as_bytes(&self) -> (r: &[u8])
        ensures
            r@ == self@,
            r@.len() == 20,
    {
        proof {
            use_type_invariant(self);
        }
        self.bytes.as_slice()
    }

    /// The 40 lowercase hex digits, as ASCII bytes.
    pub fn hex_bytes(&self) -> (r: Vec<u8>)
        ensures
            r@ == hex_ascii(self@),
            r@.len() == 40,
    {
        proof {
            use_type_invariant(self);
            lemma_hex_len(self@);
        }
        hex_of(self.bytes.as_slice())
    }

    /// The 40 lowercase hex digits.
    pub fn to_hex(&self) -> (r: String)
        ensures
            r@ == ascii_chars(hex_ascii(self@)),
    {
        string_from_ascii(self.hex_bytes().as_slice())
    }

    /// Where the object lives under the repository directory: `objects/`
    /// and the first two hex digits.
    pub fn folder_path(&self) -> (r: String)
        ensures
            r@ == ascii_chars(objects_dir() + hex_ascii(self@).take(2)),
    {
        proof {
            use_type_invariant(self);
            lemma_hex_len(self@);
        }
        let h = self.hex_bytes();
        let mut out = objects_dir_bytes();
        out.push(h[0]);
        out.push(h[1]);
        assert(out@ =~= objects_dir() + hex_ascii(self@).take(2));
        string_from_ascii(out.as_slice())
    }

    /// The object's file under the repository directory: the folder, a
    /// slash, and the other 38 hex digits.
    pub fn file_path(&self) -> (r: String)
        ensures
            r@ == ascii_chars(objects_dir() + hex_ascii(self@).take(2) + seq![47u8] + hex_ascii(
                self@,
            ).skip(2)),
    {
        proof {
            use_type_invariant(self);
            lemma_hex_len(self@);
        }
        let h = self.hex_bytes();
        let mut out = objects_dir_bytes();
        out.push(h[0]);
        out.push(h[1]);
        out.push(47u8);
        append_bytes(&mut out, vstd::slice::slice_subrange(h.as_slice(), 2, h.len()));
        assert(out@ =~= objects_dir() + hex_ascii(self@).take(2) + seq![47u8] + hex_ascii(self@).skip(2));
        string_from_ascii(out.as_slice())
    }
}

/// `objects/`, the directory that holds stored objects.
pub open spec fn objects_dir() -> Seq<u8> {
    seq![111u8, 98u8, 106u8, 101u8, 99u8, 116u8, 115u8, 47u8]
}

fn objects_dir_bytes() -> (r: Vec<u8>)
    ensures
        r@ == objects_dir(),
{
    let v = vec![111u8, 98u8, 106u8, 101u8, 99u8, 116u8, 115u8, 47u8];
    assert(v@ =~= objects_dir());
    v
}

/// One entry of a tree: permission mode, name and the id it points to.
pub struct TreeEntry {
    pub perm: Vec<u8>,
    pub filename: Vec<u8>,
    pub hash: Hash,
}

pub type TreeEntryView = (Seq<u8>, Seq<u8>, Seq<u8>);

impl View for TreeEntry {
    type V = TreeEntryView;

    open spec fn view(&self) -> TreeEntryView {
        (self.perm@, self.filename@, self.hash@)
    }
}

/// The kind of object that a tree entry's mode points to.
pub open spec fn perm_kind(perm: Seq<u8>) -> Option<ObjectKind> {
    if perm == seq![49u8, 48u8, 48u8, 54u8, 52u8, 52u8] {
        Some(ObjectKind::Blob)
    } else if perm == seq![48u8, 52u8, 48u8, 48u8, 48u8, 48u8] || perm == seq![
        52u8,
        48u8,
        48u8,
        48u8,
        48u8,
    ] {
        Some(ObjectKind::Tree)
    } else {
        None
    }
}

impl TreeEntry {
    /// The keyword of the kind that the entry's mode points to: `blob` for
    /// mode `100644`, `tree` for `040000` (or `40000`), none for another mode.
    pub fn perm_to_string(&self) -> (r: Option<String>)
        ensures
            match perm_kind(self.perm@) {
                Some(k) => r is Some && r->Some_0@ == ascii_chars(kind_word(k)),
                None => r is None,
            },
    {
        let p = self.perm.as_slice();
        let kind = if p.len() == 6 && p[0] == 49 && p[1] == 48 && p[2] == 48 && p[3] == 54 && p[4]
            == 52 && p[5] == 52 {
            assert(p@ =~= seq![49u8, 48u8, 48u8, 54u8, 52u8, 52u8]);
            ObjectKind::Blob
        } else if p.len() == 6 && p[0] == 48 && p[1] == 52 && p[2] == 48 && p[3] == 48 && p[4]
            == 48 && p[5] == 48 {
            assert(p@ =~= seq![48u8, 52u8, 48u8, 48u8, 48u8, 48u8]);
            ObjectKind::Tree
        } else if p.len() == 5 && p[0] == 52 && p[1] == 48 && p[2] == 48 && p[3] == 48 && p[4]
            == 48 {
            assert(p@ =~= seq![52u8, 48u8, 48u8, 48u8, 48u8]);
            ObjectKind::Tree
        } else {
            return None;
        };
        let mut w: Vec<u8> = Vec::new();
        push_kind_word(&mut w, kind);
        assert(w@ =~= kind_word(kind));
        Some(string_from_ascii(w.as_slice()))
    }
}

/// A stored object.
pub enum Object {
    Blob { content: Vec<u8> },
    Tree { entries: Vec<TreeEntry> },
    Commit {
        tree: Hash,
        parents: Vec<Hash>,
        author: Vec<u8>,
        committer: Vec<u8>,
        message: Vec<u8>,
    },
}

/// The mathematical value of an object.
pub enum ObjectModel {
    Blob(Seq<u8>),
    Tree(Seq<TreeEntryView>),
    Commit(Seq<u8>, Seq<Seq<u8>>, Seq<u8>, Seq<u8>, Seq<u8>),
}

pub open spec fn entry_views(v: Seq<TreeEntry>) -> Seq<TreeEntryView> {
    v.map_values(|e: TreeEntry| e@)
}

pub open spec fn hash_views(v: Seq<Hash>) -> Seq<Seq<u8>> {
    v.map_values(|h: Hash| h@)
}

impl View for Object {
    type V = ObjectModel;

    open spec fn view(&self) -> ObjectModel {
        match self {
            Object::Blob { content } => ObjectModel::Blob(content@),
            Object::Tree { entries } => ObjectModel::Tree(entry_views(entries@)),
            Object::Commit { tree, parents, author, committer, message } => ObjectModel::Commit(
                tree@,
                hash_views(parents@),
                author@,
                committer@,
                message@,
            ),
        }
    }
}

pub open spec fn model_kind(o: ObjectModel) -> ObjectKind {
    match o {
        ObjectModel::Blob(_) => ObjectKind::Blob,
        ObjectModel::Tree(_) => ObjectKind::Tree,
        ObjectModel::Commit(..) => ObjectKind::Commit,
    }
}

/// `"<mode> <name>\0"` followed by the 20 raw id bytes.
pub open spec fn entry_bytes(e: TreeEntryView) -> Seq<u8> {
    e.0 + seq![32u8] + e.1 + seq![0u8] + e.2
}

/// The entries' encodings, in order.
pub open spec fn tree_body(es: Seq<TreeEntryView>) -> Seq<u8>
    decreases es.len(),
{
    if es.len() == 0 {
        Seq::empty()
    } else {
        entry_bytes(es[0]) + tree_body(es.drop_first())
    }
}

pub open spec fn word_tree() -> Seq<u8> {
    seq![116u8, 114u8, 101u8, 101u8, 32u8]
}

pub open spec fn word_parent() -> Seq<u8> {
    seq![112u8, 97u8, 114u8, 101u8, 110u8, 116u8, 32u8]
}

pub open spec fn word_author() -> Seq<u8> {
    seq![97u8, 117u8, 116u8, 104u8, 111u8, 114u8, 32u8]
}

pub open spec fn word_committer() -> Seq<u8> {
    seq![99u8, 111u8, 109u8, 109u8, 105u8, 116u8, 116u8, 101u8, 114u8, 32u8]
}

/// `parent <hex>\n` for each parent, in order.
pub open spec fn parent_lines(ps: Seq<Seq<u8>>) -> Seq<u8>
    decreases ps.len(),
{
    if ps.len() == 0 {
        Seq::empty()
    } else {
        parent_lines(ps.drop_last()) + word_parent() + hex_ascii(ps.last()) + seq![10u8]
    }
}

/// The body of an object: a blob's bytes, a tree's entries, or a commit's
/// `tree`, `parent`, `author` and `committer` lines, a blank line and the
/// message.
pub open spec fn body_of(o: ObjectModel) -> Seq<u8> {
    match o {
        ObjectModel::Blob(c) => c,
        ObjectModel::Tree(es) => tree_body(es),
        ObjectModel::Commit(t, ps, a, c, m) => word_tree() + hex_ascii(t) + seq![10u8]
            + parent_lines(ps) + word_author() + a + seq![10u8] + word_committer() + c + seq![
            10u8,
            10u8,
        ] + m,
    }
}

/// The canonical encoding of an object.
pub open spec fn encode_spec(o: ObjectModel) -> Seq<u8> {
    canonical(model_kind(o), body_of(o))
}

/// The part of `s` before the first `b`, and the part after it.
pub open spec fn split_at_byte(s: Seq<u8>, b: u8) -> Option<(Seq<u8>, Seq<u8>)>
    decreases s.len(),
{
    if s.len() == 0 {
        None
    } else if s[0] == b {
        Some((Seq::empty(), s.drop_first()))
    } else {
        match split_at_byte(s.drop_first(), b) {
            Some((p, r)) => Some((seq![s[0]] + p, r)),
            None => None,
        }
    }
}

/// The entries of a tree body, or `None` when it is malformed.
pub open spec fn parse_tree(b: Seq<u8>) -> Option<Seq<TreeEntryView>>
    decreases b.len(),
{
    if b.len() == 0 {
        Some(Seq::empty())
    } else {
        match split_at_byte(b, 32) {
            None => None,
            Some((mode, r1)) => match split_at_byte(r1, 0) {
                None => None,
                Some((name, r2)) => if r2.len() < 20 || r2.len() >= b.len() {
                    None
                } else {
                    match parse_tree(r2.skip(20)) {
                        Some(rest) => Some(seq![(mode, name, r2.take(20))] + rest),
                        None => None,
                    }
                },
            },
        }
    }
}

/// The bytes that the lowercase hex digits `h` spell.
pub open spec fn hex_bytes_of(h: Seq<u8>) -> Seq<u8> {
    choose|b: Seq<u8>| hex_ascii(b) == h
}

/// A line `word`, 40 lowercase hex digits, newline at the front of `s`:
/// the id those digits spell and what follows the line.
pub open spec fn hex_line(s: Seq<u8>, word: Seq<u8>) -> Option<(Seq<u8>, Seq<u8>)> {
    let n = word.len() as int;
    if s.len() >= n + 41 && s.take(n) == word && is_lower_hex(s.subrange(n, n + 40)) && s[n + 40]
        == 10 {
        Some((hex_bytes_of(s.subrange(n, n + 40)), s.skip(n + 41)))
    } else {
        None
    }
}

/// The `parent` lines at the front of `s`, and what follows them.
pub open spec fn parse_parents(s: Seq<u8>) -> (Seq<Seq<u8>>, Seq<u8>)
    decreases s.len(),
{
    match hex_line(s, word_parent()) {
        Some((p, r)) => if r.len() < s.len() {
            let (ps, rest) = parse_parents(r);
            (seq![p] + ps, rest)
        } else {
            (Seq::empty(), s)
        },
        None => (Seq::empty(), s),
    }
}

/// What follows a commit's `parent` lines: an `author` line, a `committer`
/// line, a blank line and the message.
pub open spec fn commit_tail(r: Seq<u8>) -> Option<(Seq<u8>, Seq<u8>, Seq<u8>)> {
    if r.len() >= 7 && r.take(7) == word_author() {
        match split_at_byte(r.skip(7), 10) {
            None => None,
            Some((a, r3)) => if r3.len() >= 10 && r3.take(10) == word_committer() {
                match split_at_byte(r3.skip(10), 10) {
                    None => None,
                    Some((c, r4)) => if r4.len() >= 1 && r4[0] == 10 {
                        Some((a, c, r4.skip(1)))
                    } else {
                        None
                    },
                }
            } else {
                None
            },
        }
    } else {
        None
    }
}

/// The fields of a commit body: a `tree` line, `parent` lines, then the
/// author, committer and message.
pub open spec fn parse_commit(b: Seq<u8>) -> Option<ObjectModel> {
    match hex_line(b, word_tree()) {
        None => None,
        Some((t, r1)) => match commit_tail(parse_parents(r1).1) {
            Some((a, c, m)) => Some(ObjectModel::Commit(t, parse_parents(r1).0, a, c, m)),
            None => None,
        },
    }
}

/// What decoding an encoded object gives.
pub open spec fn decode_spec(s: Seq<u8>) -> Result<ObjectModel, GitError> {
    match split_at_byte(s, 32) {
        None => Err(GitError::MalformedObject),
        Some((kw, r1)) => match split_at_byte(r1, 0) {
            None => Err(GitError::MalformedObject),
            Some((len, body)) => if len != decimal(body.len()) {
                Err(GitError::MalformedObject)
            } else if kw == kind_word(ObjectKind::Blob) {
                Ok(ObjectModel::Blob(body))
            } else if kw == kind_word(ObjectKind::Tree) {
                match parse_tree(body) {
                    Some(es) => Ok(ObjectModel::Tree(es)),
                    None => Err(GitError::MalformedObject),
                }
            } else if kw == kind_word(ObjectKind::Commit) {
                match parse_commit(body) {
                    Some(c) => Ok(c),
                    None => Err(GitError::MalformedObject),
                }
            } else {
                Err(GitError::UnsupportedKind)
            },
        },
    }
}

pub proof fn lemma_split(p: Seq<u8>, rest: Seq<u8>, b: u8)
    requires
        forall|i: int| 0 <= i < p.len() ==> p[i] != b,
    ensures
        split_at_byte(p + seq![b] + rest, b) == Some((p, rest)),
    decreases p.len(),
{
    let s = p + seq![b] + rest;
    if p.len() == 0 {
        assert(s.drop_first() =~= rest);
    } else {
        assert(s.drop_first() =~= p.drop_first() + seq![b] + rest);
        lemma_split(p.drop_first(), rest, b);
        assert(seq![p[0]] + p.drop_first() =~= p);
    }
}

pub proof fn lemma_split_none(p: Seq<u8>, b: u8)
    requires
        forall|i: int| 0 <= i < p.len() ==> p[i] != b,
    ensures
        split_at_byte(p, b) is None,
    decreases p.len(),
{
    if p.len() > 0 {
        lemma_split_none(p.drop_first(), b);
    }
}

/// Takes the bytes before the next `b`, and the `b` itself.
fn take_until<'a>(rd: &mut Reader<'a>, b: u8) -> (r: Option<&'a [u8]>)
    ensures
        match split_at_byte(old(rd)@, b) {
            Some((p, rest)) => r is Some && r->Some_0@ == p && final(rd)@ == rest,
            None => r is None,
        },
{
    let ghost s = rd@;
    let p = rd.pop_while(|c: u8| -> (t: bool)
        ensures
            t == (c != b),
        { c != b });
    let ghost after = rd@;
    assert forall|i: int| 0 <= i < p@.len() implies p@[i] != b by {}
    if rd.is_empty() {
        proof {
            assert(p@ =~= s);
            lemma_split_none(s, b);
        }
        return None;
    }
    let _ = rd.pop();
    proof {
        assert(after[0] == b);
        assert(s =~= p@ + seq![b] + after.drop_first());
        lemma_split(p@, after.drop_first(), b);
    }
    Some(p)
}

pub proof fn lemma_split_some(s: Seq<u8>, b: u8)
    ensures
        split_at_byte(s, b) matches Some((p, r)) ==> s == p + seq![b] + r,
    decreases s.len(),
{
    if s.len() > 0 && s[0] != b {
        lemma_split_some(s.drop_first(), b);
        if let Some((p, r)) = split_at_byte(s.drop_first(), b) {
            assert(s =~= seq![s[0]] + s.drop_first());
            assert(s =~= seq![s[0]] + p + seq![b] + r);
        }
    } else if s.len() > 0 {
        assert(s =~= Seq::<u8>::empty() + seq![b] + s.drop_first());
    }
}

pub proof fn lemma_tree_body_push(es: Seq<TreeEntryView>, e: TreeEntryView)
    ensures
        tree_body(es.push(e)) == tree_body(es) + entry_bytes(e),
    decreases es.len(),
{
    if es.len() == 0 {
        assert(es.push(e).drop_first() =~= Seq::<TreeEntryView>::empty());
        assert(es.push(e)[0] == e);
        assert(tree_body(Seq::<TreeEntryView>::empty()) == Seq::<u8>::empty());
        assert(tree_body(es) == Seq::<u8>::empty());
        assert(tree_body(es.push(e)) =~= entry_bytes(e) + Seq::<u8>::empty());
    } else {
        assert(es.push(e).drop_first() =~= es.drop_first().push(e));
        lemma_tree_body_push(es.drop_first(), e);
        assert(tree_body(es.push(e)) =~= tree_body(es) + entry_bytes(e));
    }
}

fn tree_body_bytes(entries: &Vec<TreeEntry>) -> (r: Vec<u8>)
    ensures
        r@ == tree_body(entry_views(entries@)),
{
    let mut out: Vec<u8> = Vec::new();
    let mut i: usize = 0;
    while i < entries.len()
        invariant
            i <= entries@.len(),
            out@ == tree_body(entry_views(entries@).take(i as int)),
        decreases entries@.len() - i,
    {
        let e = &entries[i];
        let ghost before = out@;
        append_bytes(&mut out, e.perm.as_slice());
        out.push(32u8);
        append_bytes(&mut out, e.filename.as_slice());
        out.push(0u8);
        append_bytes(&mut out, e.hash.as_bytes());
        proof {
            assert(out@ =~= before + entry_bytes(e@));
            assert(entry_views(entries@).take(i + 1) =~= entry_views(entries@).take(i as int).push(e@));
            lemma_tree_body_push(entry_views(entries@).take(i as int), e@);
        }
        i += 1;
    }
    assert(entry_views(entries@).take(i as int) =~= entry_views(entries@));
    out
}

fn commit_body_bytes(
    tree: &Hash,
    parents: &Vec<Hash>,
    author: &Vec<u8>,
    committer: &Vec<u8>,
    message: &Vec<u8>,
) -> (r: Vec<u8>)
    ensures
        r@ == body_of(
            ObjectModel::Commit(tree@, hash_views(parents@), author@, committer@, message@),
        ),
{
    let w_tree = vec![116u8, 114u8, 101u8, 101u8, 32u8];
    let w_parent = vec![112u8, 97u8, 114u8, 101u8, 110u8, 116u8, 32u8];
    let w_author = vec![97u8, 117u8, 116u8, 104u8, 111u8, 114u8, 32u8];
    let w_committer = vec![99u8, 111u8, 109u8, 109u8, 105u8, 116u8, 116u8, 101u8, 114u8, 32u8];
    assert(w_tree@ =~= word_tree());
    assert(w_parent@ =~= word_parent());
    assert(w_author@ =~= word_author());
    assert(w_committer@ =~= word_committer());
    let mut out: Vec<u8> = Vec::new();
    append_bytes(&mut out, w_tree.as_slice());
    append_bytes(&mut out, tree.hex_bytes().as_slice());
    out.push(10u8);
    let ghost head = out@;
    let mut i: usize = 0;
    while i < parents.len()
        invariant
            i <= parents@.len(),
            out@ == head + parent_lines(hash_views(parents@).take(i as int)),
            w_parent@ == word_parent(),
        decreases parents@.len() - i,
    {
        let ghost before = out@;
        append_bytes(&mut out, w_parent.as_slice());
        append_bytes(&mut out, parents[i].hex_bytes().as_slice());
        out.push(10u8);
        proof {
            let ps = hash_views(parents@).take(i + 1);
            assert(ps.drop_last() =~= hash_views(parents@).take(i as int));
            assert(ps.last() == parents@[i as int]@);
            assert(out@ =~= head + parent_lines(ps));
        }
        i += 1;
    }
    assert(hash_views(parents@).take(i as int) =~= hash_views(parents@));
    append_bytes(&mut out, w_author.as_slice());
    append_bytes(&mut out, author.as_slice());
    out.push(10u8);
    append_bytes(&mut out, w_committer.as_slice());
    append_bytes(&mut out, committer.as_slice());
    out.push(10u8);
    out.push(10u8);
    append_bytes(&mut out, message.as_slice());
    assert(out@ =~= body_of(
        ObjectModel::Commit(tree@, hash_views(parents@), author@, committer@, message@),
    ));
    out
}

/// The canonical encoding of `o`: `"<kind> <len>\0<body>"`.
pub fn encode(o: &Object) -> (r: Vec<u8>)
    ensures
        r@ == encode_spec(o@),
{
    match o {
        Object::Blob { content } => encode_with_header(ObjectKind::Blob, content.as_slice()),
        Object::Tree { entries } => {
            let body = tree_body_bytes(entries);
            encode_with_header(ObjectKind::Tree, body.as_slice())
        },
        Object::Commit { tree, parents, author, committer, message } => {
            let body = commit_body_bytes(tree, parents, author, committer, message);
            encode_with_header(ObjectKind::Commit, body.as_slice())
        },
    }
}

fn word_is(kw: &[u8], k: ObjectKind) -> (r: bool)
    ensures
        r == (kw@ == kind_word(k)),
{
    let mut w: Vec<u8> = Vec::new();
    push_kind_word(&mut w, k);
    assert(w@ =~= kind_word(k));
    bytes_eq(kw, w.as_slice())
}

/// The entries of a tree body.
#[verifier::spinoff_prover]
fn decode_tree(body: &[u8]) -> (r: Option<Vec<TreeEntry>>)
    ensures
        match parse_tree(body@) {
            Some(es) => r is Some && entry_views(r->Some_0@) == es,
            None => r is None,
        },
{
    let mut rd = Reader::new(body);
    let mut entries: Vec<TreeEntry> = Vec::new();
    proof {
        assert(entry_views(entries@) + parse_tree(body@).unwrap_or(Seq::empty()) =~= parse_tree(body@).unwrap_or(Seq::empty()));
    }
    while !rd.is_empty()
        invariant
            match parse_tree(rd@) {
                Some(rest) => parse_tree(body@) == Some(entry_views(entries@) + rest),
                None => parse_tree(body@) is None,
            },
        decreases rd@.len(),
    {
        let ghost s = rd@;
        proof {
            lemma_split_some(s, 32);
        }
        let perm = match take_until(&mut rd, 32) {
            Some(p) => p,
            None => return None,
        };
        let ghost r1 = rd@;
        proof {
            lemma_split_some(r1, 0);
        }
        let filename = match take_until(&mut rd, 0) {
            Some(n) => n,
            None => return None,
        };
        let ghost r2 = rd@;
        let id = match rd.popn(20) {
            Ok(b) => b,
            Err(_) => return None,
        };
        let hash = match Hash::from_bytes(id) {
            Some(h) => h,
            None => return None,
        };
        let e = TreeEntry {
            perm: vstd::slice::slice_to_vec(perm),
            filename: vstd::slice::slice_to_vec(filename),
            hash,
        };
        proof {
            assert(r2.skip(20) == rd@);
            assert(e@ == (perm@, filename@, r2.take(20)));
            if let Some(rest) = parse_tree(rd@) {
                assert(entry_views(entries@.push(e)) =~= entry_views(entries@).push(e@));
                assert(entry_views(entries@) + (seq![e@] + rest) =~= entry_views(entries@).push(e@) + rest);
            }
        }
        entries.push(e);
    }
    proof {
        assert(entry_views(entries@) + Seq::<TreeEntryView>::empty() =~= entry_views(entries@));
    }
    Some(entries)
}

/// Whether the next bytes of `rd` are `word`; they are taken if so.
fn take_word(rd: &mut Reader, word: &[u8]) -> (r: bool)
    ensures
        r == (old(rd)@.len() >= word@.len() && old(rd)@.take(word@.len() as int) == word@),
        r ==> final(rd)@ == old(rd)@.skip(word@.len() as int),
        !r ==> final(rd)@ == old(rd)@,
{
    let mut probe = *rd;
    let got = match probe.popn(word.len()) {
        Ok(b) => b,
        Err(_) => return false,
    };
    if bytes_eq(got, word) {
        *rd = probe;
        true
    } else {
        false
    }
}

/// Reads a line `word`, 40 hex digits, newline; nothing is taken if the
/// next bytes are not such a line.
fn take_hex_line(rd: &mut Reader, word: &[u8]) -> (r: Option<Hash>)
    ensures
        match hex_line(old(rd)@, word@) {
            Some((id, rest)) => r is Some && r->Some_0@ == id && final(rd)@ == rest,
            None => r is None && final(rd)@ == old(rd)@,
        },
{
    let ghost s = rd@;
    let n = word.len();
    if rd.len() < n || rd.len() - n < 41 {
        return None;
    }
    let mut probe = *rd;
    let w = match probe.popn(n) {
        Ok(b) => b,
        Err(_) => return None,
    };
    let hex = match probe.popn(40) {
        Ok(b) => b,
        Err(_) => return None,
    };
    let nl = match probe.pop() {
        Ok(b) => b,
        Err(_) => return None,
    };
    assert(hex@ =~= s.subrange(n as int, n + 40));
    assert(probe@ =~= s.skip(n + 41));
    if !bytes_eq(w, word) || nl != 10 {
        return None;
    }
    let bytes = match hex_to_bytes(hex) {
        Some(b) => b,
        None => return None,
    };
    proof {
        let c = hex_bytes_of(hex@);
        assert(hex_ascii(c) == hex@);
        crate::hex::lemma_hex_round_trip(bytes@, c);
        lemma_hex_len(bytes@);
    }
    *rd = probe;
    Some(Hash { bytes })
}

/// The fields of a commit body.
#[verifier::spinoff_prover]
fn decode_commit(body: &[u8]) -> (r: Option<Object>)
    ensures
        match parse_commit(body@) {
            Some(m) => r is Some && r->Some_0@ == m,
            None => r is None,
        },
{
    let w_tree = vec![116u8, 114u8, 101u8, 101u8, 32u8];
    let w_parent = vec![112u8, 97u8, 114u8, 101u8, 110u8, 116u8, 32u8];
    let w_author = vec![97u8, 117u8, 116u8, 104u8, 111u8, 114u8, 32u8];
    let w_committer = vec![99u8, 111u8, 109u8, 109u8, 105u8, 116u8, 116u8, 101u8, 114u8, 32u8];
    assert(w_tree@ =~= word_tree());
    assert(w_parent@ =~= word_parent());
    assert(w_author@ =~= word_author());
    assert(w_committer@ =~= word_committer());
    let mut rd = Reader::new(body);
    let tree = match take_hex_line(&mut rd, w_tree.as_slice()) {
        Some(h) => h,
        None => return None,
    };
    let ghost r1 = rd@;
    let mut parents: Vec<Hash> = Vec::new();
    loop
        invariant
            w_parent@ == word_parent(),
            parse_parents(r1) == (hash_views(parents@) + parse_parents(rd@).0, parse_parents(rd@).1),
        ensures
            parse_parents(r1) == (hash_views(parents@), rd@),
        decreases rd@.len(),
    {
        let ghost before = rd@;
        match take_hex_line(&mut rd, w_parent.as_slice()) {
            Some(p) => {
                proof {
                    assert(rd@.len() < before.len());
                    assert(hash_views(parents@.push(p)) =~= hash_views(parents@).push(p@));
                    assert(hash_views(parents@) + parse_parents(before).0 =~= hash_views(parents@).push(p@) + parse_parents(rd@).0);
                }
                parents.push(p);
            },
            None => {
                proof {
                    assert(parse_parents(rd@) == (Seq::<Seq<u8>>::empty(), rd@));
                    assert(hash_views(parents@) + Seq::<Seq<u8>>::empty() =~= hash_views(parents@));
                }
                break;
            },
        }
    }
    if !take_word(&mut rd, w_author.as_slice()) {
        return None;
    }
    let author = match take_until(&mut rd, 10) {
        Some(a) => a,
        None => return None,
    };
    if !take_word(&mut rd, w_committer.as_slice()) {
        return None;
    }
    let committer = match take_until(&mut rd, 10) {
        Some(c) => c,
        None => return None,
    };
    match rd.pop() {
        Ok(b) => {
            if b != 10 {
                return None;
            }
        },
        Err(_) => return None,
    }
    let message = rd.pop_all();
    Some(
        Object::Commit {
            tree,
            parents,
            author: vstd::slice::slice_to_vec(author),
            committer: vstd::slice::slice_to_vec(committer),
            message: vstd::slice::slice_to_vec(message),
        },
    )
}

/// Decodes a canonical encoding: the kind keyword, the decimal body length
/// (which must match the body), then a blob's bytes, a tree's entries or a
/// commit's fields.
#[verifier::spinoff_prover]
pub fn decode(bytes: &[u8]) -> (r: Result<Object, GitError>)
    ensures
        match decode_spec(bytes@) {
            Ok(m) => r is Ok && r->Ok_0@ == m,
            Err(e) => r is Err && r->Err_0 == e,
        },
{
    let mut rd = Reader::new(bytes);
    let kw = match take_until(&mut rd, 32) {
        Some(k) => k,
        None => return Err(GitError::MalformedObject),
    };
    let len = match take_until(&mut rd, 0) {
        Some(l) => l,
        None => return Err(GitError::MalformedObject),
    };
    let body = rd.pop_all();
    let mut expected: Vec<u8> = Vec::new();
    push_decimal(&mut expected, body.len() as u64);
    assert(expected@ =~= decimal(body@.len()));
    if !bytes_eq(len, expected.as_slice()) {
        return Err(GitError::MalformedObject);
    }
    if word_is(kw, ObjectKind::Blob) {
        Ok(Object::Blob { content: vstd::slice::slice_to_vec(body) })
    } else if word_is(kw, ObjectKind::Tree) {
        match decode_tree(body) {
            Some(entries) => Ok(Object::Tree { entries }),
            None => Err(GitError::MalformedObject),
        }
    } else if word_is(kw, ObjectKind::Commit) {
        match decode_commit(body) {
            Some(c) => Ok(c),
            None => Err(GitError::MalformedObject),
        }
    } else {
        Err(GitError::UnsupportedKind)
    }
}

/// A tree entry that encodes unambiguously: no space in its mode, no NUL in
/// its name, and a 20-byte id.
pub open spec fn entry_wf(e: TreeEntryView) -> bool {
    &&& forall|i: int| 0 <= i < e.0.len() ==> e.0[i] != 32
    &&& forall|i: int| 0 <= i < e.1.len() ==> e.1[i] != 0
    &&& e.2.len() == 20
}

#[verifier::spinoff_prover]
pub proof fn lemma_parse_tree_body(es: Seq<TreeEntryView>)
    requires
        forall|i: int| 0 <= i < es.len() ==> entry_wf(#[trigger] es[i]),
    ensures
        parse_tree(tree_body(es)) == Some(es),
    decreases es.len(),
{
    if es.len() > 0 {
        let e = es[0];
        assert(entry_wf(e));
        let rest = tree_body(es.drop_first());
        let b = tree_body(es);
        assert(b =~= e.0 + seq![32u8] + (e.1 + seq![0u8] + e.2 + rest));
        lemma_split(e.0, e.1 + seq![0u8] + e.2 + rest, 32);
        lemma_split(e.1, e.2 + rest, 0);
        assert(e.1 + seq![0u8] + e.2 + rest =~= e.1 + seq![0u8] + (e.2 + rest));
        let r2 = e.2 + rest;
        assert(r2.take(20) =~= e.2);
        assert(r2.skip(20) =~= rest);
        lemma_parse_tree_body(es.drop_first());
        assert(seq![(e.0, e.1, e.2)] + es.drop_first() =~= es);
        assert(split_at_byte(b, 32) == Some((e.0, e.1 + seq![0u8] + e.2 + rest)));
        assert(split_at_byte(e.1 + seq![0u8] + e.2 + rest, 0) == Some((e.1, e.2 + rest)));
        assert(r2.len() < b.len());
        assert(parse_tree(rest) == Some(es.drop_first()));
        assert(parse_tree(b) == Some(seq![(e.0, e.1, r2.take(20))] + es.drop_first()));
    } else {
        assert(tree_body(es) =~= Seq::<u8>::empty());
    }
}

pub proof fn lemma_decimal_digits(n: nat)
    ensures
        forall|i: int| 0 <= i < decimal(n).len() ==> 48 <= #[trigger] decimal(n)[i] <= 57,
    decreases n,
{
    if n >= 10 {
        lemma_decimal_digits(n / 10);
        let p = decimal(n / 10);
        assert forall|i: int| 0 <= i < decimal(n).len() implies 48 <= #[trigger] decimal(n)[i] <= 57 by {
            if i < p.len() {
                assert(decimal(n)[i] == p[i]);
            }
        }
    }
}

/// A commit that encodes unambiguously: 20-byte ids and no newline in the
/// author or committer line.
pub open spec fn commit_wf(t: Seq<u8>, ps: Seq<Seq<u8>>, a: Seq<u8>, c: Seq<u8>) -> bool {
    &&& t.len() == 20
    &&& forall|i: int| 0 <= i < ps.len() ==> (#[trigger] ps[i]).len() == 20
    &&& forall|i: int| 0 <= i < a.len() ==> a[i] != 10
    &&& forall|i: int| 0 <= i < c.len() ==> c[i] != 10
}

/// An object whose canonical encoding decodes unambiguously.
pub open spec fn model_wf(o: ObjectModel) -> bool {
    match o {
        ObjectModel::Blob(_) => true,
        ObjectModel::Tree(es) => forall|i: int| 0 <= i < es.len() ==> entry_wf(#[trigger] es[i]),
        ObjectModel::Commit(t, ps, a, c, _) => commit_wf(t, ps, a, c),
    }
}

#[verifier::spinoff_prover]
pub proof fn lemma_hex_line(word: Seq<u8>, id: Seq<u8>, rest: Seq<u8>)
    ensures
        hex_line(word + hex_ascii(id) + seq![10u8] + rest, word) == if id.len() == 20 {
            Some((id, rest))
        } else {
            hex_line(word + hex_ascii(id) + seq![10u8] + rest, word)
        },
{
    if id.len() == 20 {
        let s = word + hex_ascii(id) + seq![10u8] + rest;
        let n = word.len() as int;
        lemma_hex_len(id);
        crate::hex::lemma_hex_round_trip(id, id);
        assert(s.take(n) =~= word);
        assert(s.subrange(n, n + 40) =~= hex_ascii(id));
        assert(s[n + 40] == 10);
        assert(s.skip(n + 41) =~= rest);
        let c = hex_bytes_of(hex_ascii(id));
        assert(hex_ascii(c) == hex_ascii(id));
        crate::hex::lemma_hex_round_trip(id, c);
    }
}

pub proof fn lemma_parent_lines_front(ps: Seq<Seq<u8>>)
    requires
        ps.len() > 0,
    ensures
        parent_lines(ps) == word_parent() + hex_ascii(ps[0]) + seq![10u8] + parent_lines(
            ps.drop_first(),
        ),
    decreases ps.len(),
{
    if ps.len() > 1 {
        lemma_parent_lines_front(ps.drop_last());
        assert(ps.drop_last().drop_first() =~= ps.drop_first().drop_last());
        assert(ps.drop_last()[0] == ps[0]);
        assert(ps.drop_first().last() == ps.last());
    } else {
        assert(ps.drop_first() =~= Seq::<Seq<u8>>::empty());
        assert(ps.drop_last() =~= Seq::<Seq<u8>>::empty());
    }
}

pub proof fn lemma_no_parent_line(rest: Seq<u8>)
    requires
        rest.len() > 0,
        rest[0] != 112,
    ensures
        hex_line(rest, word_parent()) is None,
{
    if rest.len() >= 48 {
        assert(rest.take(7)[0] != word_parent()[0]);
    }
}

#[verifier::spinoff_prover]
pub proof fn lemma_parse_parents(ps: Seq<Seq<u8>>, rest: Seq<u8>)
    requires
        forall|i: int| 0 <= i < ps.len() ==> (#[trigger] ps[i]).len() == 20,
        rest.len() > 0,
        rest[0] != 112,
    ensures
        parse_parents(parent_lines(ps) + rest) == (ps, rest),
    decreases ps.len(),
{
    if ps.len() == 0 {
        assert(parent_lines(ps) + rest =~= rest);
        lemma_no_parent_line(rest);
    } else {
        lemma_parent_lines_front(ps);
        let tail = parent_lines(ps.drop_first()) + rest;
        let s = parent_lines(ps) + rest;
        assert(s =~= word_parent() + hex_ascii(ps[0]) + seq![10u8] + tail);
        lemma_hex_line(word_parent(), ps[0], tail);
        assert(hex_line(s, word_parent()) == Some((ps[0], tail)));
        lemma_parse_parents(ps.drop_first(), rest);
        assert(seq![ps[0]] + ps.drop_first() =~= ps);
    }
}

#[verifier::spinoff_prover]
pub proof fn lemma_commit_tail(a: Seq<u8>, c: Seq<u8>, m: Seq<u8>)
    requires
        forall|i: int| 0 <= i < a.len() ==> a[i] != 10,
        forall|i: int| 0 <= i < c.len() ==> c[i] != 10,
    ensures
        commit_tail(word_author() + a + seq![10u8] + (word_committer() + c + seq![10u8, 10u8] + m))
            == Some((a, c, m)),
{
    let x = word_committer() + c + seq![10u8, 10u8] + m;
    let rest = word_author() + a + seq![10u8] + x;
    assert(rest.take(7) =~= word_author());
    assert(rest.skip(7) =~= a + seq![10u8] + x);
    lemma_split(a, x, 10);
    assert(x.take(10) =~= word_committer());
    let tail = seq![10u8] + m;
    assert(x.skip(10) =~= c + seq![10u8] + tail);
    lemma_split(c, tail, 10);
    assert(tail.skip(1) =~= m);
}

#[verifier::spinoff_prover]
pub proof fn lemma_parse_commit(t: Seq<u8>, ps: Seq<Seq<u8>>, a: Seq<u8>, c: Seq<u8>, m: Seq<u8>)
    requires
        commit_wf(t, ps, a, c),
    ensures
        parse_commit(body_of(ObjectModel::Commit(t, ps, a, c, m))) == Some(
            ObjectModel::Commit(t, ps, a, c, m),
        ),
{
    let x = word_committer() + c + seq![10u8, 10u8] + m;
    let rest = word_author() + a + seq![10u8] + x;
    let r1 = parent_lines(ps) + rest;
    let body = body_of(ObjectModel::Commit(t, ps, a, c, m));
    assert(body =~= word_tree() + hex_ascii(t) + seq![10u8] + r1);
    lemma_hex_line(word_tree(), t, r1);
    assert(rest[0] == 97);
    lemma_parse_parents(ps, rest);
    lemma_commit_tail(a, c, m);
}

/// Decoding the canonical encoding of an object that encodes unambiguously
/// gives back the same object.
#[verifier::spinoff_prover]
pub proof fn lemma_codec_round_trip(o: ObjectModel)
    requires
        model_wf(o),
    ensures
        decode_spec(encode_spec(o)) == Ok::<ObjectModel, GitError>(o),
{
    let k = model_kind(o);
    let body = body_of(o);
    let d = decimal(body.len());
    lemma_decimal_digits(body.len());
    assert(encode_spec(o) =~= kind_word(k) + seq![32u8] + (d + seq![0u8] + body));
    assert forall|i: int| 0 <= i < kind_word(k).len() implies kind_word(k)[i] != 32 by {}
    lemma_split(kind_word(k), d + seq![0u8] + body, 32);
    assert forall|i: int| 0 <= i < d.len() implies d[i] != 0 by {}
    lemma_split(d, body, 0);
    assert(split_at_byte(encode_spec(o), 32) == Some((kind_word(k), d + seq![0u8] + body)));
    assert(split_at_byte(d + seq![0u8] + body, 0) == Some((d, body)));
    assert(kind_word(ObjectKind::Tree)[0] != kind_word(ObjectKind::Blob)[0]);
    assert(kind_word(ObjectKind::Commit)[0] != kind_word(ObjectKind::Blob)[0]);
    assert(kind_word(ObjectKind::Commit)[0] != kind_word(ObjectKind::Tree)[0]);
    match o {
        ObjectModel::Tree(es) => {
            lemma_parse_tree_body(es);
        },
        ObjectModel::Blob(c) => {},
        ObjectModel::Commit(t, ps, a, c, m) => {
            lemma_parse_commit(t, ps, a, c, m);
        },
    }
}

} // verus!

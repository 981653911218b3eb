use std::io::Write;

use rgit::delta::apply_delta;
use rgit::error::GitError;
use rgit::hex::{bytes_to_string, debug_byte_str, hex_to_bytes};
use rgit::object::{decode, encode, Object, ObjectKind, TreeEntry};
use rgit::pack::{PackObject, PackReader};
use rgit::protocol::{
    head_from_advertisement, hex_len_prefixed_string, parse_git_upload_pack_response, pkt_line,
    skip_nak, want_request,
};
use rgit::reader::Reader;
use rgit::store::{read_object, write_blob, write_object, write_pack_object};
use rgit::tree::insert_entry;

fn zlib(data: &[u8]) -> Vec<u8> {
    let mut e = flate2::write::ZlibEncoder::new(Vec::new(), flate2::Compression::default());
    e.write_all(data).unwrap();
    e.finish().unwrap()
}

fn id(byte: u8) -> rgit::object::Hash {
    rgit::object::Hash::from_bytes(&[byte; 20]).unwrap()
}

fn entry(perm: &str, name: &str, byte: u8) -> TreeEntry {
    TreeEntry { perm: perm.as_bytes().to_vec(), filename: name.as_bytes().to_vec(), hash: id(byte) }
}

#[test]
fn test_bytes_to_string() {
    assert_eq!("0314a3", bytes_to_string(&[0x03, 0x14, 0xa3]));
}

#[test]
fn test() {
    assert_eq!("000a123456", hex_len_prefixed_string("123456"));
}

#[test]
fn test_pop_bit_masked_int() {
    let v = vec![0b11010111u8, 0b01001011u8];
    let mut reader = Reader::new(&v[..]);
    assert_eq!(
        Ok(0b01001011_00000000_11010111_00000000),
        reader.pop_bit_masked_int(0b1010)
    );
}

#[test]
fn hex_to_bytes_scenario() {
    assert_eq!(Some(vec![0x03, 0x14, 0xa3]), hex_to_bytes(b"0314a3"));
    assert_eq!(None, hex_to_bytes(b"0314a"));
    assert_eq!(None, hex_to_bytes(b"03G4"));
    assert_eq!("03 14 a3", debug_byte_str(&[0x03, 0x14, 0xa3]));
}

#[test]
fn hash_paths_and_hex() {
    let h = rgit::object::Hash::new("ce013625030ba8dba906f756967f9e9ca394464a").unwrap();
    assert_eq!("objects/ce", h.folder_path());
    assert_eq!("objects/ce/013625030ba8dba906f756967f9e9ca394464a", h.file_path());
    assert_eq!("ce013625030ba8dba906f756967f9e9ca394464a", h.to_hex());
    assert!(rgit::object::Hash::new("ce01").is_none());
    assert!(rgit::object::Hash::new("CE013625030BA8DBA906F756967F9E9CA394464A").is_none());
}

#[test]
fn pkt_line_prefix_counts_itself() {
    assert_eq!(b"000a123456".to_vec(), pkt_line(b"123456"));
    assert_eq!("0004", hex_len_prefixed_string(""));
}

#[test]
fn reader_pops_and_exhausts() {
    let v = vec![1u8, 2, 3, b' ', 5];
    let mut r = Reader::new(&v[..]);
    assert_eq!(Ok(1), r.pop());
    assert_eq!(&[2u8, 3][..], r.pop_while(|c| c != b' '));
    assert_eq!(Err(GitError::Exhausted), r.popn(3));
    assert_eq!(Ok(&[b' ', 5u8][..]), r.popn(2));
    assert!(r.is_empty());
    assert_eq!(Err(GitError::Exhausted), r.pop());
    assert_eq!(Err(GitError::Exhausted), r.pop_bit_masked_int(1));
}

#[test]
fn size_varint_is_little_endian() {
    let v = vec![0x91u8, 0x2e, 0xff];
    let mut r = Reader::new(&v[..]);
    assert_eq!(Ok(0x11 + (0x2e << 7)), r.pop_varint());
    assert_eq!(Err(GitError::Exhausted), r.pop_varint());
    let cut = vec![0x80u8; 9];
    assert_eq!(Err(GitError::Exhausted), Reader::new(&cut[..]).pop_varint());
    let mut long = vec![0x80u8; 9];
    long.push(0x01);
    assert_eq!(Err(GitError::VarintOverflow), Reader::new(&long[..]).pop_varint());
}

#[test]
fn offset_varint_adds_one_per_continuation() {
    let v = vec![0x80u8, 0x00];
    let mut p = PackReader::new(&v[..]);
    assert_eq!(Ok(128), p.read_offset_varint());
    let u = vec![0x81u8, 0x00];
    assert_eq!(Ok(256), PackReader::new(&u[..]).read_offset_varint());
    let three = vec![0x81u8, 0x80, 0x05];
    assert_eq!(Ok(((1 + 1) * 128 + 1) * 128 + 5), PackReader::new(&three[..]).read_offset_varint());
    let w = vec![0x05u8];
    assert_eq!(Ok(5), PackReader::new(&w[..]).read_offset_varint());
    let t = vec![0x81u8];
    assert_eq!(Err(GitError::TruncatedPack), PackReader::new(&t[..]).read_offset_varint());
    let cut = vec![0x80u8; 12];
    assert_eq!(Err(GitError::TruncatedPack), PackReader::new(&cut[..]).read_offset_varint());
    let mut long = vec![0x80u8; 12];
    long.push(0x01);
    assert_eq!(Err(GitError::VarintOverflow), PackReader::new(&long[..]).read_offset_varint());
}

#[test]
fn entry_header_reads_type_and_size() {
    let v = vec![0b1011_0101u8, 0x02];
    assert_eq!(Ok((3, 5 + (2 << 4))), PackReader::new(&v[..]).read_varint());
    let cut = vec![0x80u8; 10];
    assert_eq!(Err(GitError::TruncatedPack), PackReader::new(&cut[..]).read_varint());
    let mut long = vec![0x80u8; 10];
    long.push(0x01);
    assert_eq!(Err(GitError::VarintOverflow), PackReader::new(&long[..]).read_varint());
    let mut pack = b"PACK".to_vec();
    pack.extend_from_slice(&2u32.to_be_bytes());
    pack.extend_from_slice(&1u32.to_be_bytes());
    pack.extend_from_slice(&[0x80u8; 10]);
    assert!(matches!(PackReader::new(&pack).read(), Err(GitError::TruncatedPack)));
}

#[test]
fn delta_copy_then_insert() {
    // base length 6, result length 6, copy 3 bytes at offset 0, insert "xyz".
    let delta = vec![6u8, 6, 0b1001_0000, 3, 3, b'x', b'y', b'z'];
    assert_eq!(Ok(b"abcxyz".to_vec()), apply_delta(b"abcdef", &delta));
}

#[test]
fn delta_errors() {
    assert_eq!(Err(GitError::DeltaLengthMismatch), apply_delta(b"abcdef", &[5u8, 3, 0x90, 3]));
    assert_eq!(Err(GitError::DeltaLengthMismatch), apply_delta(b"abcdef", &[6u8, 4, 0x90, 3]));
    assert_eq!(Err(GitError::MalformedDelta), apply_delta(b"abcdef", &[6u8, 1, 0]));
    assert_eq!(Err(GitError::MalformedDelta), apply_delta(b"abcdef", &[6u8, 3, 0x91, 5, 3]));
    assert_eq!(Err(GitError::MalformedDelta), apply_delta(b"abcdef", &[6u8, 3, 3, b'x']));
    assert_eq!(Err(GitError::MalformedDelta), apply_delta(b"abcdef", &[]));
}

#[test]
fn blob_write_is_deterministic_and_reads_back() {
    let a = write_blob(b"hello\n");
    let b = write_blob(b"hello\n");
    assert_eq!(a.id.to_hex(), b.id.to_hex());
    assert_eq!(a.data, b.data);
    assert_eq!("ce013625030ba8dba906f756967f9e9ca394464a", a.id.to_hex());
    match read_object(&a.data) {
        Ok(Object::Blob { content }) => assert_eq!(b"hello\n".to_vec(), content),
        _ => panic!("blob did not read back"),
    }
    let printed = rgit::object::Hash::new(&a.id.to_hex()).unwrap();
    match printed.read(&a.data) {
        Ok(Object::Blob { content }) => assert_eq!(b"hello\n".to_vec(), content),
        _ => panic!("blob did not read back by its id"),
    }
}

#[test]
fn read_rejects_corrupt_files() {
    assert!(matches!(read_object(b"not zlib"), Err(GitError::CorruptObject)));
    let bad = zlib(b"blob 7\0hello\n");
    assert!(matches!(read_object(&bad), Err(GitError::CorruptObject)));
}

#[test]
fn tree_round_trip_and_listing() {
    let tree = Object::Tree { entries: vec![entry("040000", "dir", 1), entry("100644", "file.txt", 2)] };
    let bytes = encode(&tree);
    assert!(bytes.starts_with(b"tree 67\0040000 dir\0"));
    match decode(&bytes) {
        Ok(Object::Tree { entries }) => {
            assert_eq!(2, entries.len());
            assert_eq!(b"dir".to_vec(), entries[0].filename);
            assert_eq!(Some("tree".to_string()), entries[0].perm_to_string());
            assert_eq!(b"file.txt".to_vec(), entries[1].filename);
            assert_eq!(Some("blob".to_string()), entries[1].perm_to_string());
            assert_eq!([2u8; 20].to_vec(), entries[1].hash.as_bytes().to_vec());
        }
        _ => panic!("tree did not decode"),
    }
    let stored = write_object(&tree);
    assert!(matches!(read_object(&stored.data), Ok(Object::Tree { .. })));
    assert_eq!(None, entry("100755", "x", 3).perm_to_string());
}

#[test]
fn decode_errors() {
    assert!(matches!(decode(b"blob 5\0hello\n"), Err(GitError::MalformedObject)));
    assert!(matches!(decode(b"blob 6hello\n"), Err(GitError::MalformedObject)));
    assert!(matches!(decode(b"tag 0\0"), Err(GitError::UnsupportedKind)));
    assert!(matches!(decode(b"tree 5\01 a\0x"), Err(GitError::MalformedObject)));
    match decode(b"blob 0\0") {
        Ok(Object::Blob { content }) => assert!(content.is_empty()),
        _ => panic!("empty blob did not decode"),
    }
}

#[test]
fn commit_encoding() {
    let c = Object::Commit {
        tree: id(0xab),
        parents: vec![id(0x01)],
        author: b"A <a@x> 1 +0000".to_vec(),
        committer: b"C <c@x> 2 +0000".to_vec(),
        message: b"msg\n".to_vec(),
    };
    let body = format!(
        "tree {}\nparent {}\nauthor A <a@x> 1 +0000\ncommitter C <c@x> 2 +0000\n\nmsg\n",
        "ab".repeat(20),
        "01".repeat(20)
    );
    let mut expected = format!("commit {}\0", body.len()).into_bytes();
    expected.extend_from_slice(body.as_bytes());
    assert_eq!(expected, encode(&c));
    match decode(&expected) {
        Ok(Object::Commit { tree, parents, author, committer, message }) => {
            assert_eq!("ab".repeat(20), tree.to_hex());
            assert_eq!(1, parents.len());
            assert_eq!("01".repeat(20), parents[0].to_hex());
            assert_eq!(b"A <a@x> 1 +0000".to_vec(), author);
            assert_eq!(b"C <c@x> 2 +0000".to_vec(), committer);
            assert_eq!(b"msg\n".to_vec(), message);
        }
        _ => panic!("commit did not decode"),
    }
    let no_author = b"commit 46\0tree abababababababababababababababababababab\n";
    assert!(matches!(decode(no_author), Err(GitError::MalformedObject)));
}

fn pack_header(count: u32) -> Vec<u8> {
    let mut p = b"PACK".to_vec();
    p.extend_from_slice(&2u32.to_be_bytes());
    p.extend_from_slice(&count.to_be_bytes());
    p
}

#[test]
fn pack_with_offset_delta() {
    let mut p = pack_header(2);
    p.push(0b0011_0110); // blob, size 6
    p.extend_from_slice(&zlib(b"abcdef"));
    let delta_at = p.len();
    let delta = vec![6u8, 6, 0b1001_0000, 3, 3, b'x', b'y', b'z'];
    p.push(0b0110_0000 | delta.len() as u8); // offset delta
    p.push((delta_at - 12) as u8);
    p.extend_from_slice(&zlib(&delta));
    let objs = PackReader::new(&p).read().unwrap();
    assert_eq!(2, objs.len());
    assert_eq!(ObjectKind::Blob, objs[0].kind);
    assert_eq!(12, objs[0].offset);
    assert_eq!(b"abcdef".to_vec(), objs[0].payload);
    assert_eq!(ObjectKind::Blob, objs[1].kind);
    assert_eq!(delta_at, objs[1].offset);
    assert_eq!(b"abcxyz".to_vec(), objs[1].payload);
    let stored = write_pack_object(&objs[1]);
    assert_eq!(stored.id.as_bytes().to_vec(), objs[1].id);
}

#[test]
fn pack_with_ref_delta() {
    let mut p = pack_header(2);
    p.push(0b0011_0110);
    p.extend_from_slice(&zlib(b"abcdef"));
    let base_id = write_blob(b"abcdef").id;
    let delta = vec![6u8, 6, 0b1001_0000, 3, 3, b'x', b'y', b'z'];
    p.push(0b0111_0000 | delta.len() as u8);
    p.extend_from_slice(base_id.as_bytes());
    p.extend_from_slice(&zlib(&delta));
    let objs = PackReader::new(&p).read().unwrap();
    assert_eq!(b"abcxyz".to_vec(), objs[1].payload);
}

#[test]
fn pack_ref_delta_base_from_store() {
    let base = write_blob(b"abcdef").id;
    let delta = vec![6u8, 6, 0b1001_0000, 3, 3, b'x', b'y', b'z'];
    let mut p = pack_header(1);
    p.push(0b0111_0000 | delta.len() as u8);
    p.extend_from_slice(base.as_bytes());
    p.extend_from_slice(&zlib(&delta));
    assert!(matches!(PackReader::new(&p).read(), Err(GitError::UnknownDeltaBase)));
    let known = vec![PackObject {
        kind: ObjectKind::Blob,
        offset: 0,
        payload: b"abcdef".to_vec(),
        id: base.as_bytes().to_vec(),
    }];
    let objs = PackReader::new(&p).read_with_bases(&known).unwrap();
    assert_eq!(1, objs.len());
    assert_eq!(ObjectKind::Blob, objs[0].kind);
    assert_eq!(b"abcxyz".to_vec(), objs[0].payload);
}

#[test]
fn pack_errors() {
    let mut short = pack_header(2);
    short.push(0b0011_0110);
    short.extend_from_slice(&zlib(b"abcdef"));
    assert!(matches!(PackReader::new(&short).read(), Err(GitError::TruncatedPack)));
    assert!(matches!(PackReader::new(b"PACK").read(), Err(GitError::TruncatedPack)));
    assert!(matches!(PackReader::new(b"JUNK\0\0\0\x02\0\0\0\0").read(), Err(GitError::TruncatedPack)));
    let mut bad_tag = pack_header(1);
    bad_tag.push(0b0101_0000);
    assert!(matches!(PackReader::new(&bad_tag).read(), Err(GitError::UnknownPackObjectType)));
    let mut no_base = pack_header(1);
    no_base.push(0b0110_0001);
    no_base.push(3);
    no_base.extend_from_slice(&zlib(&[0u8]));
    assert!(matches!(PackReader::new(&no_base).read(), Err(GitError::UnknownDeltaBase)));
    let mut wrong_size = pack_header(1);
    wrong_size.push(0b0011_0111);
    wrong_size.extend_from_slice(&zlib(b"abcdef"));
    assert!(matches!(PackReader::new(&wrong_size).read(), Err(GitError::CorruptObject)));
    assert_eq!(0, PackReader::new(&pack_header(0)).read().unwrap().len());
    let mut cut = pack_header(1);
    cut.push(0b0011_0110);
    let z = zlib(b"abcdef");
    cut.extend_from_slice(&z[..z.len() / 2]);
    assert!(matches!(PackReader::new(&cut).read(), Err(GitError::TruncatedPack)));
    let mut bad_zlib = pack_header(1);
    bad_zlib.push(0b0011_0110);
    bad_zlib.extend_from_slice(&[0xff, 0xff, 0xff, 0xff]);
    assert!(matches!(PackReader::new(&bad_zlib).read(), Err(GitError::CorruptObject)));
}

#[test]
fn sideband_demultiplexing() {
    let mut resp = b"0008NAK\n".to_vec();
    resp.extend_from_slice(&pkt_line(b"\x01PA"));
    resp.extend_from_slice(&pkt_line(b"\x02progress"));
    resp.extend_from_slice(&pkt_line(b"\x01CK"));
    resp.extend_from_slice(b"0000");
    assert_eq!(Ok(b"PACK".to_vec()), parse_git_upload_pack_response(skip_nak(&resp)));
    assert_eq!(Err(GitError::UnknownSidebandChannel), parse_git_upload_pack_response(&resp));
    assert_eq!(Err(GitError::UnknownSidebandChannel), parse_git_upload_pack_response(b"0008NAK\n"));
    assert_eq!(&b"0000"[..], skip_nak(b"0008NAK\n0000"));
    assert_eq!(&b"0008NAKX"[..], skip_nak(b"0008NAKX"));
    let err = pkt_line(b"\x03boom");
    assert_eq!(Err(GitError::RemoteError(b"boom".to_vec())), parse_git_upload_pack_response(&err));
    let odd = pkt_line(b"\x07x");
    assert_eq!(Err(GitError::UnknownSidebandChannel), parse_git_upload_pack_response(&odd));
    assert_eq!(Err(GitError::MalformedPktLine), parse_git_upload_pack_response(b"00zz"));
    assert_eq!(Err(GitError::MalformedPktLine), parse_git_upload_pack_response(b"0009ab"));
}

#[test]
fn advertisement_and_want_request() {
    let head = "ce013625030ba8dba906f756967f9e9ca394464a";
    let mut adv = pkt_line(b"# service=git-upload-pack\n");
    adv.extend_from_slice(b"0000");
    adv.extend_from_slice(&pkt_line(format!("{} HEAD\0multi_ack\n", head).as_bytes()));
    adv.extend_from_slice(b"0000");
    let h = head_from_advertisement(&adv).unwrap();
    assert_eq!(head, h.to_hex());
    let req = want_request(&h);
    let line = format!("want {} multi_ack_detailed thin-pack side-band-64k ofs-delta\n", head);
    let expected = format!("{}00000009done\n", hex_len_prefixed_string(&line));
    assert_eq!(expected.into_bytes(), req);
    assert_eq!(Err(GitError::MalformedPktLine), head_from_advertisement(b"0000").map(|h| h.to_hex()));
}

#[test]
fn tree_entries_stay_sorted() {
    let mut v: Vec<TreeEntry> = Vec::new();
    insert_entry(&mut v, entry("100644", "b", 1));
    insert_entry(&mut v, entry("100644", "a", 2));
    insert_entry(&mut v, entry("040000", "c", 3));
    insert_entry(&mut v, entry("100644", "a", 4));
    let names: Vec<Vec<u8>> = v.iter().map(|e| e.filename.clone()).collect();
    assert_eq!(vec![b"a".to_vec(), b"b".to_vec(), b"c".to_vec()], names);
    assert_eq!([4u8; 20].to_vec(), v[0].hash.as_bytes().to_vec());
}

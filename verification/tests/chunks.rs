use iff::{Chunk, Error, TypeID, FORM, LIST};

fn be32(n: usize) -> [u8; 4] {
    [(n >> 24) as u8, (n >> 16) as u8, (n >> 8) as u8, n as u8]
}

fn leaf_bytes(id: &[u8; 4], payload: &[u8]) -> Vec<u8> {
    let mut out = Vec::new();
    out.extend_from_slice(id);
    out.extend_from_slice(&be32(payload.len()));
    out.extend_from_slice(payload);
    if payload.len() % 2 != 0 {
        out.push(0);
    }
    out
}

fn envelope_bytes(envelope_id: &[u8; 4], id: &[u8; 4], children: &[Vec<u8>]) -> Vec<u8> {
    let mut body = Vec::new();
    body.extend_from_slice(id);
    for child in children {
        body.extend_from_slice(child);
    }
    let mut out = Vec::new();
    out.extend_from_slice(envelope_id);
    out.extend_from_slice(&be32(body.len()));
    out.extend_from_slice(&body);
    out
}

fn payload(len: usize, seed: u8) -> Vec<u8> {
    let mut out = Vec::with_capacity(len);
    for i in 0..len {
        out.push((i as u8).wrapping_mul(31).wrapping_add(seed));
    }
    out
}

fn container(id: &[u8; 4], leaves: &[(TypeID, usize)]) -> Vec<u8> {
    let mut children = Vec::new();
    for (n, &(leaf_id, len)) in leaves.iter().enumerate() {
        children.push(leaf_bytes(&leaf_id.0, &payload(len, n as u8)));
    }
    envelope_bytes(b"FORM", id, &children)
}

fn written(chunk: &Chunk) -> Vec<u8> {
    let mut out = Vec::new();
    chunk.write(&mut out);
    out
}

const IFZS: TypeID = TypeID([b'I', b'F', b'Z', b'S']);
const IFHD: TypeID = TypeID([b'I', b'F', b'h', b'd']);
const CMEM: TypeID = TypeID([b'C', b'M', b'e', b'm']);
const STKS: TypeID = TypeID([b'S', b't', b'k', b's']);
const IFRS: TypeID = TypeID([b'I', b'F', b'R', b'S']);
const RIDX: TypeID = TypeID([b'R', b'I', b'd', b'x']);
const GLUL: TypeID = TypeID([b'G', b'L', b'U', b'L']);
const FSPC: TypeID = TypeID([b'F', b's', b'p', b'c']);
const JPEG: TypeID = TypeID([b'J', b'P', b'E', b'G']);
const PNG: TypeID = TypeID([b'P', b'N', b'G', b' ']);
const ZCOD: TypeID = TypeID([b'Z', b'C', b'O', b'D']);
const IFMD: TypeID = TypeID([b'I', b'F', b'm', b'd']);

fn advent_save() -> Vec<u8> {
    container(b"IFZS", &[(IFHD, 128), (CMEM, 1229), (STKS, 380)])
}

fn check_read(data: &[u8], expected_id: TypeID, expected_chunks: &[(TypeID, usize)]) {
    let chunk = Chunk::new(data).unwrap();
    assert!(chunk.has_envelope_type(TypeID(FORM), expected_id));
    let data_chunks = chunk.data_chunks();
    assert_eq!(data_chunks.len(), expected_chunks.len());
    for (&(id, data), &(expected_id, expected_len)) in data_chunks.iter().zip(expected_chunks) {
        assert_eq!(id, expected_id);
        assert_eq!(data.len(), expected_len);
    }
}

#[test]
fn test_read() {
    let advent = [(IFHD, 128), (CMEM, 1229), (STKS, 380)];
    check_read(&container(b"IFZS", &advent), IFZS, &advent);
    let alabaster = [
        (RIDX, 316),
        (GLUL, 1660416),
        (IFMD, 2765),
        (FSPC, 4),
        (JPEG, 24039),
        (PNG, 37632),
        (PNG, 26019),
        (PNG, 19463),
        (PNG, 26615),
        (PNG, 74396),
        (PNG, 9946),
        (PNG, 23815),
        (PNG, 6413),
        (PNG, 13333),
        (PNG, 38434),
        (PNG, 20583),
        (PNG, 103116),
        (PNG, 62015),
        (PNG, 143187),
        (PNG, 261962),
        (PNG, 189566),
        (PNG, 150125),
        (PNG, 3038),
        (PNG, 39861),
        (PNG, 995),
        (PNG, 8124),
        (PNG, 108334),
        (PNG, 31170),
        (PNG, 46181),
    ];
    check_read(&container(b"IFRS", &alabaster), IFRS, &alabaster);
    let being_steve = [(RIDX, 16), (ZCOD, 123392), (IFMD, 1365)];
    check_read(&container(b"IFRS", &being_steve), IFRS, &being_steve);
}

#[test]
fn test_write() {
    let vec = advent_save();

    let new_data = [1, 2, 3];
    let mut chunk = Chunk::new(&vec).unwrap();
    let mut out = Vec::new();
    chunk.write(&mut out);
    assert_eq!(vec, out);

    out.clear();
    chunk.append_data(TypeID::from(b"TEST"), &new_data);
    chunk.write(&mut out);

    let mut expected = vec.clone();
    expected.extend(&[b'T', b'E', b'S', b'T', 0, 0, 0, 3, 1, 2, 3, 0]);
    let size = expected.len() - 8;
    expected[4] = (size >> 24) as u8;
    expected[5] = (size >> 16) as u8;
    expected[6] = (size >> 8) as u8;
    expected[7] = size as u8;
    assert_eq!(expected, out);
}

#[test]
fn test_create() {
    let data = [1, 2, 3];
    let mut chunk = Chunk::create(TypeID(FORM), TypeID::from(b"TEST"));
    chunk.append_data(TypeID::from(b"TEST"), &data);

    let mut out = Vec::new();
    chunk.write(&mut out);
    assert_eq!(
        out,
        vec![
            b'F', b'O', b'R', b'M', 0, 0, 0, 16, b'T', b'E', b'S', b'T', b'T', b'E', b'S', b'T', 0,
            0, 0, 3, 1, 2, 3, 0
        ]
    );
}

#[test]
fn create_gives_an_empty_envelope() {
    let chunk = Chunk::create(TypeID(LIST), TypeID::from(b"TEST"));
    assert!(chunk.has_envelope_type(TypeID(LIST), TypeID::from(b"TEST")));
    assert!(chunk.data_chunks().is_empty());
    assert_eq!(chunk.checked_size(), Some(12));
    assert_eq!(written(&chunk), vec![b'L', b'I', b'S', b'T', 0, 0, 0, 4, b'T', b'E', b'S', b'T']);
    match chunk {
        Chunk::Envelope { envelope_id, id, chunks } => {
            assert_eq!(envelope_id, TypeID(LIST));
            assert_eq!(id, TypeID::from(b"TEST"));
            assert!(chunks.is_empty());
        }
        Chunk::Data { .. } => panic!("create gave a leaf"),
    }
}

#[test]
fn write_goes_behind_what_the_sink_holds() {
    let chunk = Chunk::create(TypeID(FORM), TypeID::from(b"TEST"));
    let mut out = vec![9u8, 8, 7];
    chunk.write(&mut out);
    chunk.write(&mut out);
    assert_eq!(
        out,
        vec![
            9, 8, 7, b'F', b'O', b'R', b'M', 0, 0, 0, 4, b'T', b'E', b'S', b'T', b'F', b'O', b'R',
            b'M', 0, 0, 0, 4, b'T', b'E', b'S', b'T'
        ]
    );
}

#[test]
fn leaf_with_odd_payload_gets_one_zero_pad_byte() {
    let data = [0xaau8, 0xbb, 0xcc, 0xdd, 0xee];
    let leaf = Chunk::Data { id: TypeID::from(b"ODD "), data: &data };
    assert_eq!(
        written(&leaf),
        vec![b'O', b'D', b'D', b' ', 0, 0, 0, 5, 0xaa, 0xbb, 0xcc, 0xdd, 0xee, 0]
    );
    assert_eq!(leaf.checked_size(), Some(13));
}

#[test]
fn leaf_with_even_payload_gets_no_pad_byte() {
    let data = [0xaau8, 0xbb, 0xcc, 0xdd];
    let leaf = Chunk::Data { id: TypeID::from(b"EVEN"), data: &data };
    assert_eq!(written(&leaf), vec![b'E', b'V', b'E', b'N', 0, 0, 0, 4, 0xaa, 0xbb, 0xcc, 0xdd]);
    assert_eq!(leaf.checked_size(), Some(12));
}

#[test]
fn empty_leaf_is_its_header() {
    let leaf = Chunk::Data { id: TypeID::from(b"NONE"), data: &[] };
    assert_eq!(written(&leaf), vec![b'N', b'O', b'N', b'E', 0, 0, 0, 0]);
    assert_eq!(leaf.checked_size(), Some(8));
}

#[test]
fn size_field_is_big_endian() {
    let data = payload(0x01_02_03, 7);
    let leaf = Chunk::Data { id: TypeID::from(b"BIG "), data: &data };
    let out = written(&leaf);
    assert_eq!(out.len(), 8 + 0x01_02_03 + 1);
    assert_eq!(&out[..8], &[b'B', b'I', b'G', b' ', 0x00, 0x01, 0x02, 0x03]);
    assert_eq!(&out[8..8 + 0x01_02_03], &data[..]);
    assert_eq!(out[8 + 0x01_02_03], 0);
}

#[test]
fn envelope_size_follows_the_sum_rule() {
    let a = [1u8];
    let b = [1u8, 2];
    let c = [1u8, 2, 3];
    let mut chunk = Chunk::create(TypeID(FORM), TypeID::from(b"SUM "));
    chunk.append_data(TypeID::from(b"AAAA"), &a);
    chunk.append_data(TypeID::from(b"BBBB"), &b);
    chunk.append_data(TypeID::from(b"CCCC"), &c);
    // 4 for the sub-type tag, then 8 + 1 padded to 10, 8 + 2 = 10, 8 + 3 padded to 12.
    assert_eq!(chunk.checked_size(), Some(8 + 4 + 10 + 10 + 12));
    let out = written(&chunk);
    assert_eq!(out.len(), 44);
    assert_eq!(&out[4..8], &[0, 0, 0, 36]);
    assert_eq!(out.len() % 2, 0);
    let expected = envelope_bytes(
        b"FORM",
        b"SUM ",
        &[leaf_bytes(b"AAAA", &a), leaf_bytes(b"BBBB", &b), leaf_bytes(b"CCCC", &c)],
    );
    assert_eq!(out, expected);
}

#[test]
fn append_chunk_nests_an_envelope() {
    let data = [5u8, 6, 7];
    let mut inner = Chunk::create(TypeID(LIST), TypeID::from(b"IN  "));
    inner.append_data(TypeID::from(b"LEAF"), &data);
    let mut outer = Chunk::create(TypeID(FORM), TypeID::from(b"OUT "));
    outer.append_chunk(inner);
    outer.append_chunk(Chunk::Data { id: TypeID::from(b"TAIL"), data: &data });
    let expected = envelope_bytes(
        b"FORM",
        b"OUT ",
        &[
            envelope_bytes(b"LIST", b"IN  ", &[leaf_bytes(b"LEAF", &data)]),
            leaf_bytes(b"TAIL", &data),
        ],
    );
    assert_eq!(written(&outer), expected);
    assert_eq!(outer.checked_size(), Some(expected.len()));
}

#[test]
fn data_chunks_gives_only_the_direct_leaves() {
    let one = [1u8, 2, 3];
    let two = [4u8, 5];
    let mut inner = Chunk::create(TypeID(FORM), TypeID::from(b"IN  "));
    inner.append_data(TypeID::from(b"DEEP"), &one);
    let mut outer = Chunk::create(TypeID(FORM), TypeID::from(b"OUT "));
    outer.append_chunk(inner);
    outer.append_data(TypeID::from(b"FLAT"), &two);
    let first = outer.data_chunks();
    assert_eq!(first, vec![(TypeID::from(b"FLAT"), &two[..])]);
    let second = outer.data_chunks();
    assert_eq!(first, second);
    assert_eq!(written(&outer), written(&outer));
}

#[test]
fn data_chunks_keeps_the_order() {
    let a = [1u8];
    let b = [2u8, 2];
    let c = [3u8, 3, 3];
    let mut chunk = Chunk::create(TypeID(FORM), TypeID::from(b"ORD "));
    chunk.append_data(TypeID::from(b"CCCC"), &c);
    chunk.append_chunk(Chunk::create(TypeID(LIST), TypeID::from(b"SKIP")));
    chunk.append_data(TypeID::from(b"AAAA"), &a);
    chunk.append_data(TypeID::from(b"BBBB"), &b);
    chunk.append_data(TypeID::from(b"AAAA"), &c);
    assert_eq!(
        chunk.data_chunks(),
        vec![
            (TypeID::from(b"CCCC"), &c[..]),
            (TypeID::from(b"AAAA"), &a[..]),
            (TypeID::from(b"BBBB"), &b[..]),
            (TypeID::from(b"AAAA"), &c[..]),
        ]
    );
}

#[test]
fn data_chunks_of_a_leaf_is_empty() {
    let data = [1u8, 2, 3];
    let leaf = Chunk::Data { id: TypeID::from(b"LEAF"), data: &data };
    assert!(leaf.data_chunks().is_empty());
}

#[test]
fn has_envelope_type_needs_both_tags() {
    let chunk = Chunk::create(TypeID(FORM), TypeID::from(b"TEST"));
    assert!(chunk.has_envelope_type(TypeID(FORM), TypeID::from(b"TEST")));
    assert!(!chunk.has_envelope_type(TypeID(LIST), TypeID::from(b"TEST")));
    assert!(!chunk.has_envelope_type(TypeID(FORM), TypeID::from(b"TEXT")));
    assert!(!chunk.has_envelope_type(TypeID::from(b"TEST"), TypeID(FORM)));
    assert!(!chunk.has_data_type(TypeID(FORM)));
    assert!(!chunk.has_data_type(TypeID::from(b"TEST")));
}

#[test]
fn has_data_type_needs_a_leaf_with_the_tag() {
    let data = [1u8];
    let leaf = Chunk::Data { id: TypeID::from(b"TEST"), data: &data };
    assert!(leaf.has_data_type(TypeID::from(b"TEST")));
    assert!(!leaf.has_data_type(TypeID::from(b"TEXT")));
    assert!(!leaf.has_envelope_type(TypeID::from(b"TEST"), TypeID::from(b"TEST")));
    assert!(!leaf.has_envelope_type(TypeID(FORM), TypeID::from(b"TEST")));
}

#[test]
fn buffer_shorter_than_a_header_is_malformed() {
    let full = leaf_bytes(b"TEST", &[]);
    for len in 0..8 {
        assert!(matches!(Chunk::new(&full[..len]), Err(Error::MalformedData)));
    }
    assert!(Chunk::new(&full).is_ok());
}

#[test]
fn declared_size_past_the_end_is_malformed() {
    let full = leaf_bytes(b"TEST", &[1, 2, 3, 4]);
    assert!(Chunk::new(&full).is_ok());
    assert!(matches!(Chunk::new(&full[..11]), Err(Error::MalformedData)));
    assert!(matches!(Chunk::new(&full[..8]), Err(Error::MalformedData)));
    let huge = [b'T', b'E', b'S', b'T', 0xff, 0xff, 0xff, 0xff, 1, 2, 3, 4];
    assert!(matches!(Chunk::new(&huge), Err(Error::MalformedData)));
    let mut envelope = envelope_bytes(b"FORM", b"TEST", &[]);
    envelope[7] = 5;
    assert!(matches!(Chunk::new(&envelope), Err(Error::MalformedData)));
}

#[test]
fn envelope_without_room_for_its_sub_type_is_malformed() {
    for size in 0..4u8 {
        let data = [b'F', b'O', b'R', b'M', 0, 0, 0, size, b'T', b'E', b'S', b'T'];
        assert!(matches!(Chunk::new(&data), Err(Error::MalformedData)));
    }
    let data = [b'F', b'O', b'R', b'M', 0, 0, 0, 4, b'T', b'E', b'S', b'T'];
    assert!(Chunk::new(&data).is_ok());
    // The same header under a leaf tag is a leaf of three bytes.
    let leaf = [b'M', b'R', b'O', b'F', 0, 0, 0, 3, b'T', b'E', b'S', b'T'];
    assert_eq!(Chunk::new(&leaf).unwrap().data_chunks().len(), 0);
    assert!(Chunk::new(&leaf).unwrap().has_data_type(TypeID::from(b"MROF")));
}

#[test]
fn malformed_child_fails_the_whole_read() {
    let mut child = leaf_bytes(b"LEAF", &[1, 2, 3, 4]);
    child[7] = 6;
    let data = envelope_bytes(b"FORM", b"TEST", &[leaf_bytes(b"GOOD", &[9, 9]), child]);
    assert!(matches!(Chunk::new(&data), Err(Error::MalformedData)));
    // Seven bytes behind the last child are no header.
    let mut tail = envelope_bytes(b"FORM", b"TEST", &[leaf_bytes(b"GOOD", &[9, 9])]);
    tail.extend_from_slice(&[b'L', b'E', b'A', b'F', 0, 0, 0]);
    let size = tail.len() - 8;
    tail[4..8].copy_from_slice(&be32(size));
    assert!(matches!(Chunk::new(&tail), Err(Error::MalformedData)));
}

#[test]
fn reading_gives_the_tree_of_the_buffer() {
    let data = envelope_bytes(
        b"FORM",
        b"TOP ",
        &[
            leaf_bytes(b"ONE ", &[1]),
            envelope_bytes(b"LIST", b"MID ", &[leaf_bytes(b"TWO ", &[2, 2])]),
            envelope_bytes(b"CAT ", b"NONE", &[]),
            leaf_bytes(b"TRI ", &[3, 3, 3]),
        ],
    );
    let chunk = Chunk::new(&data).unwrap();
    assert!(chunk.has_envelope_type(TypeID(FORM), TypeID::from(b"TOP ")));
    assert_eq!(
        chunk.data_chunks(),
        vec![(TypeID::from(b"ONE "), &[1u8][..]), (TypeID::from(b"TRI "), &[3u8, 3, 3][..])]
    );
    match &chunk {
        Chunk::Envelope { chunks, .. } => {
            assert_eq!(chunks.len(), 4);
            assert!(chunks[0].has_data_type(TypeID::from(b"ONE ")));
            assert!(chunks[1].has_envelope_type(TypeID(LIST), TypeID::from(b"MID ")));
            assert_eq!(chunks[1].data_chunks(), vec![(TypeID::from(b"TWO "), &[2u8, 2][..])]);
            assert!(chunks[2].has_envelope_type(TypeID::from(b"CAT "), TypeID::from(b"NONE")));
            assert!(chunks[2].data_chunks().is_empty());
            assert!(chunks[3].has_data_type(TypeID::from(b"TRI ")));
        }
        Chunk::Data { .. } => panic!("an envelope tag gave a leaf"),
    }
    assert_eq!(written(&chunk), data);
    assert_eq!(chunk.checked_size(), Some(data.len()));
}

#[test]
fn reading_a_leaf_at_the_top() {
    let data = leaf_bytes(b"TEXT", b"hello");
    let chunk = Chunk::new(&data).unwrap();
    assert!(chunk.has_data_type(TypeID::from(b"TEXT")));
    match &chunk {
        Chunk::Data { id, data } => {
            assert_eq!(*id, TypeID::from(b"TEXT"));
            assert_eq!(*data, b"hello");
        }
        Chunk::Envelope { .. } => panic!("a leaf tag gave an envelope"),
    }
    assert_eq!(written(&chunk), data);
}

#[test]
fn payloads_are_views_of_the_buffer() {
    let data = container(b"TEST", &[(IFHD, 5), (CMEM, 4)]);
    let chunk = Chunk::new(&data).unwrap();
    let leaves = chunk.data_chunks();
    assert_eq!(leaves.len(), 2);
    assert_eq!(leaves[0].1.as_ptr(), data[20..].as_ptr());
    assert_eq!(leaves[0].1, &data[20..25]);
    assert_eq!(leaves[1].1.as_ptr(), data[34..].as_ptr());
    assert_eq!(leaves[1].1, &data[34..38]);
}

#[test]
fn bytes_behind_the_chunk_are_ignored() {
    let mut data = leaf_bytes(b"TEXT", b"hello");
    let clean = data.clone();
    data.extend_from_slice(&[0xde, 0xad, 0xbe, 0xef]);
    let chunk = Chunk::new(&data).unwrap();
    assert_eq!(written(&chunk), clean);
    let missing_pad = &clean[..clean.len() - 1];
    let chunk = Chunk::new(missing_pad).unwrap();
    assert_eq!(written(&chunk), clean);
}

#[test]
fn pad_bytes_are_skipped_whatever_they_hold() {
    let clean = envelope_bytes(
        b"FORM",
        b"PADS",
        &[leaf_bytes(b"ONE ", &[1]), leaf_bytes(b"TRI ", &[3, 3, 3])],
    );
    let mut dirty = clean.clone();
    assert_eq!(dirty[21], 0);
    dirty[21] = 0x55;
    assert_eq!(dirty[33], 0);
    dirty[33] = 0xaa;
    let chunk = Chunk::new(&dirty).unwrap();
    assert_eq!(
        chunk.data_chunks(),
        vec![(TypeID::from(b"ONE "), &[1u8][..]), (TypeID::from(b"TRI "), &[3u8, 3, 3][..])]
    );
    assert_eq!(written(&chunk), clean);
}

#[test]
fn pad_byte_of_the_last_child_may_lie_behind_the_envelope() {
    // The envelope declares 15 bytes: its sub-type tag and a leaf of 8 + 3 bytes, whose
    // pad byte is left out of the count.
    let data = [
        b'F', b'O', b'R', b'M', 0, 0, 0, 15, b'T', b'E', b'S', b'T', b'L', b'E', b'A', b'F', 0, 0,
        0, 3, 1, 2, 3,
    ];
    let chunk = Chunk::new(&data).unwrap();
    assert_eq!(chunk.data_chunks(), vec![(TypeID::from(b"LEAF"), &[1u8, 2, 3][..])]);
    assert_eq!(chunk.checked_size(), Some(24));
    assert_eq!(
        written(&chunk),
        vec![
            b'F', b'O', b'R', b'M', 0, 0, 0, 16, b'T', b'E', b'S', b'T', b'L', b'E', b'A', b'F', 0,
            0, 0, 3, 1, 2, 3, 0
        ]
    );
}

#[test]
fn round_trip_of_a_canonical_buffer() {
    let data = envelope_bytes(
        b"LIST",
        b"ROOT",
        &[
            envelope_bytes(
                b"PROP",
                b"DEEP",
                &[
                    leaf_bytes(b"A   ", &payload(17, 1)),
                    envelope_bytes(b"FORM", b"MORE", &[leaf_bytes(b"B   ", &payload(256, 2))]),
                ],
            ),
            leaf_bytes(b"C   ", &payload(1, 3)),
            leaf_bytes(b"D   ", &[]),
            envelope_bytes(b"CAT ", b"LAST", &[leaf_bytes(b"E   ", &payload(65537, 4))]),
        ],
    );
    let chunk = Chunk::new(&data).unwrap();
    assert_eq!(written(&chunk), data);
    let again = written(&chunk);
    let reread = Chunk::new(&again).unwrap();
    assert_eq!(written(&reread), data);
}

#[test]
fn written_length_is_even_and_is_the_padded_size() {
    for len in 0..9usize {
        let data = payload(len, 0);
        let mut chunk = Chunk::create(TypeID(FORM), TypeID::from(b"EVEN"));
        chunk.append_data(TypeID::from(b"LEAF"), &data);
        chunk.append_data(TypeID::from(b"LEAF"), &data);
        let out = written(&chunk);
        assert_eq!(out.len() % 2, 0);
        let padded = 8 + len + len % 2;
        assert_eq!(out.len(), 12 + 2 * padded);
        assert_eq!(chunk.checked_size(), Some(12 + 2 * padded));
        assert_eq!(&out[4..8], &be32(4 + 2 * padded));
        let leaf = Chunk::Data { id: TypeID::from(b"LEAF"), data: &data };
        assert_eq!(written(&leaf).len(), padded);
        assert_eq!(leaf.checked_size(), Some(8 + len));
    }
}

#[test]
fn tags_do_not_decide_what_is_written() {
    // An envelope under a leaf tag is written as built, and reads back as a leaf.
    let data = [1u8, 2];
    let mut chunk = Chunk::create(TypeID::from(b"TEST"), TypeID::from(b"KIND"));
    chunk.append_data(TypeID(FORM), &data);
    let out = written(&chunk);
    assert_eq!(
        out,
        vec![
            b'T', b'E', b'S', b'T', 0, 0, 0, 14, b'K', b'I', b'N', b'D', b'F', b'O', b'R', b'M', 0,
            0, 0, 2, 1, 2
        ]
    );
    let reread = Chunk::new(&out).unwrap();
    assert!(reread.has_data_type(TypeID::from(b"TEST")));
    assert_eq!(written(&reread), out);
}

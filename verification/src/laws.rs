//! What holds of reading and writing, for every tree and every buffer.

use crate::format::{
    be32, be32_at, children_encoding, children_len, padding, parse_children, parse_chunk, tag_at,
    Tree,
};
use crate::lemmas::{lemma_children_len_even, lemma_children_len_push, lemma_parse_chunk_len};
use crate::type_id::TypeID;
use vstd::prelude::*;

verus! {

/// The four bytes of a size field encode the low 32 bits of the size they were made
/// for.
pub proof fn lemma_be32_at_be32(n: nat)
    ensures
        be32(n).len() == 4,
        be32_at(be32(n), 0) == n % 0x1_0000_0000,
{
    let m = n % 0x1_0000_0000;
    let b0 = (n / 0x100_0000) % 0x100;
    let b1 = (n / 0x1_0000) % 0x100;
    let b2 = (n / 0x100) % 0x100;
    let b3 = n % 0x100;
    assert(b0 * 0x100_0000 + b1 * 0x1_0000 + b2 * 0x100 + b3 == m) by {
        lemma_low_bytes(n);
    }
    assert(be32(n)[0] == b0 && be32(n)[1] == b1 && be32(n)[2] == b2 && be32(n)[3] == b3);
}

/// The four low bytes of a number make up its low 32 bits.
proof fn lemma_low_bytes(n: nat)
    ensures
        ((n / 0x100_0000) % 0x100) * 0x100_0000 + ((n / 0x1_0000) % 0x100) * 0x1_0000 + ((n
            / 0x100) % 0x100) * 0x100 + n % 0x100 == n % 0x1_0000_0000,
{
    let q1 = n / 0x100;
    let q2 = n / 0x1_0000;
    let q3 = n / 0x100_0000;
    let q4 = n / 0x1_0000_0000;
    assert(q2 == q1 / 0x100);
    assert(q3 == q2 / 0x100);
    assert(q4 == q3 / 0x100);
    assert(n == q1 * 0x100 + n % 0x100);
    assert(q1 == q2 * 0x100 + q1 % 0x100);
    assert(q2 == q3 * 0x100 + q2 % 0x100);
    assert(q3 == q4 * 0x100 + q3 % 0x100);
    assert(n == q4 * 0x1_0000_0000 + n % 0x1_0000_0000);
}

/// The tag read at an offset is the tag whose bytes stand there.
pub proof fn lemma_tag_at_bytes(id: TypeID, before: Seq<u8>, behind: Seq<u8>)
    ensures
        id.bytes().len() == 4,
        tag_at(before + id.bytes() + behind, before.len() as int) == id,
{
    let b = before + id.bytes() + behind;
    let i = before.len() as int;
    assert(tag_at(b, i).0 =~= id.0);
}

/// Every chunk is written as its header and payload followed by the pad byte that makes
/// the whole even; an envelope, whose payload is even by its sum rule, needs none.
pub proof fn lemma_encoding_len(tree: Tree)
    ensures
        tree.encoding().len() == tree.padded_len(),
        tree.encoding().len() == 8 + tree.payload_len() + tree.payload_len() % 2,
        tree.encoding().len() % 2 == 0,
        tree is Envelope ==> tree.payload_len() % 2 == 0,
    decreases tree,
{
    assert(tree.padded_len() == tree.total_len() + tree.total_len() % 2);
    match tree {
        Tree::Envelope { envelope_id, id, chunks } => {
            lemma_children_encoding_len(chunks);
            lemma_children_len_even(chunks);
        },
        Tree::Data { id, data } => {},
    }
}

/// A run of siblings is written in as many bytes as the sum rule counts for it.
pub proof fn lemma_children_encoding_len(chunks: Seq<Tree>)
    ensures
        children_encoding(chunks).len() == children_len(chunks),
    decreases chunks,
{
    if chunks.len() > 0 {
        lemma_children_encoding_len(chunks.drop_last());
        lemma_encoding_len(chunks.last());
    }
}

/// The header that is written holds the chunk's tag and, as the declared size, the low
/// 32 bits of what the sum rule gives: the data length of a leaf; for an envelope, four
/// for the sub-type tag and the padded length of every child.
pub proof fn lemma_encoding_header(tree: Tree)
    ensures
        tree.encoding().len() >= 8,
        tag_at(tree.encoding(), 0) == tree.tag(),
        be32_at(tree.encoding(), 4) == tree.payload_len() % 0x1_0000_0000,
        tree matches Tree::Envelope { id, .. } ==> tree.encoding().len() >= 12 && tag_at(
            tree.encoding(),
            8,
        ) == id,
{
    lemma_encoding_len(tree);
    let size = tree.payload_len();
    lemma_be32_at_be32(size);
    let e = tree.encoding();
    match tree {
        Tree::Envelope { envelope_id, id, chunks } => {
            let behind = be32(size) + id.bytes() + children_encoding(chunks) + padding(size);
            lemma_tag_at_bytes(envelope_id, Seq::empty(), behind);
            assert(Seq::<u8>::empty() + envelope_id.bytes() + behind =~= e);
            let before = envelope_id.bytes() + be32(size);
            lemma_tag_at_bytes(id, before, children_encoding(chunks) + padding(size));
            assert(before + id.bytes() + (children_encoding(chunks) + padding(size)) =~= e);
            assert(e.subrange(4, 8) =~= be32(size));
        },
        Tree::Data { id, data } => {
            let behind = be32(size) + data + padding(size);
            lemma_tag_at_bytes(id, Seq::empty(), behind);
            assert(Seq::<u8>::empty() + id.bytes() + behind =~= e);
            assert(e.subrange(4, 8) =~= be32(size));
        },
    }
    assert(be32_at(e, 4) == be32_at(e.subrange(4, 8), 0));
}

/// A leaf is written as its tag, its data length, its data and then exactly one zero
/// byte where the data length is odd, nothing where it is even.
pub proof fn lemma_leaf_padding(id: TypeID, data: Seq<u8>)
    ensures
        ({
            let e = (Tree::Data { id, data }).encoding();
            &&& e.len() == 8 + data.len() + data.len() % 2
            &&& e.subrange(8, 8 + data.len() as int) == data
            &&& data.len() % 2 == 1 ==> e[8 + data.len() as int] == 0
        }),
{
    let e = (Tree::Data { id, data }).encoding();
    lemma_encoding_len(Tree::Data { id, data });
    assert(e.subrange(8, 8 + data.len() as int) =~= data);
}

/// The bytes of a run of siblings are those of the first, then those of the others.
proof fn lemma_children_encoding_front(chunks: Seq<Tree>)
    requires
        chunks.len() > 0,
    ensures
        children_encoding(chunks) == chunks[0].encoding() + children_encoding(chunks.skip(1)),
    decreases chunks.len(),
{
    if chunks.len() == 1 {
        assert(chunks.drop_last() =~= Seq::<Tree>::empty());
        assert(chunks.skip(1) =~= Seq::<Tree>::empty());
        assert(children_encoding(Seq::<Tree>::empty()) =~= Seq::<u8>::empty());
        assert(children_encoding(chunks) =~= chunks[0].encoding() + children_encoding(
            chunks.skip(1),
        ));
    } else {
        lemma_children_encoding_front(chunks.drop_last());
        assert(chunks.drop_last().skip(1) =~= chunks.skip(1).drop_last());
        assert(children_encoding(chunks) =~= chunks[0].encoding() + children_encoding(
            chunks.skip(1),
        ));
    }
}

/// Reading what was written gives the tree back: for every well-formed tree, whatever
/// bytes follow its encoding.
pub proof fn lemma_parse_encoding(tree: Tree, behind: Seq<u8>)
    requires
        tree.well_formed(),
    ensures
        parse_chunk(tree.encoding() + behind) == Some(tree),
    decreases tree, 1nat,
{
    let e = tree.encoding();
    let b = e + behind;
    let size = tree.payload_len();
    lemma_encoding_len(tree);
    lemma_encoding_header(tree);
    assert(tag_at(b, 0) == tag_at(e, 0));
    assert(be32_at(b, 4) == be32_at(e, 4));
    match tree {
        Tree::Envelope { envelope_id, id, chunks } => {
            assert(tag_at(b, 8) == tag_at(e, 8));
            lemma_children_encoding_len(chunks);
            assert(b.subrange(12, 8 + size as int) =~= children_encoding(chunks));
            lemma_parse_children_encoding(chunks);
        },
        Tree::Data { id, data } => {
            assert(b.subrange(8, 8 + size as int) =~= data);
        },
    }
}

/// Reading the bytes of a run of well-formed siblings gives the siblings back.
pub proof fn lemma_parse_children_encoding(chunks: Seq<Tree>)
    requires
        forall|i: int| 0 <= i < chunks.len() ==> (#[trigger] chunks[i]).well_formed(),
    ensures
        parse_children(children_encoding(chunks)) == Some(chunks),
    decreases chunks, 0nat,
{
    let b = children_encoding(chunks);
    if chunks.len() == 0 {
        assert(b =~= Seq::<u8>::empty());
        assert(chunks =~= Seq::<Tree>::empty());
    } else {
        let first = chunks[0];
        let others = chunks.skip(1);
        lemma_children_encoding_front(chunks);
        lemma_encoding_len(first);
        lemma_parse_encoding(first, children_encoding(others));
        assert(b.skip(first.padded_len() as int) =~= children_encoding(others));
        assert forall|i: int| 0 <= i < others.len() implies (#[trigger] others[i]).well_formed() by {
            assert(others[i] == chunks[i + 1]);
        }
        lemma_parse_children_encoding(others);
        assert(seq![first] + others =~= chunks);
    }
}

/// A buffer that holds exactly one well-formed tree as it is written, zero pad bytes
/// included and nothing behind it.
pub open spec fn is_canonical(b: Seq<u8>) -> bool {
    exists|tree: Tree| tree.well_formed() && #[trigger] tree.encoding() == b
}

/// Reading a canonical buffer succeeds, and writing what was read gives the buffer
/// back, byte for byte.
pub proof fn lemma_round_trip(b: Seq<u8>)
    requires
        is_canonical(b),
    ensures
        parse_chunk(b) is Some,
        parse_chunk(b)->0.encoding() == b,
        parse_chunk(b)->0.well_formed(),
{
    let tree = choose|tree: Tree| tree.well_formed() && #[trigger] tree.encoding() == b;
    lemma_parse_encoding(tree, Seq::empty());
    assert(tree.encoding() + Seq::<u8>::empty() =~= b);
}

/// A buffer is canonical exactly when reading it gives a well-formed tree that is
/// written as that very buffer.
pub proof fn lemma_canonical_by_reading(b: Seq<u8>)
    ensures
        is_canonical(b) <==> (parse_chunk(b) matches Some(tree) && tree.well_formed()
            && tree.encoding() == b),
{
    if is_canonical(b) {
        lemma_round_trip(b);
    }
}

/// A buffer with fewer than eight bytes has no room for a header, and is refused.
pub proof fn lemma_short_buffer_rejected(b: Seq<u8>)
    requires
        b.len() < 8,
    ensures
        parse_chunk(b) is None,
{
}

/// A header whose declared size runs past the end of the buffer is refused, whatever
/// the tag.
pub proof fn lemma_overrun_rejected(b: Seq<u8>)
    requires
        b.len() >= 8,
        8 + be32_at(b, 4) > b.len(),
    ensures
        parse_chunk(b) is None,
{
}

/// An envelope that declares fewer than four payload bytes has no room for its sub-type
/// tag, and is refused.
pub proof fn lemma_short_envelope_rejected(b: Seq<u8>)
    requires
        b.len() >= 8,
        tag_at(b, 0).is_envelope(),
        be32_at(b, 4) < 4,
    ensures
        parse_chunk(b) is None,
{
}

/// A child that fails makes its envelope fail: no partial tree is given.
pub proof fn lemma_child_failure_rejected(b: Seq<u8>)
    requires
        b.len() >= 12,
        tag_at(b, 0).is_envelope(),
        4 <= be32_at(b, 4) <= b.len() - 8,
        parse_children(b.subrange(12, 8 + be32_at(b, 4) as int)) is None,
    ensures
        parse_chunk(b) is None,
{
}

/// What is read has the shape that its tag calls for: an envelope exactly under an
/// envelope tag. The tag, the sub-type tag and a leaf's data are the bytes of the buffer.
pub proof fn lemma_parse_shape(b: Seq<u8>)
    requires
        parse_chunk(b) is Some,
    ensures
        parse_chunk(b)->0.tag() == tag_at(b, 0),
        parse_chunk(b)->0 is Envelope <==> tag_at(b, 0).is_envelope(),
        parse_chunk(b)->0 matches Tree::Envelope { id, .. } ==> id == tag_at(b, 8),
        parse_chunk(b)->0 matches Tree::Data { data, .. } ==> data == b.subrange(
            8,
            8 + be32_at(b, 4) as int,
        ),
{
}

/// Reading a buffer of less than 4 GiB gives a well-formed tree: one that can be written
/// and read back.
pub proof fn lemma_parse_well_formed(b: Seq<u8>)
    requires
        b.len() <= u32::MAX,
        parse_chunk(b) is Some,
    ensures
        parse_chunk(b)->0.well_formed(),
    decreases b.len(), 0nat,
{
    lemma_parse_chunk_len(b);
    let size = be32_at(b, 4);
    match parse_chunk(b)->0 {
        Tree::Envelope { chunks, .. } => {
            lemma_parse_children_well_formed(b.subrange(12, 8 + size as int));
        },
        Tree::Data { .. } => {},
    }
}

/// The children read from a buffer of less than 4 GiB are well-formed.
pub proof fn lemma_parse_children_well_formed(b: Seq<u8>)
    requires
        b.len() <= u32::MAX,
        parse_children(b) is Some,
    ensures
        forall|i: int|
            0 <= i < parse_children(b)->0.len() ==> (#[trigger] parse_children(
                b,
            )->0[i]).well_formed(),
    decreases b.len(), 1nat,
{
    if b.len() > 0 {
        lemma_parse_well_formed(b);
        let first = parse_chunk(b)->0;
        let used = if first.padded_len() <= b.len() {
            first.padded_len()
        } else {
            b.len()
        };
        lemma_parse_children_well_formed(b.skip(used as int));
    }
}

/// What is read from a buffer of less than 4 GiB is written as a canonical buffer, which
/// reads as the same tree: the two buffers differ at most in pad bytes, in a pad byte
/// counted or not at the end of an envelope, and in what lies behind the chunk.
pub proof fn lemma_reread(b: Seq<u8>)
    requires
        b.len() <= u32::MAX,
        parse_chunk(b) is Some,
    ensures
        is_canonical(parse_chunk(b)->0.encoding()),
        parse_chunk(parse_chunk(b)->0.encoding()) == parse_chunk(b),
{
    let tree = parse_chunk(b)->0;
    lemma_parse_well_formed(b);
    lemma_parse_encoding(tree, Seq::empty());
    assert(tree.encoding() + Seq::<u8>::empty() =~= tree.encoding());
}

/// A child added to an envelope comes last, behind the children that were there, and
/// the declared size grows by the child's padded length.
pub proof fn lemma_with_child(tree: Tree, child: Tree)
    requires
        tree is Envelope,
    ensures
        tree.with_child(child) is Envelope,
        tree.with_child(child)->chunks == tree->chunks.push(child),
        tree.with_child(child).payload_len() == tree.payload_len() + child.padded_len(),
        children_encoding(tree.with_child(child)->chunks) == children_encoding(tree->chunks)
            + child.encoding(),
{
    lemma_children_len_push(tree->chunks, child);
    assert(tree->chunks.push(child).drop_last() =~= tree->chunks);
}

} // verus!

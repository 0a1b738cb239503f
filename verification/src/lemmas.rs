//! Facts about the layout that the proofs of the chunk operations share.

use crate::format::{
    be32_at, children_encoding, children_len, parse_children, parse_chunk, Tree,
};
use vstd::prelude::*;

verus! {

/// One more sibling adds its padded length.
pub proof fn lemma_children_len_push(chunks: Seq<Tree>, child: Tree)
    ensures
        children_len(chunks.push(child)) == children_len(chunks) + child.padded_len(),
{
    assert(chunks.push(child).drop_last() =~= chunks);
}

/// The first `i + 1` siblings take the space of the first `i` and of sibling `i`.
pub proof fn lemma_children_len_step(chunks: Seq<Tree>, i: int)
    requires
        0 <= i < chunks.len(),
    ensures
        children_len(chunks.take(i + 1)) == children_len(chunks.take(i))
            + chunks[i].padded_len(),
{
    assert(chunks.take(i + 1).drop_last() =~= chunks.take(i));
}

/// A run of siblings takes at least the space of any of its prefixes.
pub proof fn lemma_children_len_prefix(chunks: Seq<Tree>, i: int)
    requires
        0 <= i <= chunks.len(),
    ensures
        children_len(chunks.take(i)) <= children_len(chunks),
    decreases chunks.len() - i,
{
    if i < chunks.len() {
        lemma_children_len_step(chunks, i);
        lemma_children_len_prefix(chunks, i + 1);
    } else {
        assert(chunks.take(i) =~= chunks);
    }
}

/// The space of a run of siblings is even.
pub proof fn lemma_children_len_even(chunks: Seq<Tree>)
    ensures
        children_len(chunks) % 2 == 0,
    decreases chunks.len(),
{
    if chunks.len() > 0 {
        lemma_children_len_even(chunks.drop_last());
        let last = chunks.last();
        assert(last.padded_len() == last.total_len() + last.total_len() % 2);
    }
}

/// The bytes of the first `i + 1` siblings are those of the first `i`, then those of
/// sibling `i`.
pub proof fn lemma_children_encoding_step(chunks: Seq<Tree>, i: int)
    requires
        0 <= i < chunks.len(),
    ensures
        children_encoding(chunks.take(i + 1)) == children_encoding(chunks.take(i))
            + chunks[i].encoding(),
{
    assert(chunks.take(i + 1).drop_last() =~= chunks.take(i));
}

/// The declared size of what is read from `b`, rounded up to even, is the space that
/// the chunk takes. An envelope's own length is that rounded size: where its declared
/// size is odd, the pad byte of its last child lies behind its end and counts.
pub proof fn lemma_parse_chunk_len(b: Seq<u8>)
    requires
        parse_chunk(b) is Some,
    ensures
        8 + be32_at(b, 4) <= b.len(),
        parse_chunk(b)->0.padded_len() == 8 + be32_at(b, 4) + be32_at(b, 4) % 2,
        parse_chunk(b)->0 is Data ==> parse_chunk(b)->0.total_len() == 8 + be32_at(b, 4),
        parse_chunk(b)->0 is Envelope ==> parse_chunk(b)->0.total_len() == 8 + be32_at(b, 4)
            + be32_at(b, 4) % 2,
    decreases b.len(), 0nat,
{
    let size = be32_at(b, 4);
    let tree = parse_chunk(b)->0;
    match tree {
        Tree::Envelope { chunks, .. } => {
            lemma_parse_children_len(b.subrange(12, 8 + size as int));
        },
        Tree::Data { .. } => {},
    }
    assert(tree.padded_len() == tree.total_len() + tree.total_len() % 2);
}

/// The children read from `b` take the length of `b`, rounded up to even.
pub proof fn lemma_parse_children_len(b: Seq<u8>)
    requires
        parse_children(b) is Some,
    ensures
        children_len(parse_children(b)->0) == b.len() + b.len() % 2,
    decreases b.len(), 1nat,
{
    if b.len() > 0 {
        lemma_parse_chunk_len(b);
        let first = parse_chunk(b)->0;
        let used = if first.padded_len() <= b.len() {
            first.padded_len()
        } else {
            b.len()
        };
        let rest = parse_children(b.skip(used as int))->0;
        lemma_parse_children_len(b.skip(used as int));
        lemma_children_len_concat(seq![first], rest);
        assert(children_len(seq![first]) == first.padded_len()) by {
            assert(Seq::<Tree>::empty().push(first) =~= seq![first]);
            assert(children_len(Seq::<Tree>::empty()) == 0);
            lemma_children_len_push(Seq::empty(), first);
        }
    }
}

/// The space of two runs of siblings, one after the other, is the sum of their spaces.
pub proof fn lemma_children_len_concat(a: Seq<Tree>, b: Seq<Tree>)
    ensures
        children_len(a + b) == children_len(a) + children_len(b),
    decreases b.len(),
{
    if b.len() == 0 {
        assert(a + b =~= a);
    } else {
        lemma_children_len_concat(a, b.drop_last());
        assert((a + b).drop_last() =~= a + b.drop_last());
    }
}

} // verus!

//! The chunk tree: building it, asking it questions, reading it and writing it.

use crate::error::Error;
use crate::format::{
    be32, be32_at, children_encoding, children_len, leaves_of, parse_children, parse_chunk,
    tag_at, Tree,
};
use crate::lemmas::{
    lemma_children_encoding_step, lemma_children_len_even, lemma_children_len_prefix,
    lemma_children_len_step, lemma_parse_chunk_len,
};
use crate::type_id::TypeID;
use vstd::prelude::*;

verus! {

/// A chunk: an envelope of nested chunks, or a leaf of raw bytes borrowed from the
/// caller. The buffer that a payload is borrowed from outlives the chunk.
pub enum Chunk<'a> {
    /// A chunk under the tag `envelope_id` that holds the sub-type tag `id` and the
    /// nested `chunks`, in the order in which they are written.
    Envelope { envelope_id: TypeID, id: TypeID, chunks: Vec<Chunk<'a>> },
    /// A chunk under the tag `id` that holds the raw bytes `data`.
    Data { id: TypeID, data: &'a [u8] },
}

impl<'a> View for Chunk<'a> {
    type V = Tree;

    open spec fn view(&self) -> Tree {
        self.tree()
    }
}

/// The values of a run of chunks, one for one.
spec fn views(chunks: Seq<Chunk>) -> Seq<Tree> {
    Seq::new(chunks.len(), |i: int| chunks[i]@)
}

/// What reading gives once the children `done` are read and `rest` is what reading the
/// remaining bytes gives.
spec fn after(done: Seq<Tree>, rest: Option<Seq<Tree>>) -> Option<Seq<Tree>> {
    match rest {
        Some(more) => Some(done + more),
        None => None,
    }
}

/// The state of reading the children of an envelope: `done` has been read from the
/// first `k` bytes of `body`, and what the whole of `body` gives depends only on what
/// the bytes from `k` on give.
#[verifier::opaque]
spec fn reading(body: Seq<u8>, done: Seq<Tree>, k: int) -> bool {
    parse_children(body) == after(done, parse_children(body.skip(k)))
}

/// The header of an envelope has been read from `b`: what `b` gives is the envelope
/// with these tags and the children that `body` gives, if it gives any.
#[verifier::opaque]
spec fn envelope_read(b: Seq<u8>, envelope_id: TypeID, id: TypeID, body: Seq<u8>) -> bool {
    parse_chunk(b) == match parse_children(body) {
        Some(chunks) => Some(Tree::Envelope { envelope_id, id, chunks }),
        None => None,
    }
}

/// Reading the children starts at the front of the body, with none read.
proof fn lemma_read_start(b: Seq<u8>)
    requires
        b.len() >= 12,
        tag_at(b, 0).is_envelope(),
        4 <= be32_at(b, 4) <= b.len() - 8,
    ensures
        envelope_read(b, tag_at(b, 0), tag_at(b, 8), b.subrange(12, 8 + be32_at(b, 4) as int)),
        reading(b.subrange(12, 8 + be32_at(b, 4) as int), Seq::empty(), 0),
{
    reveal(envelope_read);
    reveal(reading);
    let body = b.subrange(12, 8 + be32_at(b, 4) as int);
    assert(body.skip(0) =~= body);
    if parse_children(body) is Some {
        assert(Seq::<Tree>::empty() + parse_children(body)->0 =~= parse_children(body)->0);
    }
}

/// Reading one more child: where `first` is read at offset `k`, reading goes on behind
/// `first` and its pad byte, or stops at the end of `body` where that comes first. The
/// child is no longer than what was left, but for the pad byte of its own last child.
proof fn lemma_read_child(body: Seq<u8>, done: Seq<Tree>, k: int, rest: Seq<u8>, first: Tree)
    requires
        0 <= k < body.len(),
        reading(body, done, k),
        rest == body.skip(k),
        parse_chunk(rest) == Some(first),
    ensures
        first.total_len() <= body.len() - k + 1,
        first.padded_len() == first.total_len() + first.total_len() % 2,
        first.padded_len() <= body.len() - k ==> reading(
            body,
            done.push(first),
            k + first.padded_len(),
        ),
        first.padded_len() > body.len() - k ==> reading(
            body,
            done.push(first),
            body.len() as int,
        ),
{
    reveal(reading);
    lemma_parse_chunk_len(rest);
    let used = if first.padded_len() <= rest.len() {
        first.padded_len()
    } else {
        rest.len()
    };
    assert(rest.skip(used as int) =~= body.skip(k + used));
    let more = parse_children(rest.skip(used as int));
    if more is Some {
        assert(done + (seq![first] + more->0) =~= done.push(first) + more->0);
    }
}

/// A child that cannot be read makes the envelope fail.
proof fn lemma_read_child_fails(
    b: Seq<u8>,
    envelope_id: TypeID,
    id: TypeID,
    body: Seq<u8>,
    done: Seq<Tree>,
    k: int,
    rest: Seq<u8>,
)
    requires
        0 <= k < body.len(),
        envelope_read(b, envelope_id, id, body),
        reading(body, done, k),
        rest == body.skip(k),
        parse_chunk(rest) is None,
    ensures
        parse_chunk(b) is None,
{
    reveal(envelope_read);
    reveal(reading);
}

/// Once the body is used up, the envelope holds the children that were read.
proof fn lemma_read_end(
    b: Seq<u8>,
    envelope_id: TypeID,
    id: TypeID,
    body: Seq<u8>,
    done: Seq<Tree>,
)
    requires
        envelope_read(b, envelope_id, id, body),
        reading(body, done, body.len() as int),
    ensures
        parse_chunk(b) == Some(Tree::Envelope { envelope_id, id, chunks: done }),
{
    reveal(envelope_read);
    reveal(reading);
    assert(body.skip(body.len() as int) =~= Seq::<u8>::empty());
    assert(done + Seq::<Tree>::empty() =~= done);
}

/// The leaves that a run of `(tag, payload)` pairs stands for.
pub open spec fn pairs_view(pairs: Seq<(TypeID, &[u8])>) -> Seq<(TypeID, Seq<u8>)> {
    Seq::new(pairs.len(), |i: int| (pairs[i].0, pairs[i].1@))
}

/// The size field for `size`: its low 32 bits, most significant byte first.
fn size_field(size: usize) -> (r: [u8; 4])
    ensures
        r@ == be32(size as nat),
{
    let b0 = #[verifier::truncate] ((size >> 24) as u8);
    let b1 = #[verifier::truncate] ((size >> 16) as u8);
    let b2 = #[verifier::truncate] ((size >> 8) as u8);
    let b3 = #[verifier::truncate] (size as u8);
    proof {
        assert(((size >> 24) as u8) == (size / 0x100_0000) % 0x100) by (bit_vector);
        assert(((size >> 16) as u8) == (size / 0x1_0000) % 0x100) by (bit_vector);
        assert(((size >> 8) as u8) == (size / 0x100) % 0x100) by (bit_vector);
        assert((size as u8) == size % 0x100) by (bit_vector);
    }
    let r = [b0, b1, b2, b3];
    assert(r@ =~= be32(size as nat));
    r
}

impl<'a> Chunk<'a> {
    /// The value that the chunk stands for: its tags, its payload bytes and, for an
    /// envelope, the values of its children in order.
    pub open spec fn tree(self) -> Tree
        decreases self,
    {
        match self {
            Chunk::Envelope { envelope_id, id, chunks } => Tree::Envelope {
                envelope_id,
                id,
                chunks: Seq::new(
                    chunks@.len(),
                    |i: int|
                        if 0 <= i < chunks@.len() {
                            chunks@[i].tree()
                        } else {
                            arbitrary()
                        },
                ),
            },
            Chunk::Data { id, data } => Tree::Data { id, data: data@ },
        }
    }

    /// Reads the chunk that `data` starts with, nested chunks included. Leaf payloads are
    /// borrowed from `data`, not copied. Pad bytes are skipped, whatever they hold, and
    /// bytes of `data` behind the chunk are ignored.
    ///
    /// Fails where `data` is too short for a header, a declared size runs past the end of
    /// its container, or an envelope declares fewer than four payload bytes. No partial
    /// tree is given.
    pub fn new(data: &'a [u8]) -> (r: Result<Self, Error>)
        ensures
            match r {
                Ok(chunk) => parse_chunk(data@) == Some(chunk@),
                Err(e) => parse_chunk(data@) is None && e == Error::MalformedData,
            },
            r is Ok ==> r->Ok_0@.total_len() <= data@.len() + 1,
    {
        proof {
            assert(data@.subrange(0, data@.len() as int) =~= data@);
            if parse_chunk(data@) is Some {
                lemma_parse_chunk_len(data@);
            }
        }
        Chunk::new_chunk(data, 0, data.len())
    }

    /// Reads the chunk that starts at `index`, bounded by `last_index` (exclusive).
    /// Chunks start at even offsets.
    fn new_chunk(data: &'a [u8], index: usize, last_index: usize) -> (r: Result<Self, Error>)
        requires
            index <= last_index <= data@.len(),
            index % 2 == 0,
        ensures
            match r {
                Ok(chunk) => parse_chunk(data@.subrange(index as int, last_index as int)) == Some(
                    chunk@,
                ),
                Err(e) => parse_chunk(data@.subrange(index as int, last_index as int)) is None
                    && e == Error::MalformedData,
            },
        decreases last_index - index,
    {
        let ghost b = data@.subrange(index as int, last_index as int);
        if last_index - index < 8 {
            return Err(Error::MalformedData);
        }
        let id = Self::chunk_id(data, index);
        let size = Self::chunk_size(data, index + 4);
        assert(id == tag_at(b, 0));
        assert(size == be32_at(b, 4));
        if size > last_index - index - 8 {
            return Err(Error::MalformedData);
        }
        if id.is_envelope() {
            if size < 4 {
                return Err(Error::MalformedData);
            }
            let data_id = Self::chunk_id(data, index + 8);
            let end = index + 8 + size;
            let ghost body = b.subrange(12, 8 + size as int);
            let mut i = index + 12;
            let mut chunks: Vec<Chunk<'a>> = Vec::new();
            proof {
                assert(data_id == tag_at(b, 8));
                lemma_read_start(b);
                assert(views(chunks@) =~= Seq::<Tree>::empty());
            }
            while i < end
                invariant
                    index + 12 <= i <= end <= last_index <= data@.len(),
                    i % 2 == 0 || i == end,
                    b == data@.subrange(index as int, last_index as int),
                    body.len() == end - (index + 12),
                    forall|j: int| 0 <= j < body.len() ==> body[j] == data@[index + 12 + j],
                    envelope_read(b, id, data_id, body),
                    reading(body, views(chunks@), i - (index + 12)),
                decreases end - i,
            {
                let ghost k = i - (index + 12);
                let ghost done = views(chunks@);
                let ghost rest = data@.subrange(i as int, end as int);
                assert(rest =~= body.skip(k));
                match Self::new_chunk(data, i, end) {
                    Err(e) => {
                        proof {
                            lemma_read_child_fails(b, id, data_id, body, done, k, rest);
                        }
                        return Err(e);
                    },
                    Ok(chunk) => {
                        proof {
                            lemma_read_child(body, done, k, rest, chunk@);
                        }
                        let n = chunk.size();
                        if n >= end - i {
                            i = end;
                        } else {
                            i += n;
                            if i % 2 != 0 {
                                i += 1;
                            }
                        }
                        chunks.push(chunk);
                        assert(views(chunks@) =~= done.push(chunk@));
                    },
                }
            }
            let r = Chunk::Envelope { envelope_id: id, id: data_id, chunks };
            proof {
                lemma_read_end(b, id, data_id, body, views(chunks@));
                assert(r@->chunks =~= views(chunks@));
            }
            Ok(r)
        } else {
            let payload = &data[index + 8..index + 8 + size];
            assert(payload@ =~= b.subrange(8, 8 + size as int));
            Ok(Chunk::Data { id, data: payload })
        }
    }

    /// The tag made of the four bytes at `index`.
    fn chunk_id(data: &[u8], index: usize) -> (r: TypeID)
        requires
            index + 4 <= data@.len(),
        ensures
            r == tag_at(data@, index as int),
    {
        let r = TypeID([data[index], data[index + 1], data[index + 2], data[index + 3]]);
        proof {
            assert(r.0 =~= tag_at(data@, index as int).0);
        }
        r
    }

    /// The number that the four bytes at `index` encode, most significant byte first.
    fn chunk_size(data: &[u8], index: usize) -> (r: usize)
        requires
            index + 4 <= data@.len(),
        ensures
            r == be32_at(data@, index as int),
    {
        let b0 = data[index];
        let b1 = data[index + 1];
        let b2 = data[index + 2];
        let b3 = data[index + 3];
        let r = (b0 as usize) << 24 | (b1 as usize) << 16 | (b2 as usize) << 8 | b3 as usize;
        proof {
            assert(((b0 as usize) << 24 | (b1 as usize) << 16 | (b2 as usize) << 8 | b3 as usize)
                == b0 * 0x100_0000 + b1 * 0x1_0000 + b2 * 0x100 + b3) by (bit_vector);
        }
        r
    }

    /// An envelope with the two tags and no children.
    pub fn create(envelope_id: TypeID, id: TypeID) -> (r: Self)
        ensures
            r@ == (Tree::Envelope { envelope_id, id, chunks: Seq::empty() }),
    {
        let r = Chunk::Envelope { envelope_id, id, chunks: Vec::new() };
        proof {
            assert(r@->chunks =~= Seq::empty());
        }
        r
    }

    /// Adds a leaf with the tag `id` and the payload `data` as the last child.
    ///
    /// Only an envelope takes children.
    pub fn append_data(&mut self, id: TypeID, data: &'a [u8])
        requires
            old(self)@ is Envelope,
        ensures
            final(self)@ == old(self)@.with_child(Tree::Data { id, data: data@ }),
    {
        match self {
            Chunk::Envelope { chunks, .. } => {
                chunks.push(Chunk::Data { id, data });
            },
            Chunk::Data { .. } => {
                unreached::<()>();
            },
        }
        proof {
            let leaf = Chunk::Data { id, data };
            assert(leaf@ == Tree::Data { id, data: data@ });
            assert(self@->chunks =~= old(self)@->chunks.push(leaf@));
        }
    }

    /// Adds `chunk` as the last child.
    ///
    /// Only an envelope takes children.
    pub fn append_chunk(&mut self, chunk: Chunk<'a>)
        requires
            old(self)@ is Envelope,
        ensures
            final(self)@ == old(self)@.with_child(chunk@),
    {
        let ghost child = chunk@;
        match self {
            Chunk::Envelope { chunks, .. } => {
                chunks.push(chunk);
            },
            Chunk::Data { .. } => {
                unreached::<()>();
            },
        }
        proof {
            assert(self@->chunks =~= old(self)@->chunks.push(child));
        }
    }

    /// Writes the chunk behind what `w` holds: tag, declared size, payload and, where the
    /// declared size is odd, one zero pad byte. The declared size is written as its low
    /// 32 bits, most significant byte first.
    pub fn write(&self, w: &mut Vec<u8>)
        requires
            self@.total_len() <= usize::MAX,
        ensures
            final(w)@ == old(w)@ + self@.encoding(),
        decreases self,
    {
        match self {
            Chunk::Envelope { envelope_id, id, chunks } => {
                let ghost trees = self@->chunks;
                w.extend_from_slice(&envelope_id.0);
                let size = self.size() - 8;
                w.extend_from_slice(&size_field(size));
                w.extend_from_slice(&id.0);
                let ghost head = w@;
                assert(head =~= old(w)@ + envelope_id.bytes() + be32(size as nat) + id.bytes());
                let mut i: usize = 0;
                while i < chunks.len()
                    invariant
                        i <= chunks.len(),
                        trees.len() == chunks.len(),
                        forall|j: int| 0 <= j < chunks.len() ==> trees[j] == (#[trigger] chunks[j])@,
                        forall|j: int| 0 <= j < chunks.len() ==> decreases_to!(self => #[trigger] chunks[j]),
                        12 + children_len(trees) <= usize::MAX,
                        w@ == head + children_encoding(trees.take(i as int)),
                    decreases chunks.len() - i,
                {
                    proof {
                        lemma_children_len_step(trees, i as int);
                        lemma_children_len_prefix(trees, i + 1);
                        lemma_children_encoding_step(trees, i as int);
                    }
                    chunks[i].write(w);
                    i += 1;
                }
                proof {
                    assert(trees.take(i as int) =~= trees);
                    lemma_children_len_even(trees);
                }
                if size % 2 != 0 {
                    w.push(0u8);
                }
                assert(w@ =~= old(w)@ + self@.encoding());
            },
            Chunk::Data { id, data } => {
                w.extend_from_slice(&id.0);
                let size = self.size() - 8;
                w.extend_from_slice(&size_field(size));
                w.extend_from_slice(data);
                if size % 2 != 0 {
                    w.push(0u8);
                }
                assert(w@ =~= old(w)@ + self@.encoding());
            },
        }
    }

    /// The tags and payloads of the direct leaf children, in order. Nested envelopes are
    /// passed over, not entered; a leaf gives an empty list.
    pub fn data_chunks(&self) -> (r: Vec<(TypeID, &'a [u8])>)
        ensures
            pairs_view(r@) == self@.leaves(),
    {
        let mut vec: Vec<(TypeID, &'a [u8])> = Vec::new();
        match self {
            Chunk::Envelope { chunks, .. } => {
                let ghost trees = self@->chunks;
                let mut i: usize = 0;
                assert(pairs_view(vec@) =~= leaves_of(trees.take(0)));
                while i < chunks.len()
                    invariant
                        i <= chunks.len(),
                        trees.len() == chunks.len(),
                        forall|j: int| 0 <= j < chunks.len() ==> trees[j] == (#[trigger] chunks[j])@,
                        pairs_view(vec@) == leaves_of(trees.take(i as int)),
                    decreases chunks.len() - i,
                {
                    proof {
                        assert(trees.take(i + 1).drop_last() =~= trees.take(i as int));
                    }
                    match &chunks[i] {
                        Chunk::Data { id, data } => {
                            vec.push((*id, *data));
                            assert(pairs_view(vec@) =~= leaves_of(trees.take(i as int)).push(
                                (*id, data@),
                            ));
                        },
                        _ => (),
                    }
                    i += 1;
                }
                proof {
                    assert(trees.take(i as int) =~= trees);
                }
            },
            _ => {
                assert(pairs_view(vec@) =~= Seq::empty());
            },
        }
        vec
    }

    /// Header and payload of the chunk together, without the pad byte, or `None` where
    /// that length is more than a `usize` holds.
    pub fn checked_size(&self) -> (r: Option<usize>)
        ensures
            match r {
                Some(n) => n == self@.total_len(),
                None => self@.total_len() > usize::MAX,
            },
        decreases self,
    {
        match self {
            Chunk::Envelope { chunks, .. } => {
                let ghost trees = self@->chunks;
                let mut size: usize = 12;
                let mut i: usize = 0;
                while i < chunks.len()
                    invariant
                        i <= chunks.len(),
                        trees.len() == chunks.len(),
                        forall|j: int| 0 <= j < chunks.len() ==> trees[j] == (#[trigger] chunks[j])@,
                        forall|j: int| 0 <= j < chunks.len() ==> decreases_to!(self => #[trigger] chunks[j]),
                        self@.total_len() == 12 + children_len(trees),
                        size == 12 + children_len(trees.take(i as int)),
                    decreases chunks.len() - i,
                {
                    proof {
                        lemma_children_len_step(trees, i as int);
                        lemma_children_len_prefix(trees, i + 1);
                        assert(trees[i as int].padded_len() == trees[i as int].total_len()
                            + trees[i as int].total_len() % 2);
                    }
                    let n = match chunks[i].checked_size() {
                        Some(n) => n,
                        None => {
                            return None;
                        },
                    };
                    let padded = match n.checked_add(n % 2) {
                        Some(padded) => padded,
                        None => {
                            return None;
                        },
                    };
                    size = match size.checked_add(padded) {
                        Some(sum) => sum,
                        None => {
                            return None;
                        },
                    };
                    i += 1;
                }
                proof {
                    assert(trees.take(i as int) =~= trees);
                }
                Some(size)
            },
            Chunk::Data { data, .. } => data.len().checked_add(8),
        }
    }

    /// Header and payload of the chunk together, without the pad byte.
    fn size(&self) -> (r: usize)
        requires
            self@.total_len() <= usize::MAX,
        ensures
            r == self@.total_len(),
        decreases self,
    {
        match self {
            Chunk::Envelope { chunks, .. } => {
                let ghost trees = self@->chunks;
                let mut size: usize = 12;
                let mut i: usize = 0;
                while i < chunks.len()
                    invariant
                        i <= chunks.len(),
                        trees.len() == chunks.len(),
                        forall|j: int| 0 <= j < chunks.len() ==> trees[j] == (#[trigger] chunks[j])@,
                        forall|j: int| 0 <= j < chunks.len() ==> decreases_to!(self => #[trigger] chunks[j]),
                        12 + children_len(trees) <= usize::MAX,
                        size == 12 + children_len(trees.take(i as int)),
                    decreases chunks.len() - i,
                {
                    proof {
                        lemma_children_len_step(trees, i as int);
                        lemma_children_len_prefix(trees, i + 1);
                        lemma_children_len_even(trees.take(i as int));
                    }
                    size += chunks[i].size();
                    if size % 2 != 0 {
                        size += 1;
                    }
                    i += 1;
                }
                proof {
                    assert(trees.take(i as int) =~= trees);
                }
                size
            },
            Chunk::Data { data, .. } => 8 + data.len(),
        }
    }

    /// Whether this is an envelope with exactly these two tags.
    pub fn has_envelope_type(&self, envelope_type_id: TypeID, type_id: TypeID) -> (r: bool)
        ensures
            r == (self@ matches Tree::Envelope { envelope_id, id, .. } && envelope_id
                == envelope_type_id && id == type_id),
    {
        match self {
            Chunk::Envelope { envelope_id, id, .. } => envelope_type_id == *envelope_id && type_id
                == *id,
            _ => false,
        }
    }

    /// Whether this is a leaf with exactly this tag.
    pub fn has_data_type(&self, type_id: TypeID) -> (r: bool)
        ensures
            r == (self@ matches Tree::Data { id, .. } && id == type_id),
    {
        match self {
            Chunk::Data { id, .. } => type_id == *id,
            _ => false,
        }
    }
}

} // verus!

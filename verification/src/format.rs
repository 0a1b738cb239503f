//! The byte layout of chunks, stated over sequences of bytes.
//!
//! ```text
//! chunk             := tag(4 bytes) size(u32, big-endian) payload [pad(1 byte) if size is odd]
//! payload(envelope) := inner tag(4 bytes) chunk*
//! payload(leaf)     := raw bytes
//! ```
//!
//! `size` counts the payload only: neither the eight header bytes nor the pad byte.

use crate::type_id::TypeID;
use vstd::prelude::*;

verus! {

/// The mathematical value of a chunk: what a `Chunk` stands for, whatever buffer its
/// payloads were borrowed from.
pub enum Tree {
    /// A chunk that holds a sub-type tag and nested chunks, in serialization order.
    Envelope { envelope_id: TypeID, id: TypeID, chunks: Seq<Tree> },
    /// A chunk that holds raw bytes.
    Data { id: TypeID, data: Seq<u8> },
}

/// The number of pad bytes that follow `n` bytes: one if `n` is odd, none otherwise.
pub open spec fn pad_len(n: nat) -> nat {
    n % 2
}

/// The pad bytes that follow `n` bytes: a single zero if `n` is odd.
pub open spec fn padding(n: nat) -> Seq<u8> {
    if n % 2 == 1 {
        seq![0u8]
    } else {
        Seq::empty()
    }
}

/// The four bytes of the size field for `n`: the low 32 bits of `n`, most significant
/// byte first.
pub open spec fn be32(n: nat) -> Seq<u8> {
    seq![
        ((n / 0x100_0000) % 0x100) as u8,
        ((n / 0x1_0000) % 0x100) as u8,
        ((n / 0x100) % 0x100) as u8,
        (n % 0x100) as u8,
    ]
}

/// The number that four bytes `b[i..i + 4]` encode, most significant byte first.
pub open spec fn be32_at(b: Seq<u8>, i: int) -> nat {
    (b[i] as nat) * 0x100_0000 + (b[i + 1] as nat) * 0x1_0000 + (b[i + 2] as nat) * 0x100 + (b[i
        + 3] as nat)
}

/// The tag made of the four bytes `b[i..i + 4]`.
pub open spec fn tag_at(b: Seq<u8>, i: int) -> TypeID {
    TypeID([b[i], b[i + 1], b[i + 2], b[i + 3]])
}

impl Tree {
    /// The tag that the chunk's header starts with.
    pub open spec fn tag(self) -> TypeID {
        match self {
            Tree::Envelope { envelope_id, .. } => envelope_id,
            Tree::Data { id, .. } => id,
        }
    }

    /// The declared size: the number of payload bytes. A leaf's payload is its data; an
    /// envelope's is its sub-type tag and its children, each child padded to even length.
    pub open spec fn payload_len(self) -> nat
        decreases self, 0nat,
    {
        match self {
            Tree::Envelope { chunks, .. } => 4 + children_len(chunks),
            Tree::Data { data, .. } => data.len(),
        }
    }

    /// Header and payload together, without the pad byte.
    pub open spec fn total_len(self) -> nat
        decreases self, 1nat,
    {
        8 + self.payload_len()
    }

    /// Header, payload and pad byte: the space the chunk takes in its container.
    pub open spec fn padded_len(self) -> nat
        decreases self, 2nat,
    {
        self.total_len() + pad_len(self.total_len())
    }

    /// The bytes that the chunk is written as.
    pub open spec fn encoding(self) -> Seq<u8>
        decreases self,
    {
        match self {
            Tree::Envelope { envelope_id, id, chunks } => envelope_id.bytes() + be32(
                4 + children_len(chunks),
            ) + id.bytes() + children_encoding(chunks) + padding(4 + children_len(chunks)),
            Tree::Data { id, data } => id.bytes() + be32(data.len()) + data + padding(data.len()),
        }
    }

    /// A tree that reading can give back: envelope tags on envelopes only, and every
    /// declared size within 32 bits.
    pub open spec fn well_formed(self) -> bool
        decreases self,
    {
        match self {
            Tree::Envelope { envelope_id, chunks, .. } => {
                &&& envelope_id.is_envelope()
                &&& 4 + children_len(chunks) <= u32::MAX
                &&& forall|i: int| 0 <= i < chunks.len() ==> (#[trigger] chunks[i]).well_formed()
            },
            Tree::Data { id, data } => {
                &&& !id.is_envelope()
                &&& data.len() <= u32::MAX
            },
        }
    }

    /// The tree with `child` added behind its children. Only an envelope has children: a
    /// leaf stays as it is.
    pub open spec fn with_child(self, child: Tree) -> Tree {
        match self {
            Tree::Envelope { envelope_id, id, chunks } => Tree::Envelope {
                envelope_id,
                id,
                chunks: chunks.push(child),
            },
            Tree::Data { .. } => self,
        }
    }

    /// The tags and payloads of the direct leaf children, in order. Nested envelopes are
    /// passed over, not entered. A leaf has none.
    pub open spec fn leaves(self) -> Seq<(TypeID, Seq<u8>)> {
        match self {
            Tree::Envelope { chunks, .. } => leaves_of(chunks),
            Tree::Data { .. } => Seq::empty(),
        }
    }
}

/// The space that a run of sibling chunks takes: each one padded to even length.
pub open spec fn children_len(chunks: Seq<Tree>) -> nat
    decreases chunks, 0nat,
{
    if chunks.len() == 0 {
        0
    } else {
        children_len(chunks.drop_last()) + chunks.last().padded_len()
    }
}

/// The bytes of a run of sibling chunks: their encodings, one after the other.
pub open spec fn children_encoding(chunks: Seq<Tree>) -> Seq<u8>
    decreases chunks,
{
    if chunks.len() == 0 {
        Seq::empty()
    } else {
        children_encoding(chunks.drop_last()) + chunks.last().encoding()
    }
}

/// The leaves among a run of sibling chunks, in order.
pub open spec fn leaves_of(chunks: Seq<Tree>) -> Seq<(TypeID, Seq<u8>)>
    decreases chunks.len(),
{
    if chunks.len() == 0 {
        Seq::empty()
    } else {
        match chunks.last() {
            Tree::Data { id, data } => leaves_of(chunks.drop_last()).push((id, data)),
            Tree::Envelope { .. } => leaves_of(chunks.drop_last()),
        }
    }
}

/// What reading the front of `b` gives: the chunk that `b` starts with, or `None` where
/// `b` is too short for a header, the declared size runs past the end of `b`, an
/// envelope declares fewer than four payload bytes, or a nested chunk fails in its turn.
/// Bytes of `b` behind the chunk are not looked at.
pub open spec fn parse_chunk(b: Seq<u8>) -> Option<Tree>
    decreases b.len(), 0nat,
{
    if b.len() < 8 {
        None
    } else {
        let tag = tag_at(b, 0);
        let size = be32_at(b, 4);
        if 8 + size > b.len() {
            None
        } else if tag.is_envelope() {
            if size < 4 {
                None
            } else {
                match parse_children(b.subrange(12, 8 + size as int)) {
                    Some(chunks) => Some(
                        Tree::Envelope { envelope_id: tag, id: tag_at(b, 8), chunks },
                    ),
                    None => None,
                }
            }
        } else {
            Some(Tree::Data { id: tag, data: b.subrange(8, 8 + size as int) })
        }
    }
}

/// What reading gives for the children of an envelope, `b` being the envelope's payload
/// behind its sub-type tag: chunk after chunk until `b` is used up, each followed by a
/// pad byte of any value where its length is odd. The pad byte of the last child may lie
/// beyond the end of `b`.
pub open spec fn parse_children(b: Seq<u8>) -> Option<Seq<Tree>>
    decreases b.len(), 1nat,
{
    if b.len() == 0 {
        Some(Seq::empty())
    } else {
        match parse_chunk(b) {
            Some(first) => {
                let used = if first.padded_len() <= b.len() {
                    first.padded_len()
                } else {
                    b.len()
                };
                match parse_children(b.skip(used as int)) {
                    Some(rest) => Some(seq![first] + rest),
                    None => None,
                }
            },
            None => None,
        }
    }
}

} // verus!

//! The four-byte tag that names the kind of a chunk.

use std::cmp::Ordering;
use vstd::prelude::*;

verus! {

/// The Type ID of a chunk: four raw bytes, compared byte by byte.
///
/// Any four bytes are a Type ID; no character set is imposed.
#[derive(Clone, Copy, Debug, Eq, Hash, Ord)]
pub struct TypeID(pub [u8; 4]);

/// The bytes of the envelope tag `FORM`.
pub const FORM: [u8; 4] = [0x46, 0x4f, 0x52, 0x4d];

/// The bytes of the envelope tag `CAT ` (with its trailing space).
pub const CAT: [u8; 4] = [0x43, 0x41, 0x54, 0x20];

/// The bytes of the envelope tag `LIST`.
pub const LIST: [u8; 4] = [0x4c, 0x49, 0x53, 0x54];

/// The bytes of the envelope tag `PROP`.
pub const PROP: [u8; 4] = [0x50, 0x52, 0x4f, 0x50];

/// The string of four characters, made by `format!`. That the result holds the four
/// characters in order, and nothing else, is taken from the documentation of `format!`
/// and of `char`'s `Display`; it is not proved here.
#[verifier::external_body]
fn four_chars(a: char, b: char, c: char, d: char) -> (r: String)
    ensures
        r@ == seq![a, b, c, d],
{
    format!("{}{}{}{}", a, b, c, d)
}

impl TypeID {
    /// The four bytes of the tag, in order.
    pub open spec fn bytes(self) -> Seq<u8> {
        self.0@
    }

    /// Whether the tag is one of the four that hold nested chunks.
    pub open spec fn spec_is_envelope(self) -> bool {
        ||| self == TypeID(FORM)
        ||| self == TypeID(CAT)
        ||| self == TypeID(LIST)
        ||| self == TypeID(PROP)
    }

    /// How the tag stands to `other`: the order of the first byte in which they differ.
    pub open spec fn order(self, other: TypeID) -> Ordering {
        if self.0[0] != other.0[0] {
            if self.0[0] < other.0[0] {
                Ordering::Less
            } else {
                Ordering::Greater
            }
        } else if self.0[1] != other.0[1] {
            if self.0[1] < other.0[1] {
                Ordering::Less
            } else {
                Ordering::Greater
            }
        } else if self.0[2] != other.0[2] {
            if self.0[2] < other.0[2] {
                Ordering::Less
            } else {
                Ordering::Greater
            }
        } else if self.0[3] != other.0[3] {
            if self.0[3] < other.0[3] {
                Ordering::Less
            } else {
                Ordering::Greater
            }
        } else {
            Ordering::Equal
        }
    }

    /// The order of tags is total: two tags are equal, or one comes before the other, and
    /// what comes before does not come after.
    pub proof fn lemma_order_total(self, other: TypeID)
        ensures
            self.order(other) == Ordering::Equal <==> self == other,
            self.order(other) == Ordering::Less <==> other.order(self) == Ordering::Greater,
            self.order(other) == Ordering::Greater <==> other.order(self) == Ordering::Less,
    {
        if self.order(other) == Ordering::Equal {
            assert(self.0 =~= other.0);
        }
    }

    /// The order of tags is transitive.
    pub proof fn lemma_order_transitive(self, middle: TypeID, other: TypeID)
        requires
            self.order(middle) == Ordering::Less,
            middle.order(other) == Ordering::Less,
        ensures
            self.order(other) == Ordering::Less,
    {
    }

    /// Two tags are equal exactly when their four bytes agree.
    pub proof fn lemma_eq_by_bytes(self, other: TypeID)
        ensures
            (self == other) <==> (self.bytes() == other.bytes()),
            self.bytes().len() == 4,
    {
        if self.bytes() == other.bytes() {
            assert(self.0 =~= other.0);
        }
    }

    /// Test for Type IDs defined to contain nested chunks.
    #[verifier::when_used_as_spec(spec_is_envelope)]
    pub fn is_envelope(self) -> (r: bool)
        ensures
            r == self.spec_is_envelope(),
    {
        self.same(TypeID(FORM)) || self.same(TypeID(CAT)) || self.same(TypeID(LIST)) || self.same(
            TypeID(PROP),
        )
    }

    /// The tag as text: four characters, each the character of one byte.
    pub fn to_string(&self) -> (r: String)
        ensures
            r@ == seq![
                self.0[0] as char,
                self.0[1] as char,
                self.0[2] as char,
                self.0[3] as char,
            ],
    {
        four_chars(self.0[0] as char, self.0[1] as char, self.0[2] as char, self.0[3] as char)
    }

    /// Byte-wise comparison of two tags.
    fn same(self, other: TypeID) -> (r: bool)
        ensures
            r == (self == other),
    {
        let r = self.0[0] == other.0[0] && self.0[1] == other.0[1] && self.0[2] == other.0[2]
            && self.0[3] == other.0[3];
        proof {
            if r {
                assert(self.0 =~= other.0);
            }
        }
        r
    }
}

impl PartialEq for TypeID {
    fn eq(&self, other: &TypeID) -> (r: bool) {
        self.same(*other)
    }
}

impl vstd::std_specs::cmp::PartialEqSpecImpl for TypeID {
    open spec fn obeys_eq_spec() -> bool {
        true
    }

    open spec fn eq_spec(&self, other: &TypeID) -> bool {
        *self == *other
    }
}

impl PartialOrd for TypeID {
    fn partial_cmp(&self, other: &TypeID) -> (r: Option<Ordering>) {
        let mut i: usize = 0;
        while i < 4
            invariant
                i <= 4,
                forall|j: int| 0 <= j < i ==> self.0[j] == other.0[j],
            decreases 4 - i,
        {
            if self.0[i] < other.0[i] {
                return Some(Ordering::Less);
            }
            if self.0[i] > other.0[i] {
                return Some(Ordering::Greater);
            }
            i += 1;
        }
        Some(Ordering::Equal)
    }
}

impl vstd::std_specs::cmp::PartialOrdSpecImpl for TypeID {
    open spec fn obeys_partial_cmp_spec() -> bool {
        true
    }

    open spec fn partial_cmp_spec(&self, other: &TypeID) -> Option<Ordering> {
        Some(self.order(*other))
    }
}

impl<'a> From<&'a [u8; 4]> for TypeID {
    /// Create a Type ID from an array: an exact copy of its four bytes.
    fn from(id: &'a [u8; 4]) -> (r: TypeID) {
        let r = TypeID([id[0], id[1], id[2], id[3]]);
        proof {
            assert(r.0 =~= *id);
        }
        r
    }
}

impl<'a> vstd::std_specs::convert::FromSpecImpl<&'a [u8; 4]> for TypeID {
    open spec fn obeys_from_spec() -> bool {
        true
    }

    open spec fn from_spec(id: &'a [u8; 4]) -> TypeID {
        TypeID(*id)
    }
}

} // verus!

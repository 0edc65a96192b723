//! The per-key identity a limit is tracked against.

use vstd::prelude::*;
use vstd::string::StringSliceAdditionalSpecFns;

verus! {

broadcast use vstd::array::group_array_axioms;

/// Keys up to this many bytes are stored inline, with no heap allocation: an
/// IPv6 address (16 bytes), a `u64` id (8) and short string keys all fit.
pub const INLINE_CAP: usize = 23;

/// How a key's bytes are held.
#[derive(Debug, PartialEq, Eq, Hash)]
enum Repr {
    /// The first `len` bytes of `buf`; the rest are zero.
    Inline { buf: [u8; INLINE_CAP], len: u8 },
    /// Bytes too long to hold inline.
    Heap(Vec<u8>),
}

/// An opaque identity a rate limit is tracked against: an IP address, a user
/// id, an API token, an endpoint name.
///
/// A key is an owned byte string, held inline up to [`INLINE_CAP`] bytes and on
/// the heap beyond; two keys are the same identity exactly when their bytes
/// are equal, whatever type they were built from. The check methods accept
/// anything that converts into a `Key`.
#[derive(Debug, PartialEq, Eq, Hash)]
pub struct Key(Repr);

impl View for Key {
    type V = Seq<u8>;

    closed spec fn view(&self) -> Seq<u8> {
        match self.0 {
            Repr::Inline { buf, len } => buf@.subrange(0, len as int),
            Repr::Heap(v) => v@,
        }
    }
}

/// The eight bytes of `value`, most significant first.
pub open spec fn be_bytes(value: u64) -> Seq<u8> {
    seq![
        (value >> 56u64) as u8,
        (value >> 48u64) as u8,
        (value >> 40u64) as u8,
        (value >> 32u64) as u8,
        (value >> 24u64) as u8,
        (value >> 16u64) as u8,
        (value >> 8u64) as u8,
        value as u8,
    ]
}

impl Key {
    /// One representation per byte string: inline exactly when the bytes fit,
    /// with the unused part of the buffer zero. Equal bytes give equal keys.
    #[verifier::type_invariant]
    closed spec fn canonical(self) -> bool {
        match self.0 {
            Repr::Inline { buf, len } => len <= INLINE_CAP && forall|j: int|
                len <= j < INLINE_CAP ==> #[trigger] buf@[j] == 0,
            Repr::Heap(v) => v@.len() > INLINE_CAP,
        }
    }

    /// Builds a key holding a copy of `bytes`, inline when they fit.
    pub(crate) fn from_bytes(bytes: &[u8]) -> (r: Self)
        ensures
            r@ == bytes@,
    {
        let len: usize = bytes.len();
        if len <= INLINE_CAP {
            let mut buf: [u8; INLINE_CAP] = [0u8; 23];
            let mut i: usize = 0;
            while i < INLINE_CAP
                invariant
                    len == bytes@.len(),
                    len <= INLINE_CAP,
                    0 <= i <= INLINE_CAP,
                    forall|j: int| 0 <= j < i && j < len ==> #[trigger] buf@[j] == bytes@[j],
                    forall|j: int| len <= j < i ==> #[trigger] buf@[j] == 0,
                decreases INLINE_CAP - i,
            {
                let b: u8 = if i < len { bytes[i] } else { 0u8 };
                buf[i] = b;
                i = i + 1;
            }
            assert(buf@.subrange(0, len as int) =~= bytes@);
            Key(Repr::Inline { buf, len: len as u8 })
        } else {
            let mut out: Vec<u8> = Vec::with_capacity(len);
            let mut i: usize = 0;
            while i < len
                invariant
                    len == bytes@.len(),
                    0 <= i <= len,
                    out@ == bytes@.subrange(0, i as int),
                decreases len - i,
            {
                out.push(bytes[i]);
                i = i + 1;
                assert(out@ =~= bytes@.subrange(0, i as int));
            }
            assert(out@ =~= bytes@);
            Key(Repr::Heap(out))
        }
    }

    /// Borrows the raw bytes that make up the key.
    #[must_use]
    pub fn as_bytes(&self) -> (r: &[u8])
        ensures
            r@ == self@,
    {
        proof {
            use_type_invariant(self);
        }
        match &self.0 {
            Repr::Inline { buf, len } => vstd::slice::slice_subrange(buf.as_slice(), 0, *len as usize),
            Repr::Heap(v) => v.as_slice(),
        }
    }

    /// Whether the key's bytes are held inline, with no heap allocation: they
    /// are, exactly when there are at most [`INLINE_CAP`] of them.
    #[must_use]
    pub fn is_inline(&self) -> (r: bool)
        ensures
            r == (self@.len() <= INLINE_CAP),
    {
        proof {
            use_type_invariant(self);
        }
        match &self.0 {
            Repr::Inline { .. } => true,
            Repr::Heap(_) => false,
        }
    }

    /// Whether two keys are the same identity: their bytes are equal.
    pub fn same_as(&self, other: &Key) -> (r: bool)
        ensures
            r == (self@ == other@),
    {
        let a: &[u8] = self.as_bytes();
        let b: &[u8] = other.as_bytes();
        if a.len() != b.len() {
            assert(self@.len() != other@.len());
            return false;
        }
        let mut i: usize = 0;
        while i < a.len()
            invariant
                a@.len() == b@.len(),
                a@ == self@,
                b@ == other@,
                0 <= i <= a@.len(),
                forall|j: int| 0 <= j < i ==> a@[j] == b@[j],
            decreases a@.len() - i,
        {
            if a[i] != b[i] {
                assert(self@[i as int] != other@[i as int]);
                return false;
            }
            i = i + 1;
        }
        assert(a@ =~= b@);
        true
    }
}

impl Clone for Key {
    /// A key with the same bytes.
    fn clone(&self) -> (r: Self)
        ensures
            r@ == self@,
    {
        Key::from_bytes(self.as_bytes())
    }
}

impl From<&str> for Key {
    /// The UTF-8 bytes of the string.
    fn from(value: &str) -> (r: Self)
        ensures
            r@ == value.spec_bytes(),
    {
        Key::from_bytes(value.as_bytes())
    }
}

impl vstd::std_specs::convert::FromSpecImpl<&str> for Key {
    open spec fn obeys_from_spec() -> bool {
        false
    }

    open spec fn from_spec(v: &str) -> Key {
        choose|k: Key| k@ == v.spec_bytes()
    }
}

impl From<String> for Key {
    /// The UTF-8 bytes of the string.
    fn from(value: String) -> (r: Self)
        ensures
            r@ == vstd::utf8::encode_utf8(value@),
    {
        Key::from_bytes(value.as_str().as_bytes())
    }
}

impl vstd::std_specs::convert::FromSpecImpl<String> for Key {
    open spec fn obeys_from_spec() -> bool {
        false
    }

    open spec fn from_spec(v: String) -> Key {
        choose|k: Key| k@ == vstd::utf8::encode_utf8(v@)
    }
}

impl From<&[u8]> for Key {
    /// The bytes themselves.
    fn from(value: &[u8]) -> (r: Self)
        ensures
            r@ == value@,
    {
        Key::from_bytes(value)
    }
}

impl vstd::std_specs::convert::FromSpecImpl<&[u8]> for Key {
    open spec fn obeys_from_spec() -> bool {
        false
    }

    open spec fn from_spec(v: &[u8]) -> Key {
        choose|k: Key| k@ == v@
    }
}

impl From<Vec<u8>> for Key {
    /// The bytes themselves.
    fn from(value: Vec<u8>) -> (r: Self)
        ensures
            r@ == value@,
    {
        if value.len() <= INLINE_CAP {
            Key::from_bytes(value.as_slice())
        } else {
            Key(Repr::Heap(value))
        }
    }
}

impl vstd::std_specs::convert::FromSpecImpl<Vec<u8>> for Key {
    open spec fn obeys_from_spec() -> bool {
        false
    }

    open spec fn from_spec(v: Vec<u8>) -> Key {
        choose|k: Key| k@ == v@
    }
}

impl From<u64> for Key {
    /// The eight big-endian bytes of the number.
    fn from(value: u64) -> (r: Self)
        ensures
            r@ == be_bytes(value),
    {
        let bytes: [u8; 8] = [
            (value >> 56u64) as u8,
            (value >> 48u64) as u8,
            (value >> 40u64) as u8,
            (value >> 32u64) as u8,
            (value >> 24u64) as u8,
            (value >> 16u64) as u8,
            (value >> 8u64) as u8,
            value as u8,
        ];
        assert(bytes@ =~= be_bytes(value));
        Key::from_bytes(bytes.as_slice())
    }
}

impl vstd::std_specs::convert::FromSpecImpl<u64> for Key {
    open spec fn obeys_from_spec() -> bool {
        false
    }

    open spec fn from_spec(v: u64) -> Key {
        choose|k: Key| k@ == be_bytes(v)
    }
}

} // verus!

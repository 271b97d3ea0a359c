//! Hash kinds and object ids, held as plain bytes.

use vstd::prelude::*;

verus! {

/// The kind of hash an object id is computed with.
#[derive(Clone, Copy, Debug, PartialEq, Eq)]
pub enum HashKind {
    /// SHA-1, 20 bytes.
    Sha1,
    /// SHA-256, 32 bytes.
    Sha256,
}

/// The number of bytes of a digest of `kind`.
pub open spec fn spec_len_in_bytes(kind: HashKind) -> nat {
    match kind {
        HashKind::Sha1 => 20,
        HashKind::Sha256 => 32,
    }
}

impl HashKind {
    /// The number of bytes of a digest of this kind.
    pub fn len_in_bytes(&self) -> (len: usize)
        ensures
            len == spec_len_in_bytes(*self),
    {
        match self {
            HashKind::Sha1 => 20,
            HashKind::Sha256 => 32,
        }
    }

    /// The id made of zero bytes only, for this kind.
    pub fn null(&self) -> (id: ObjectId)
        ensures
            id@ == Seq::new(spec_len_in_bytes(*self), |i: int| 0u8),
    {
        let len = self.len_in_bytes();
        let mut bytes: Vec<u8> = Vec::new();
        while bytes.len() < len
            invariant
                len == spec_len_in_bytes(*self),
                bytes.len() <= len,
                forall|i: int| 0 <= i < bytes.len() ==> bytes@[i] == 0u8,
            decreases len - bytes.len(),
        {
            bytes.push(0u8);
        }
        assert(bytes@ =~= Seq::new(spec_len_in_bytes(*self), |i: int| 0u8));
        ObjectId { bytes }
    }
}

/// The id of an object: the 20 bytes of a SHA-1 or the 32 bytes of a SHA-256 digest.
#[derive(Debug)]
pub struct ObjectId {
    bytes: Vec<u8>,
}

impl View for ObjectId {
    type V = Seq<u8>;

    closed spec fn view(&self) -> Seq<u8> {
        self.bytes@
    }
}

impl ObjectId {
    #[verifier::type_invariant]
    spec fn digest_sized(self) -> bool {
        self.bytes@.len() == 20 || self.bytes@.len() == 32
    }

    /// Create an id from the digest `bytes`, which must be 20 or 32 bytes long.
    pub fn from_bytes_or_panic(bytes: &[u8]) -> (id: ObjectId)
        requires
            bytes@.len() == 20 || bytes@.len() == 32,
        ensures
            id@ == bytes@,
    {
        let mut out: Vec<u8> = Vec::new();
        let mut i: usize = 0;
        while i < bytes.len()
            invariant
                i <= bytes@.len(),
                out@ == bytes@.take(i as int),
            decreases bytes.len() - i,
        {
            out.push(bytes[i]);
            i = i + 1;
            assert(out@ =~= bytes@.take(i as int));
        }
        assert(bytes@.take(bytes@.len() as int) =~= bytes@);
        ObjectId { bytes: out }
    }

    /// The digest bytes.
    pub fn as_bytes(&self) -> (bytes: &[u8])
        ensures
            bytes@ == self@,
    {
        self.bytes.as_slice()
    }
}

impl Clone for ObjectId {
    /// A copy of this id.
    fn clone(&self) -> (id: ObjectId)
        ensures
            id@ == self@,
    {
        proof {
            use_type_invariant(self);
        }
        ObjectId::from_bytes_or_panic(self.bytes.as_slice())
    }
}

} // verus!

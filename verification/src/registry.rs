//! The signature registry: a canonicalizing store from descriptors to
//! dense integer handles.

use vstd::prelude::*;

use crate::signature::SigView;
use crate::signature::Signature;

verus! {

/// All entries of a registry state are pairwise structurally distinct.
pub open spec fn distinct(s: Seq<SigView>) -> bool {
    forall|i: int, j: int| 0 <= i < s.len() && 0 <= j < s.len() && i != j ==> s[i] != s[j]
}

/// One successful `register` step: from the state `pre`, presenting the
/// descriptor `d` yields the handle `h` and leaves the state `post`. A known
/// descriptor changes nothing; a new one is appended and numbered with the
/// previous count. Either way `h` points at `d` in `post`.
pub open spec fn registered(pre: Seq<SigView>, d: SigView, h: int, post: Seq<SigView>) -> bool {
    &&& 0 <= h < post.len()
    &&& post[h] == d
    &&& if pre.contains(d) {
        post == pre
    } else {
        h == pre.len() && post == pre.push(d)
    }
}

/// The error `register` reports when the registry already holds as many
/// distinct descriptors as the handle width can count: one more would need a
/// handle value the type cannot represent.
#[derive(Clone, Copy, Debug, PartialEq, Eq, Structural)]
pub struct CapacityExceeded;

/// A canonical handle: a fixed-width integer standing for one distinct
/// descriptor within the registry instance that issued it. It has no meaning
/// outside that instance and supports nothing beyond equality comparison.
#[derive(Clone, Copy, Debug, PartialEq, Eq, Structural)]
pub struct VMSharedSignatureIndex(pub u32);

/// A registry of function signatures, for fast indirect-call signature
/// checking: call sites compare two handles instead of two full descriptors.
///
/// The registry owns a bijective mapping between the distinct descriptors
/// seen so far and the handles issued so far. Handles form the contiguous
/// range `0 .. n`, in first-seen order; they are never reused and never
/// renumbered. An instance is not internally synchronized: confine it to one
/// logical thread, or guard both the probe and the insert of [`register`]
/// with one lock.
///
/// [`register`]: SignatureRegistry::register
pub struct SignatureRegistry {
    entries: Vec<Signature>,
}

impl View for SignatureRegistry {
    type V = Seq<SigView>;

    /// The state: the distinct descriptors stored so far, in first-seen
    /// order, so that the descriptor with handle `h` is `self@[h]`.
    closed spec fn view(&self) -> Seq<SigView> {
        self.entries@.map_values(|s: Signature| s@)
    }
}

impl SignatureRegistry {
    /// Entries are pairwise distinct (each descriptor is stored once, so the
    /// mapping is a bijection) and never outnumber the handle width's range.
    #[verifier::type_invariant]
    spec fn wf(&self) -> bool {
        &&& distinct(self@)
        &&& self@.len() <= u32::MAX as int
    }

    /// Create a new, empty `SignatureRegistry`.
    pub fn new() -> (r: Self)
        ensures
            r@ == Seq::<SigView>::empty(),
    {
        let r = SignatureRegistry { entries: Vec::new() };
        proof {
            assert(r@ =~= Seq::<SigView>::empty());
        }
        r
    }

    /// Register a signature and return its unique index.
    ///
    /// A descriptor structurally equal to one seen before returns the very
    /// handle issued then, and the registry is unchanged. A new descriptor
    /// is stored (as an independent copy) and numbered with the previous
    /// count — unless that count has reached the handle width's maximum, in
    /// which case the call fails with [`CapacityExceeded`] and the registry
    /// is left exactly as it was.
    pub fn register(&mut self, sig: &Signature) -> (r: Result<
        VMSharedSignatureIndex,
        CapacityExceeded,
    >)
        ensures
            distinct(final(self)@),
            match r {
                Ok(h) => registered(old(self)@, sig@, h.0 as int, final(self)@),
                Err(_) => {
                    &&& !old(self)@.contains(sig@)
                    &&& old(self)@.len() == u32::MAX as int
                    &&& final(self)@ == old(self)@
                },
            },
            r is Err <==> (!old(self)@.contains(sig@) && old(self)@.len() == u32::MAX as int),
    {
        proof {
            use_type_invariant(&*self);
        }
        let n = self.entries.len();
        let mut i: usize = 0;
        while i < n
            invariant
                *self == *old(self),
                distinct(self@),
                self@.len() <= u32::MAX as int,
                n == self.entries.len(),
                0 <= i <= n,
                forall|j: int| 0 <= j < i ==> self@[j] != sig@,
            decreases n - i,
        {
            if self.entries[i] == *sig {
                proof {
                    assert(self@[i as int] == sig@);
                    assert(self@.contains(sig@));
                }
                return Ok(VMSharedSignatureIndex(i as u32));
            }
            proof {
                assert(self@[i as int] != sig@);
            }
            i += 1;
        }
        proof {
            assert(forall|j: int| 0 <= j < self@.len() ==> self@[j] != sig@);
            assert(!self@.contains(sig@));
        }
        if n == u32::MAX as usize {
            return Err(CapacityExceeded);
        }
        let stored = sig.clone();
        let mut entries = Vec::new();
        std::mem::swap(&mut entries, &mut self.entries);
        proof {
            assert(self@ =~= Seq::<SigView>::empty());
        }
        entries.push(stored);
        proof {
            assert(entries@.map_values(|s: Signature| s@) =~= old(self)@.push(sig@));
        }
        self.entries = entries;
        Ok(VMSharedSignatureIndex(n as u32))
    }
}

} // verus!

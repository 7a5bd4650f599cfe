//! Digests of sequences of field elements.
use vstd::prelude::*;

use crate::felt::MODULUS;
use winter_crypto::hashers::Rp64_256;
use winter_crypto::ElementHasher;

verus! {

/// A digest: four field elements.
#[derive(Clone, Copy, Debug, PartialEq, Eq, Structural)]
pub struct Digest {
    pub e0: u64,
    pub e1: u64,
    pub e2: u64,
    pub e3: u64,
}

impl Digest {
    /// The elements of the digest in order.
    pub open spec fn elements(self) -> Seq<u64> {
        seq![self.e0, self.e1, self.e2, self.e3]
    }

    /// The digest of a sequence of field elements, with canonical elements.
    pub open spec fn of(elements: Seq<u64>) -> Digest {
        let d = rescue_prime(elements);
        Digest {
            e0: d[0] % MODULUS,
            e1: d[1] % MODULUS,
            e2: d[2] % MODULUS,
            e3: d[3] % MODULUS,
        }
    }

    /// True if all elements of the digest are canonical.
    pub open spec fn is_canonical(self) -> bool {
        self.e0 < MODULUS && self.e1 < MODULUS && self.e2 < MODULUS && self.e3 < MODULUS
    }
}

/// The four elements of the Rescue Prime digest of a sequence of field elements.
pub uninterp spec fn rescue_prime(elements: Seq<u64>) -> Seq<u64>;

/// Calls `Rp64_256::hash_elements` of winter-crypto on the field elements with the given
/// integers, and hands back the integers of the four elements of the digest. Claimed is that the
/// digest is a function of the integers alone; which function it is stays unsaid.
#[verifier::external_body]
fn hash_elements(elements: &Vec<u64>) -> (r: [u64; 4])
    ensures
        r@ == rescue_prime(elements@),
{
    let input: Vec<<Rp64_256 as ElementHasher>::BaseField> =
        elements.iter().map(|e| <Rp64_256 as ElementHasher>::BaseField::new(*e)).collect();
    let digest: [<Rp64_256 as ElementHasher>::BaseField; 4] =
        Rp64_256::hash_elements(&input).into();
    digest.map(|e| e.as_int())
}

/// Returns the digest of the field elements with the given integers.
pub fn hash(elements: &Vec<u64>) -> (r: Digest)
    ensures
        r == Digest::of(elements@),
{
    let d = hash_elements(elements);
    Digest {
        e0: d[0] % MODULUS,
        e1: d[1] % MODULUS,
        e2: d[2] % MODULUS,
        e3: d[3] % MODULUS,
    }
}

} // verus!

//! Elements of the prime field in which the virtual machine computes.
use vstd::prelude::*;

verus! {

/// Modulus of the field: 2^64 - 2^32 + 1.
pub const MODULUS: u64 = 0xffff_ffff_0000_0001;

/// An element of the field, held as an integer.
#[derive(Clone, Copy, Debug, PartialEq, Eq, Structural)]
pub struct Felt {
    pub value: u64,
}

impl Felt {
    /// An element is canonical when its integer is smaller than the modulus.
    pub open spec fn wf(self) -> bool {
        self.value < MODULUS
    }

    /// The canonical element of the residue class of `n`.
    pub open spec fn of(n: int) -> Felt {
        Felt { value: (n % (MODULUS as int)) as u64 }
    }

    /// Returns the canonical integer of this element.
    pub fn as_int(&self) -> (r: u64)
        ensures
            r == self.value as int % MODULUS as int,
    {
        self.value % MODULUS
    }
}

impl vstd::std_specs::convert::FromSpecImpl<u64> for Felt {
    open spec fn obeys_from_spec() -> bool {
        true
    }

    open spec fn from_spec(v: u64) -> Felt {
        Felt::of(v as int)
    }
}

impl From<u64> for Felt {
    /// Converts an integer into the element of its residue class.
    fn from(v: u64) -> (r: Felt)
        ensures
            r.wf(),
            r.value == v as int % MODULUS as int,
    {
        Felt { value: v % MODULUS }
    }
}

impl vstd::std_specs::convert::FromSpecImpl<u32> for Felt {
    open spec fn obeys_from_spec() -> bool {
        true
    }

    open spec fn from_spec(v: u32) -> Felt {
        Felt::of(v as int)
    }
}

impl From<u32> for Felt {
    /// Converts an integer into the element of its residue class.
    fn from(v: u32) -> (r: Felt)
        ensures
            r.wf(),
            r.value == v,
    {
        Felt { value: v as u64 }
    }
}

impl vstd::std_specs::ops::NegSpecImpl for Felt {
    open spec fn obeys_neg_spec() -> bool {
        true
    }

    open spec fn neg_req(self) -> bool {
        true
    }

    open spec fn neg_spec(self) -> Felt {
        Felt::of(-(self.value as int))
    }
}

impl core::ops::Neg for Felt {
    type Output = Felt;

    /// Returns the additive inverse of this element.
    fn neg(self) -> (r: Felt)
        ensures
            r.wf(),
            (r.value + self.value) % (MODULUS as int) == 0,
    {
        let canonical: u64 = self.value % MODULUS;
        let value: u64 = if canonical == 0 { 0 } else { MODULUS - canonical };
        proof {
            lemma_neg_residue(self.value as int);
            vstd::arithmetic::div_mod::lemma_add_mod_noop(
                value as int,
                self.value as int,
                MODULUS as int,
            );
        }
        Felt { value }
    }
}

/// The residue of `-n` is the distance from the residue of `n` up to the modulus.
proof fn lemma_neg_residue(n: int)
    ensures
        (-n) % (MODULUS as int) == (if n % (MODULUS as int) == 0 { 0 } else {
            MODULUS - n % (MODULUS as int)
        }),
{
    let m = MODULUS as int;
    vstd::arithmetic::div_mod::lemma_fundamental_div_mod(n, m);
    let q = n / m;
    let r = n % m;
    if r == 0 {
        assert(-n == m * (-q) + 0) by (nonlinear_arith)
            requires
                n == m * q + r,
                r == 0,
        ;
        vstd::arithmetic::div_mod::lemma_fundamental_div_mod_converse(-n, m, -q, 0);
    } else {
        assert(-n == m * (-q - 1) + (m - r)) by (nonlinear_arith)
            requires
                n == m * q + r,
        ;
        vstd::arithmetic::div_mod::lemma_fundamental_div_mod_converse(-n, m, -q - 1, m - r);
    }
}

/// An element and its negation sum to zero in the field.
pub proof fn lemma_neg_is_additive_inverse(n: int)
    ensures
        (Felt::of(n).value + Felt::of(-n).value) % (MODULUS as int) == 0,
        Felt::of(n).wf(),
        Felt::of(-n).wf(),
{
    lemma_neg_residue(n);
}

} // verus!

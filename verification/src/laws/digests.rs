//! Digests tell blocks apart.
use vstd::prelude::*;

use crate::code_block::{self, Mast};
use crate::felt::{Felt, MODULUS};
use crate::hasher::{self, Digest};
use crate::operation::Operation;

verus! {

/// True if all elements are canonical.
pub open spec fn canonical(elements: Seq<u64>) -> bool {
    forall|i: int| 0 <= i < elements.len() ==> #[trigger] elements[i] < MODULUS
}

/// True if the two blocks have one digest, though it is computed from different field elements.
pub open spec fn collide(a: Mast, b: Mast) -> bool {
    &&& a.digest() == b.digest()
    &&& a.preimage() != b.preimage()
    &&& canonical(a.preimage())
    &&& canonical(b.preimage())
}

/// True if some part of the first block and some part of the second collide.
pub open spec fn parts_collide(a: Mast, b: Mast) -> bool {
    exists|p: Mast, q: Mast| a.has_part(p) && b.has_part(q) && #[trigger] collide(p, q)
}

/// The elements of canonical operations are canonical.
proof fn lemma_operations_canonical(ops: Seq<Operation>)
    requires
        Mast::Span(ops).is_canonical(),
    ensures
        canonical(code_block::operations_elements(ops)),
    decreases ops.len(),
{
    if ops.len() > 0 {
        let rest = ops.drop_last();
        assert(Mast::Span(rest).is_canonical()) by {
            assert forall|i: int| 0 <= i < rest.len() implies (
            #[trigger] rest[i] matches Operation::Push(felt) ==> felt.wf()) by {
                assert(rest[i] == ops[i]);
            }
        }
        lemma_operations_canonical(rest);
        assert(ops[ops.len() - 1] == ops.last());
        assert(canonical(code_block::operation_elements(ops.last())));
    }
}

/// The elements from which the digest of a canonical block is computed are canonical.
proof fn lemma_preimage_canonical(block: Mast)
    requires
        block.is_canonical(),
    ensures
        canonical(block.preimage()),
{
    match block {
        Mast::Span(ops) => {
            lemma_operations_canonical(ops);
        },
        _ => {},
    }
}

/// The elements of operations start with those of the first operation.
proof fn lemma_first_operation(ops: Seq<Operation>)
    requires
        ops.len() > 0,
    ensures
        code_block::operations_elements(ops) == code_block::operation_elements(ops[0])
            + code_block::operations_elements(ops.drop_first()),
    decreases ops.len(),
{
    let first = code_block::operation_elements(ops[0]);
    let last = code_block::operation_elements(ops.last());
    if ops.len() == 1 {
        assert(ops.drop_last() =~= Seq::empty());
        assert(ops.drop_first() =~= Seq::empty());
        assert(code_block::operations_elements(ops) =~= first
            + code_block::operations_elements(ops.drop_first()));
    } else {
        let init = ops.drop_last();
        lemma_first_operation(init);
        assert(ops.drop_first().drop_last() =~= init.drop_first());
        assert(ops.drop_first().last() == ops.last());
        assert(code_block::operations_elements(ops) =~= first
            + code_block::operations_elements(ops.drop_first()));
    }
}

/// Different operations have different elements.
proof fn lemma_operations(a: Seq<Operation>, b: Seq<Operation>)
    requires
        code_block::operations_elements(a) == code_block::operations_elements(b),
    ensures
        a == b,
    decreases a.len(),
{
    let elements = code_block::operations_elements(a);
    if a.len() > 0 {
        lemma_first_operation(a);
        assert(code_block::operation_elements(a[0]).len() > 0);
    }
    if b.len() > 0 {
        lemma_first_operation(b);
        assert(code_block::operation_elements(b[0]).len() > 0);
    }
    if a.len() == 0 || b.len() == 0 {
        assert(a.len() > 0 ==> elements.len() > 0);
        assert(b.len() > 0 ==> code_block::operations_elements(b).len() > 0);
        assert(a.len() == 0 ==> elements.len() == 0);
        assert(b.len() == 0 ==> code_block::operations_elements(b).len() == 0);
        assert(a =~= b);
    } else {
        let first_a = code_block::operation_elements(a[0]);
        let first_b = code_block::operation_elements(b[0]);
        let rest_a = code_block::operations_elements(a.drop_first());
        let rest_b = code_block::operations_elements(b.drop_first());
        assert((first_a + rest_a)[0] == first_a[0]);
        assert((first_b + rest_b)[0] == first_b[0]);
        assert(first_a.len() == first_b.len());
        assert(first_a =~= first_b) by {
            assert forall|i: int| 0 <= i < first_a.len() implies first_a[i] == first_b[i] by {
                assert((first_a + rest_a)[i] == first_a[i]);
                assert((first_b + rest_b)[i] == first_b[i]);
            }
        }
        assert(a[0] == b[0]) by {
            match (a[0], b[0]) {
                (Operation::Push(x), Operation::Push(y)) => {
                    assert(first_a[1] == x.value);
                    assert(first_b[1] == y.value);
                },
                _ => {},
            }
        }
        assert(rest_a =~= elements.skip(first_a.len() as int));
        assert(rest_b =~= elements.skip(first_b.len() as int));
        lemma_operations(a.drop_first(), b.drop_first());
        assert(a =~= seq![a[0]] + a.drop_first());
        assert(b =~= seq![b[0]] + b.drop_first());
    }
}

/// Digests with the same elements are the same.
proof fn lemma_digest_elements(a: Digest, b: Digest)
    requires
        a.elements() == b.elements(),
    ensures
        a == b,
{
    assert(a.elements()[0] == a.e0 && b.elements()[0] == b.e0);
    assert(a.elements()[1] == a.e1 && b.elements()[1] == b.e1);
    assert(a.elements()[2] == a.e2 && b.elements()[2] == b.e2);
    assert(a.elements()[3] == a.e3 && b.elements()[3] == b.e3);
}

/// The digests behind a first element.
proof fn lemma_one_digest(tag: u64, a: Digest, b: Digest)
    requires
        seq![tag] + a.elements() == seq![tag] + b.elements(),
    ensures
        a == b,
{
    assert((seq![tag] + a.elements()).skip(1) =~= a.elements());
    assert((seq![tag] + b.elements()).skip(1) =~= b.elements());
    lemma_digest_elements(a, b);
}

/// The two digests behind a first element.
proof fn lemma_two_digests(tag: u64, a: Digest, b: Digest, c: Digest, d: Digest)
    requires
        seq![tag] + a.elements() + b.elements() == seq![tag] + c.elements() + d.elements(),
    ensures
        a == c,
        b == d,
{
    let first = seq![tag] + a.elements() + b.elements();
    let second = seq![tag] + c.elements() + d.elements();
    assert(first.subrange(1, 5) =~= a.elements());
    assert(second.subrange(1, 5) =~= c.elements());
    assert(first.skip(5) =~= b.elements());
    assert(second.skip(5) =~= d.elements());
    lemma_digest_elements(a, c);
    lemma_digest_elements(b, d);
}

/// Parts of parts are parts.
proof fn lemma_inner_parts_collide(a: Mast, b: Mast, x: Mast, y: Mast)
    requires
        parts_collide(x, y),
        forall|part: Mast| x.has_part(part) ==> #[trigger] a.has_part(part),
        forall|part: Mast| y.has_part(part) ==> #[trigger] b.has_part(part),
    ensures
        parts_collide(a, b),
{
    let (p, q) = choose|p: Mast, q: Mast|
        x.has_part(p) && y.has_part(q) && #[trigger] collide(p, q);
    assert(a.has_part(p) && b.has_part(q) && collide(p, q));
}

/// Two canonical blocks with the same digest are the same block, unless the hash function fails
/// on a part of the one and a part of the other: the two parts have one digest, though it is
/// computed from different field elements.
pub proof fn lemma_digest_identifies_block(a: Mast, b: Mast)
    requires
        a.is_canonical(),
        b.is_canonical(),
        a.digest() == b.digest(),
    ensures
        a == b || parts_collide(a, b),
    decreases a,
{
    if a.preimage() != b.preimage() {
        lemma_preimage_canonical(a);
        lemma_preimage_canonical(b);
        assert(a.has_part(a) && b.has_part(b) && collide(a, b));
    } else {
        assert(a.preimage()[0] == b.preimage()[0]);
        match (a, b) {
            (Mast::Span(x), Mast::Span(y)) => {
                let first = code_block::operations_elements(x);
                let second = code_block::operations_elements(y);
                assert((seq![0u64] + first).skip(1) =~= first);
                assert((seq![0u64] + second).skip(1) =~= second);
                lemma_operations(x, y);
            },
            (Mast::Join(x, y), Mast::Join(z, w)) => {
                lemma_two_digests(1, x.digest(), y.digest(), z.digest(), w.digest());
                lemma_digest_identifies_block(*x, *z);
                lemma_digest_identifies_block(*y, *w);
                if parts_collide(*x, *z) {
                    lemma_inner_parts_collide(a, b, *x, *z);
                }
                if parts_collide(*y, *w) {
                    lemma_inner_parts_collide(a, b, *y, *w);
                }
            },
            (Mast::Split(x, y), Mast::Split(z, w)) => {
                lemma_two_digests(2, x.digest(), y.digest(), z.digest(), w.digest());
                lemma_digest_identifies_block(*x, *z);
                lemma_digest_identifies_block(*y, *w);
                if parts_collide(*x, *z) {
                    lemma_inner_parts_collide(a, b, *x, *z);
                }
                if parts_collide(*y, *w) {
                    lemma_inner_parts_collide(a, b, *y, *w);
                }
            },
            (Mast::Loop(x), Mast::Loop(y)) => {
                lemma_one_digest(3, x.digest(), y.digest());
                lemma_digest_identifies_block(*x, *y);
                if parts_collide(*x, *y) {
                    lemma_inner_parts_collide(a, b, *x, *y);
                }
            },
            (Mast::Call(x), Mast::Call(y)) => {
                lemma_one_digest(4, x, y);
            },
            (Mast::SysCall(x), Mast::SysCall(y)) => {
                lemma_one_digest(5, x, y);
            },
            _ => {},
        }
    }
}

/// The field elements of operations are those of one after those of the other; each operation has
/// a number, and the element which is pushed stands behind it.
pub proof fn lemma_operation_elements(
    felt: Felt,
    first: Seq<Operation>,
    second: Seq<Operation>,
)
    ensures
        code_block::operations_elements(seq![Operation::Noop]) == seq![0u64],
        code_block::operations_elements(seq![Operation::Add]) == seq![1u64],
        code_block::operations_elements(seq![Operation::FmpUpdate]) == seq![2u64],
        code_block::operations_elements(seq![Operation::Push(felt)]) == seq![3u64, felt.value],
        code_block::operations_elements(first + second) == code_block::operations_elements(first)
            + code_block::operations_elements(second),
    decreases second.len(),
{
    let all = first + second;
    lemma_one_operation(Operation::Noop);
    lemma_one_operation(Operation::Add);
    lemma_one_operation(Operation::FmpUpdate);
    lemma_one_operation(Operation::Push(felt));
    if second.len() == 0 {
        assert(all =~= first);
        assert(code_block::operations_elements(all) =~= code_block::operations_elements(first)
            + code_block::operations_elements(second));
    } else {
        lemma_operation_elements(felt, first, second.drop_last());
        assert(all.drop_last() =~= first + second.drop_last());
        assert(all.last() == second.last());
        assert(code_block::operations_elements(all) =~= code_block::operations_elements(first)
            + code_block::operations_elements(second));
    }
}

/// The elements of a single operation.
proof fn lemma_one_operation(op: Operation)
    ensures
        code_block::operations_elements(seq![op]) == code_block::operation_elements(op),
{
    lemma_first_operation(seq![op]);
    assert(seq![op].drop_first() =~= Seq::empty());
    assert(code_block::operations_elements(seq![op]) =~= code_block::operation_elements(op));
}

/// The digest of a block is that of a number for the kind of the block, and behind it the elements
/// of its operations, or the digests of its inner blocks in order, or the digest which it calls.
/// The elements of a digest are canonical.
pub proof fn lemma_digest_input(
    ops: Seq<Operation>,
    first: Mast,
    second: Mast,
    target: Digest,
    elements: Seq<u64>,
)
    ensures
        ({
            let a = first.digest().elements();
            let b = second.digest().elements();
            let inner = code_block::operations_elements(ops);
            &&& Mast::Span(ops).digest() == Digest::of(seq![0u64] + inner)
            &&& Mast::Join(Box::new(first), Box::new(second)).digest() == Digest::of(
                seq![1u64] + a + b,
            )
            &&& Mast::Split(Box::new(first), Box::new(second)).digest() == Digest::of(
                seq![2u64] + a + b,
            )
            &&& Mast::Loop(Box::new(first)).digest() == Digest::of(seq![3u64] + a)
            &&& Mast::Call(target).digest() == Digest::of(seq![4u64] + target.elements())
            &&& Mast::SysCall(target).digest() == Digest::of(seq![5u64] + target.elements())
            &&& target.elements() == seq![target.e0, target.e1, target.e2, target.e3]
            &&& Digest::of(elements).is_canonical()
            &&& forall|i: int|
                0 <= i < 4 ==> #[trigger] Digest::of(elements).elements()[i] as int
                    == hasher::rescue_prime(elements)[i] as int % MODULUS as int
        }),
{
}

} // verus!

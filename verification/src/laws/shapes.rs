//! How blocks are put together: the shape of compiled code.
use vstd::arithmetic::power2::pow2;
use vstd::prelude::*;

use crate::code_block::Mast;
use crate::operation::Operation;
use crate::procedure::{CallSet, ProcId};

verus! {

/// Two rows of blocks, one behind the other; where a span meets a span, the two become one.
pub open spec fn glued(first: Seq<Mast>, second: Seq<Mast>) -> Seq<Mast> {
    if first.len() > 0 && second.len() > 0 {
        match (first.last(), second[0]) {
            (Mast::Span(before), Mast::Span(after)) => first.drop_last() + seq![
                Mast::Span(before + after),
            ] + second.drop_first(),
            _ => first + second,
        }
    } else {
        first + second
    }
}

/// A block alone has no neighbour to be put together with.
pub proof fn lemma_merged_single(block: Mast)
    ensures
        Mast::merged(Seq::empty()) == Seq::<Mast>::empty(),
        Mast::merged(seq![block]) == seq![block],
{
    reveal_with_fuel(Mast::merged, 3);
    assert(seq![block].drop_last() =~= Seq::empty());
    assert(Mast::merged(seq![block]) =~= seq![block]);
}

/// Blocks are put together in the same way whether this is done at once or in two parts: only
/// where the parts meet, a span and a span become one.
pub proof fn lemma_merged_parts(first: Seq<Mast>, second: Seq<Mast>)
    ensures
        Mast::merged(first + second) == glued(Mast::merged(first), Mast::merged(second)),
    decreases second.len(),
{
    let a = Mast::merged(first);
    if second.len() == 0 {
        assert(first + second =~= first);
        assert(Mast::merged(second) =~= Seq::empty());
        assert(glued(a, Mast::merged(second)) =~= a);
    } else {
        let rest = second.drop_last();
        let last = second.last();
        let b = Mast::merged(rest);
        let c = Mast::merged(second);
        lemma_merged_parts(first, rest);
        assert((first + second).drop_last() =~= first + rest);
        assert((first + second).last() == last);
        let before = glued(a, b);
        if b.len() == 0 {
            assert(before =~= a);
            assert(c =~= seq![last]);
            assert(Mast::merged(first + second) =~= glued(a, c));
        } else if b.len() == 1 {
            assert(before.len() > 0);
            match (last, b[0]) {
                (Mast::Span(ops), Mast::Span(middle)) => {
                    assert(c =~= seq![Mast::Span(middle + ops)]);
                    if a.len() > 0 && a.last() is Span {
                        let start = a.last()->Span_0;
                        assert(before.last() == Mast::Span(start + middle));
                        assert(start + middle + ops =~= start + (middle + ops));
                        assert(Mast::merged(first + second) =~= glued(a, c));
                    } else {
                        assert(before.last() == b[0]);
                        assert(Mast::merged(first + second) =~= glued(a, c));
                    }
                },
                _ => {
                    assert(c =~= b.push(last));
                    assert(Mast::merged(first + second) =~= glued(a, c));
                },
            }
        } else {
            assert(before.last() == b.last());
            assert(c[0] == b[0]);
            match (last, b.last()) {
                (Mast::Span(ops), Mast::Span(middle)) => {
                    assert(c =~= b.drop_last().push(Mast::Span(middle + ops)));
                    assert(Mast::merged(first + second) =~= glued(a, c));
                },
                _ => {
                    assert(c =~= b.push(last));
                    assert(Mast::merged(first + second) =~= glued(a, c));
                },
            }
        }
    }
}

/// Blocks are joined into a tree whose first branch holds as many of them as the largest power of
/// two below their number, and whose second branch holds the others; each branch is a tree of the
/// same kind. A single block is a tree by itself.
pub proof fn lemma_tree_branches(blocks: Seq<Mast>, k: nat)
    requires
        pow2(k) < blocks.len() <= 2 * pow2(k),
    ensures
        Mast::tree(blocks) == Mast::Join(
            Box::new(Mast::tree(blocks.take(pow2(k) as int))),
            Box::new(Mast::tree(blocks.skip(pow2(k) as int))),
        ),
        Mast::tree(seq![blocks[0]]) == blocks[0],
    decreases k,
{
    let n = blocks.len() as int;
    let m = pow2(k) as int;
    vstd::arithmetic::power2::lemma_pow2_pos(k);
    let pairs = Mast::paired(blocks);
    if k == 0 {
        vstd::arithmetic::power2::lemma2_to64();
        assert(m == 1 && n == 2);
        reveal_with_fuel(Mast::tree, 3);
        assert(blocks.take(1)[0] == blocks[0]);
        assert(blocks.skip(1)[0] == blocks[1]);
        assert(pairs.len() == 1);
        assert(pairs[0] == Mast::Join(Box::new(blocks[0]), Box::new(blocks[1])));
    } else {
        let less = (k - 1) as nat;
        vstd::arithmetic::power2::lemma_pow2_unfold(k);
        let h = pow2(less) as int;
        assert(m == 2 * h);
        vstd::arithmetic::power2::lemma_pow2_pos(less);
        assert(pairs.len() == (n + 1) / 2);
        lemma_tree_branches(pairs, less);
        let first = blocks.take(m);
        let second = blocks.skip(m);
        assert(Mast::paired(first) =~= pairs.take(h));
        assert(Mast::paired(second) =~= pairs.skip(h));
        assert(Mast::tree(first) == Mast::tree(pairs.take(h)));
        if second.len() == 1 {
            assert(pairs.skip(h).len() == 1);
            assert(pairs.skip(h)[0] == second[0]);
        }
        assert(Mast::tree(second) == Mast::tree(pairs.skip(h)));
    }
}

/// Blocks are combined into one by putting neighbouring spans together and joining what remains
/// into a tree; without blocks, this is a span of the operation which does nothing.
pub proof fn lemma_combined(blocks: Seq<Mast>)
    ensures
        Mast::combined(blocks) == Mast::tree(Mast::merged(blocks)),
        Mast::tree(Seq::empty()) == Mast::Span(seq![Operation::Noop]),
        Mast::combined(Seq::empty()) == Mast::Span(seq![Operation::Noop]),
{
}

/// Blocks which are put together in the same way stay so when others are put behind them.
pub(crate) proof fn lemma_merged_alike(
    first: Seq<Mast>,
    second: Seq<Mast>,
    third: Seq<Mast>,
    fourth: Seq<Mast>,
)
    requires
        Mast::merged(first) == Mast::merged(second),
        Mast::merged(third) == Mast::merged(fourth),
    ensures
        Mast::merged(first + third) == Mast::merged(second + fourth),
{
    lemma_merged_parts(first, third);
    lemma_merged_parts(second, fourth);
}

/// Operations of two spans which are neighbours are put together.
pub(crate) proof fn lemma_merged_span(
    blocks: Seq<Mast>,
    first: Seq<Operation>,
    second: Seq<Operation>,
)
    ensures
        Mast::merged(blocks + seq![Mast::Span(first), Mast::Span(second)]) == Mast::merged(
            blocks + seq![Mast::Span(first + second)],
        ),
{
    let pair = seq![Mast::Span(first), Mast::Span(second)];
    let one = seq![Mast::Span(first + second)];
    lemma_merged_single(Mast::Span(first));
    lemma_merged_single(Mast::Span(second));
    lemma_merged_single(Mast::Span(first + second));
    assert(pair =~= seq![Mast::Span(first)] + seq![Mast::Span(second)]);
    lemma_merged_parts(seq![Mast::Span(first)], seq![Mast::Span(second)]);
    assert(Mast::merged(pair) =~= one);
    lemma_merged_alike(blocks, blocks, pair, one);
}

/// Callsets are united in the same way whether this is done at once or in two parts. A procedure
/// which is there already is not added again, and another one is put behind the others.
pub proof fn lemma_merging_parts(
    callset: Seq<ProcId>,
    first: Seq<ProcId>,
    second: Seq<ProcId>,
    id: ProcId,
)
    ensures
        CallSet::merging(callset, first + second) == CallSet::merging(
            CallSet::merging(callset, first),
            second,
        ),
        CallSet::merging(callset, Seq::empty()) == callset,
        callset.contains(id) ==> CallSet::merging(callset, seq![id]) == callset,
        !callset.contains(id) ==> CallSet::merging(callset, seq![id]) == callset.push(id),
    decreases second.len(),
{
    reveal_with_fuel(CallSet::merging, 3);
    assert(seq![id].drop_last() =~= Seq::empty());
    if second.len() == 0 {
        assert(first + second =~= first);
    } else {
        lemma_merging_parts(callset, first, second.drop_last(), id);
        assert((first + second).drop_last() =~= first + second.drop_last());
        assert((first + second).last() == second.last());
    }
}

} // verus!

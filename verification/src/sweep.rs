//! The aggregation sweep: reduces any finite collection of CIDR blocks to
//! the minimal covering, non-overlapping, merge-irreducible set, in
//! ascending address order.

use vstd::prelude::*;
use vstd::seq_lib::group_to_multiset_ensures;
use vstd::seq_lib::to_multiset_insert;
use crate::block::NetworkBlock;
use crate::block::mask_spec;
use crate::block::try_merge_spec;
use crate::block::try_merge;
use crate::block::lemma_range;
use crate::block::lemma_contains_range;
use crate::block::lemma_overlap_nested;
use crate::block::lemma_merge_sound;

verus! {

/// Every block of the sequence is canonical.
pub open spec fn all_wf(s: Seq<NetworkBlock>) -> bool {
    forall|i: int| 0 <= i < s.len() ==> (#[trigger] s[i]).wf()
}

/// Consecutive blocks are strictly separated: each range ends below the
/// start of the next, so the sequence is address-ordered and disjoint.
pub open spec fn chain(s: Seq<NetworkBlock>) -> bool {
    forall|i: int| 0 <= i && i + 1 < s.len() ==> (#[trigger] s[i]).last_spec() < s[i + 1].network
}

/// No two consecutive blocks can be merged into a common supernet.
pub open spec fn irreducible(s: Seq<NetworkBlock>) -> bool {
    forall|i: int| 0 <= i && i + 1 < s.len() ==> #[trigger] try_merge_spec(s[i], s[i + 1]) is None
}

/// The shape of the sweep's output: canonical blocks, strictly ordered and
/// pairwise disjoint, with no merge opportunity left.
pub open spec fn canonical_seq(s: Seq<NetworkBlock>) -> bool {
    all_wf(s) && chain(s) && irreducible(s)
}

/// Address `a` lies in the range of some block of the sequence.
pub open spec fn covers(s: Seq<NetworkBlock>, a: u32) -> bool {
    exists|i: int| 0 <= i < s.len() && (#[trigger] s[i]).in_range(a)
}

/// The sweep's sort order: ascending address, then ascending prefix length,
/// so a coarser block sorts before any finer block at the same address.
pub open spec fn le_blk(a: NetworkBlock, b: NetworkBlock) -> bool {
    a.network < b.network || (a.network == b.network && a.prefix_len <= b.prefix_len)
}

/// The sequence is sorted by `le_blk`.
pub open spec fn sorted_by_addr(s: Seq<NetworkBlock>) -> bool {
    forall|i: int, j: int| 0 <= i <= j < s.len() ==> #[trigger] le_blk(s[i], s[j])
}

/// The base address never exceeds the last address of a block.
proof fn lemma_network_le_last(b: NetworkBlock)
    ensures
        b.network <= b.last_spec(),
{
    let n = b.network;
    let m = mask_spec(b.prefix_len);
    assert(n <= (n | !m)) by (bit_vector);
}

/// In an ordered disjoint sequence, every earlier block ends strictly below
/// the start of every later block.
pub proof fn lemma_separated(s: Seq<NetworkBlock>, i: int, j: int)
    requires
        chain(s),
        0 <= i < j < s.len(),
    ensures
        s[i].last_spec() < s[j].network,
    decreases j - i,
{
    if j > i + 1 {
        lemma_separated(s, i, j - 1);
        lemma_network_le_last(s[j - 1]);
    }
}

/// An ordered disjoint sequence is sorted by address and prefix.
pub proof fn lemma_canonical_sorted(s: Seq<NetworkBlock>)
    requires
        chain(s),
    ensures
        sorted_by_addr(s),
{
    assert forall|i: int, j: int| 0 <= i <= j < s.len() implies #[trigger] le_blk(s[i], s[j]) by {
        if i < j {
            lemma_separated(s, i, j);
            lemma_network_le_last(s[i]);
        }
    }
}

/// Minimality of a canonical sequence: no block is contained in another, no
/// two blocks are merge-eligible, and no address lies in two blocks.
pub proof fn lemma_canonical_minimal(s: Seq<NetworkBlock>)
    requires
        canonical_seq(s),
    ensures
        forall|i: int, j: int|
            0 <= i < s.len() && 0 <= j < s.len() && i != j ==> !(#[trigger] s[i].contains_spec(
                s[j],
            )),
        forall|i: int, j: int|
            0 <= i < s.len() && 0 <= j < s.len() && i != j ==> #[trigger] try_merge_spec(
                s[i],
                s[j],
            ) is None,
        forall|i: int, j: int, a: u32|
            #![trigger s[i].in_range(a), s[j].in_range(a)]
            0 <= i < s.len() && 0 <= j < s.len() && i != j ==> !(s[i].in_range(a)
                && s[j].in_range(a)),
{
    assert forall|i: int, j: int, a: u32|
        #![trigger s[i].in_range(a), s[j].in_range(a)]
        0 <= i < s.len() && 0 <= j < s.len() && i != j implies !(s[i].in_range(a) && s[j].in_range(
        a,
    )) by {
        if s[i].in_range(a) && s[j].in_range(a) {
            let (lo, hi) = if i < j {
                (i, j)
            } else {
                (j, i)
            };
            lemma_separated(s, lo, hi);
            lemma_range(s[lo], a);
            lemma_range(s[hi], a);
        }
    }
    assert forall|i: int, j: int|
        0 <= i < s.len() && 0 <= j < s.len() && i != j implies !(#[trigger] s[i].contains_spec(
        s[j],
    )) by {
        if s[i].contains_spec(s[j]) {
            lemma_contains_range(s[i], s[j]);
            lemma_range(s[j], s[j].network);
            lemma_network_le_last(s[j]);
            assert(s[j].in_range(s[j].network));
            assert(s[i].in_range(s[j].network));
        }
    }
    assert forall|i: int, j: int|
        0 <= i < s.len() && 0 <= j < s.len() && i != j implies #[trigger] try_merge_spec(
        s[i],
        s[j],
    ) is None by {
        if try_merge_spec(s[i], s[j]) is Some {
            if i < j {
                assert(s[i].last_spec() + 1 == s[j].network);
                if j == i + 1 {
                    assert(try_merge_spec(s[i], s[i + 1]) is None);
                } else {
                    lemma_separated(s, i, i + 1);
                    lemma_separated(s, i + 1, j);
                    lemma_network_le_last(s[i + 1]);
                }
            } else {
                assert(s[i].last_spec() + 1 == s[j].network);
                lemma_separated(s, j, i);
                lemma_network_le_last(s[j]);
                lemma_network_le_last(s[i]);
            }
        }
    }
}

/// Appending a block extends the covered addresses by exactly its range.
proof fn lemma_covers_push(t: Seq<NetworkBlock>, b: NetworkBlock)
    ensures
        forall|a: u32| covers(t.push(b), a) <==> (covers(t, a) || b.in_range(a)),
{
    assert forall|a: u32| covers(t.push(b), a) implies (covers(t, a) || b.in_range(a)) by {
        let i = choose|i: int| 0 <= i < t.push(b).len() && (#[trigger] t.push(b)[i]).in_range(a);
        if i < t.len() {
            assert(t[i].in_range(a));
        }
    }
    assert forall|a: u32| (covers(t, a) || b.in_range(a)) implies covers(t.push(b), a) by {
        if covers(t, a) {
            let i = choose|i: int| 0 <= i < t.len() && (#[trigger] t[i]).in_range(a);
            assert(t.push(b)[i].in_range(a));
        } else {
            assert(t.push(b)[t.len() as int].in_range(a));
        }
    }
}

/// Sequences holding the same blocks cover the same addresses.
proof fn lemma_covers_same_elements(s1: Seq<NetworkBlock>, s2: Seq<NetworkBlock>)
    requires
        forall|b: NetworkBlock| s1.contains(b) <==> s2.contains(b),
    ensures
        forall|a: u32| covers(s1, a) <==> covers(s2, a),
{
    assert forall|a: u32| covers(s1, a) implies covers(s2, a) by {
        let i = choose|i: int| 0 <= i < s1.len() && (#[trigger] s1[i]).in_range(a);
        assert(s1.contains(s1[i]));
        let j = choose|j: int| 0 <= j < s2.len() && s2[j] == s1[i];
        assert(s2[j].in_range(a));
    }
    assert forall|a: u32| covers(s2, a) implies covers(s1, a) by {
        let i = choose|i: int| 0 <= i < s2.len() && (#[trigger] s2[i]).in_range(a);
        assert(s2.contains(s2[i]));
        let j = choose|j: int| 0 <= j < s1.len() && s1[j] == s2[i];
        assert(s1[j].in_range(a));
    }
}

/// Comparison used by the sweep's sort.
fn block_le(a: &NetworkBlock, b: &NetworkBlock) -> (r: bool)
    ensures
        r == le_blk(*a, *b),
{
    a.network < b.network || (a.network == b.network && a.prefix_len <= b.prefix_len)
}

/// Insertion sort by `(network, prefix_len)` ascending. Keeps the sequence
/// unchanged when it is already sorted.
#[verifier::loop_isolation(false)]
pub fn sort_blocks(v: Vec<NetworkBlock>) -> (r: Vec<NetworkBlock>)
    ensures
        sorted_by_addr(r@),
        r@.to_multiset() == v@.to_multiset(),
        sorted_by_addr(v@) ==> r@ == v@,
{
    broadcast use group_to_multiset_ensures;

    let mut r: Vec<NetworkBlock> = Vec::new();
    let mut idx: usize = 0;
    while idx < v.len()
        invariant
            idx <= v.len(),
            sorted_by_addr(r@),
            r@.to_multiset() == v@.take(idx as int).to_multiset(),
            sorted_by_addr(v@) ==> r@ == v@.take(idx as int),
        decreases v.len() - idx,
    {
        let x = v[idx];
        let mut pos: usize = 0;
        while pos < r.len() && block_le(&r[pos], &x)
            invariant
                pos <= r.len(),
                forall|k: int| 0 <= k < pos ==> #[trigger] le_blk(r@[k], x),
            decreases r.len() - pos,
        {
            pos += 1;
        }
        let ghost pre = r@;
        proof {
            pre.insert_ensures(pos as int, x);
            to_multiset_insert(pre, pos as int, x);
            assert(v@.take(idx as int + 1) =~= v@.take(idx as int).push(x));
        }
        r.insert(pos, x);
        proof {
            assert forall|i: int, j: int| 0 <= i <= j < r@.len() implies #[trigger] le_blk(
                r@[i],
                r@[j],
            ) by {
                let p = pos as int;
                if i < p {
                    assert(r@[i] == pre[i] && le_blk(pre[i], x));
                }
                if j < p {
                    assert(r@[j] == pre[j]);
                }
                if i > p {
                    assert(r@[i] == pre[i - 1]);
                }
                if j > p {
                    assert(r@[j] == pre[j - 1]);
                }
                if p < pre.len() {
                    assert(!le_blk(pre[p], x));
                }
                if i < p && j < p {
                    assert(le_blk(pre[i], pre[j]));
                } else if i < p && j > p {
                    assert(le_blk(pre[i], pre[j - 1]));
                } else if i == p && j > p {
                    assert(le_blk(pre[p], pre[j - 1]));
                } else if i > p && j > p {
                    assert(le_blk(pre[i - 1], pre[j - 1]));
                }
            }
            if sorted_by_addr(v@) {
                assert forall|k: int| 0 <= k < pre.len() implies #[trigger] le_blk(pre[k], x) by {
                    assert(pre[k] == v@.take(idx as int)[k]);
                    assert(le_blk(v@[k], v@[idx as int]));
                }
                assert(pos == r.len() - 1);
                assert(r@ =~= pre.push(x));
                assert(r@ == v@.take(idx as int + 1));
            }
        }
        idx += 1;
    }
    proof {
        assert(v@.take(v.len() as int) =~= v@);
    }
    r
}

/// The aggregation sweep. Given canonical blocks in any order, with any
/// overlaps or redundancy, it returns the unique minimal list covering
/// exactly the same addresses: canonical blocks in ascending address order,
/// pairwise disjoint, none contained in another, none mergeable.
///
/// The result covers the same addresses as the input, and a list that
/// already has the output shape is returned unchanged, so the sweep is
/// idempotent. A duplicate of an already accepted block is treated as
/// redundant, so exact duplicates in the input are absorbed as well.
#[verifier::loop_isolation(false)]
#[verifier::rlimit(100)]
pub fn optimize_blocks_simple(blocks: Vec<NetworkBlock>) -> (r: Vec<NetworkBlock>)
    requires
        all_wf(blocks@),
    ensures
        canonical_seq(r@),
        forall|a: u32| covers(r@, a) <==> covers(blocks@, a),
        canonical_seq(blocks@) ==> r@ == blocks@,
{
    broadcast use group_to_multiset_ensures;

    if blocks.len() <= 1 {
        return blocks;
    }
    proof {
        if canonical_seq(blocks@) {
            lemma_canonical_sorted(blocks@);
        }
    }
    let s = sort_blocks(blocks);
    let ghost bs = blocks@;
    proof {
        s@.to_multiset_ensures();
        bs.to_multiset_ensures();
        assert forall|b: NetworkBlock| s@.contains(b) <==> bs.contains(b) by {
            assert(s@.contains(b) <==> s@.to_multiset().count(b) > 0);
            assert(bs.contains(b) <==> bs.to_multiset().count(b) > 0);
        }
        lemma_covers_same_elements(s@, bs);
        assert forall|i: int| 0 <= i < s@.len() implies (#[trigger] s@[i]).wf() by {
            assert(s@.contains(s@[i]));
            assert(bs.contains(s@[i]));
            let j = choose|j: int| 0 <= j < bs.len() && bs[j] == s@[i];
            assert(bs[j].wf());
        }
    }
    let mut result: Vec<NetworkBlock> = Vec::new();
    let mut i: usize = 0;
    while i < s.len()
        invariant
            i <= s.len(),
            all_wf(result@),
            chain(result@),
            irreducible(result@),
            forall|a: u32| covers(result@, a) <==> covers(s@.take(i as int), a),
            forall|j: int, k: int|
                0 <= j < result@.len() && i <= k < s@.len() ==> #[trigger] le_blk(
                    result@[j],
                    s@[k],
                ),
            canonical_seq(s@) ==> result@ == s@.take(i as int),
        decreases s.len() - i,
    {
        let blk = s[i];
        accept_block(&mut result, blk, Ghost(s@), Ghost(i as int));
        i += 1;
    }
    proof {
        assert(s@.take(s@.len() as int) =~= s@);
        if canonical_seq(bs) {
            assert(s@ == bs);
        }
    }
    result
}

/// One step of the sweep: accepts the next block in sort order, dropping it
/// when the stack top already covers it, and otherwise pushing it and
/// cascading merges. The stack goes from covering the first `i` sorted
/// blocks to covering the first `i + 1`, staying canonical throughout.
#[verifier::loop_isolation(false)]
#[verifier::rlimit(60)]
fn accept_block(
    result: &mut Vec<NetworkBlock>,
    blk: NetworkBlock,
    Ghost(s): Ghost<Seq<NetworkBlock>>,
    Ghost(i): Ghost<int>,
)
    requires
        0 <= i < s.len(),
        s[i] == blk,
        all_wf(s),
        sorted_by_addr(s),
        all_wf(old(result)@),
        chain(old(result)@),
        irreducible(old(result)@),
        forall|a: u32| covers(old(result)@, a) <==> covers(s.take(i), a),
        forall|j: int, k: int|
            0 <= j < old(result)@.len() && i <= k < s.len() ==> #[trigger] le_blk(
                old(result)@[j],
                s[k],
            ),
        canonical_seq(s) ==> old(result)@ == s.take(i),
    ensures
        all_wf(final(result)@),
        chain(final(result)@),
        irreducible(final(result)@),
        forall|a: u32| covers(final(result)@, a) <==> covers(s.take(i + 1), a),
        forall|j: int, k: int|
            0 <= j < final(result)@.len() && i < k < s.len() ==> #[trigger] le_blk(
                final(result)@[j],
                s[k],
            ),
        canonical_seq(s) ==> final(result)@ == s.take(i + 1),
{
    let ghost taken = s.take(i);
    proof {
        assert(s.take(i + 1) =~= taken.push(blk));
        lemma_covers_push(taken, blk);
    }
    let mut redundant = false;
    if result.len() > 0 {
        let top = result[result.len() - 1];
        if top.contains(&blk) || top == blk {
            redundant = true;
            proof {
                let ghost t = result@.len() - 1;
                if top.contains_spec(blk) {
                    lemma_contains_range(top, blk);
                }
                assert forall|a: u32| blk.in_range(a) implies covers(result@, a) by {
                    assert(result@[t].in_range(a));
                }
                assert forall|a: u32| covers(result@, a) <==> covers(s.take(i + 1), a) by {
                    assert(covers(result@, a) <==> covers(taken, a));
                    assert(covers(taken.push(blk), a) <==> (covers(taken, a) || blk.in_range(a)));
                }
                if canonical_seq(s) {
                    assert(top == s[i - 1]);
                    lemma_range(blk, blk.network);
                    if top.contains_spec(blk) {
                        lemma_contains_range(top, blk);
                        assert(top.in_range(blk.network));
                        lemma_range(top, blk.network);
                        assert(s[i - 1].last_spec() < s[i].network);
                        assert(false);
                    } else {
                        lemma_network_le_last(top);
                        assert(s[i - 1].last_spec() < s[i].network);
                        assert(false);
                    }
                }
            }
        } else {
            proof {
                assert(le_blk(result@[result@.len() - 1], s[i]));
                lemma_push_separated(top, blk);
            }
        }
    }
    if !redundant {
        let ghost pre_push = result@;
        result.push(blk);
        proof {
            lemma_covers_push(pre_push, blk);
            assert(result@.take(result@.len() - 1) =~= pre_push);
            assert forall|j: int| 0 <= j && j + 1 < result@.len() implies (
            #[trigger] result@[j]).last_spec() < result@[j + 1].network by {
                if j + 1 < result@.len() - 1 {
                    assert(result@[j] == pre_push[j] && result@[j + 1] == pre_push[j + 1]);
                    assert(pre_push[j].last_spec() < pre_push[j + 1].network);
                } else {
                    assert(result@[j] == pre_push[pre_push.len() - 1] && result@[j + 1] == blk);
                }
            }
            assert(chain(result@));
            assert forall|k: int| i < k < s.len() implies le_blk(s[i], s[k]) by {
                assert(le_blk(s[i], s[k]));
            }
            if canonical_seq(s) {
                assert(result@ =~= s.take(i + 1));
            }
            assert forall|a: u32| covers(result@, a) <==> covers(s.take(i + 1), a) by {
                assert(covers(result@, a) <==> (covers(pre_push, a) || blk.in_range(a)));
                assert(covers(pre_push, a) <==> covers(taken, a));
                assert(covers(taken.push(blk), a) <==> (covers(taken, a) || blk.in_range(a)));
            }
        }
        let ghost after_push = result@;
        cascade(result, Ghost(s), Ghost(i));
        proof {
            assert forall|a: u32| covers(result@, a) <==> covers(s.take(i + 1), a) by {
                assert(covers(result@, a) <==> covers(after_push, a));
                assert(covers(after_push, a) <==> covers(s.take(i + 1), a));
            }
        }
    }
}

/// The backtracking merge step of the sweep: repeatedly merges the two top
/// stack entries while they form a supernet, dropping a merge result that an
/// already accepted coarser block covers. Covered addresses are unchanged
/// and the stack stays ordered and disjoint, with no merge left anywhere.
#[verifier::loop_isolation(false)]
#[verifier::rlimit(100)]
fn cascade(result: &mut Vec<NetworkBlock>, Ghost(s): Ghost<Seq<NetworkBlock>>, Ghost(i): Ghost<int>)
    requires
        0 <= i < s.len(),
        old(result)@.len() >= 1,
        all_wf(old(result)@),
        chain(old(result)@),
        irreducible(old(result)@.take(old(result)@.len() - 1)),
        forall|j: int, k: int|
            0 <= j < old(result)@.len() && i < k < s.len() ==> #[trigger] le_blk(
                old(result)@[j],
                s[k],
            ),
        canonical_seq(s) ==> old(result)@ == s.take(i + 1),
    ensures
        final(result)@.len() >= 1,
        all_wf(final(result)@),
        chain(final(result)@),
        irreducible(final(result)@),
        forall|a: u32| covers(final(result)@, a) <==> covers(old(result)@, a),
        forall|j: int, k: int|
            0 <= j < final(result)@.len() && i < k < s.len() ==> #[trigger] le_blk(
                final(result)@[j],
                s[k],
            ),
        canonical_seq(s) ==> final(result)@ == s.take(i + 1),
{
    let mut merging = true;
    while merging
        invariant
            result@.len() >= 1,
            all_wf(result@),
            chain(result@),
            irreducible(result@.take(result@.len() - 1)),
            !merging ==> irreducible(result@),
            forall|a: u32| covers(result@, a) <==> covers(old(result)@, a),
            forall|j: int, k: int|
                0 <= j < result@.len() && i < k < s.len() ==> #[trigger] le_blk(
                    result@[j],
                    s[k],
                ),
            canonical_seq(s) ==> result@ == s.take(i + 1),
        decreases result@.len() + (if merging {
            1int
        } else {
            0int
        }),
    {
        if result.len() < 2 {
            merging = false;
        } else {
            let len = result.len();
            let b = result[len - 1];
            let a = result[len - 2];
            match try_merge(&a, &b) {
                None => {
                    merging = false;
                    proof {
                        let ghost t = result@.take(result@.len() - 1);
                        assert forall|j: int|
                            0 <= j && j + 1 < result@.len() implies #[trigger] try_merge_spec(
                            result@[j],
                            result@[j + 1],
                        ) is None by {
                            if j + 1 < result@.len() - 1 {
                                assert(t[j] == result@[j] && t[j + 1] == result@[j + 1]);
                                assert(try_merge_spec(t[j], t[j + 1]) is None);
                            } else {
                                assert(result@[j] == a && result@[j + 1] == b);
                            }
                        }
                    }
                },
                Some(parent) => {
                    proof {
                        lemma_merge_sound(a, b);
                        if canonical_seq(s) {
                            assert(try_merge_spec(s[i - 1], s[i]) is None);
                            assert(false);
                        }
                    }
                    let ghost pre = result@;
                    result.pop();
                    result.pop();
                    proof {
                        assert(result@ =~= pre.take(pre.len() - 2));
                        assert forall|a2: u32|
                            covers(pre, a2) <==> (covers(result@, a2) || parent.in_range(
                                a2,
                            )) by {
                            lemma_covers_push(result@, a);
                            lemma_covers_push(result@.push(a), b);
                            assert(pre =~= result@.push(a).push(b));
                        }
                        assert forall|j: int, k: int|
                            0 <= j < result@.len() && i < k < s.len() implies #[trigger] le_blk(
                            result@[j],
                            s[k],
                        ) by {
                            assert(result@[j] == pre[j]);
                            assert(le_blk(pre[j], s[k]));
                        }
                    }
                    let mut discard = false;
                    if result.len() > 0 {
                        let prev = result[result.len() - 1];
                        if prev.contains(&parent) {
                            discard = true;
                            proof {
                                lemma_contains_range(prev, parent);
                                let ghost t = result@.len() - 1;
                                assert forall|a2: u32| parent.in_range(a2) implies covers(
                                    result@,
                                    a2,
                                ) by {
                                    assert(result@[t].in_range(a2));
                                }
                                let ghost pt = pre.take(pre.len() - 1);
                                assert forall|j: int|
                                    0 <= j && j + 1 < result@.len() implies #[trigger] try_merge_spec(
                                    result@[j],
                                    result@[j + 1],
                                ) is None by {
                                    assert(pt[j] == pre[j] && pt[j + 1] == pre[j + 1]);
                                    assert(result@[j] == pre[j] && result@[j + 1] == pre[j + 1]);
                                    assert(try_merge_spec(pt[j], pt[j + 1]) is None);
                                }
                            }
                        }
                    }
                    if !discard {
                        let ghost pre2 = result@;
                        result.push(parent);
                        proof {
                            lemma_covers_push(pre2, parent);
                            let ghost pt = pre.take(pre.len() - 1);
                            assert forall|j: int|
                                0 <= j && j + 1 < result@.len() - 1 implies #[trigger] try_merge_spec(
                                result@[j],
                                result@[j + 1],
                            ) is None by {
                                assert(result@[j] == pre2[j] && result@[j + 1] == pre2[j + 1]);
                                assert(pre2[j] == pre[j] && pre2[j + 1] == pre[j + 1]);
                                assert(pt[j] == pre[j] && pt[j + 1] == pre[j + 1]);
                                assert(try_merge_spec(pt[j], pt[j + 1]) is None);
                            }
                            assert forall|j: int, k: int|
                                0 <= j < result@.len() && i < k < s.len() implies #[trigger] le_blk(
                                result@[j],
                                s[k],
                            ) by {
                                if j < result@.len() - 1 {
                                    assert(result@[j] == pre2[j]);
                                    assert(le_blk(pre2[j], s[k]));
                                } else {
                                    assert(result@[j] == parent);
                                    assert(le_blk(pre[pre.len() - 2], s[k]));
                                    assert(parent.network == a.network);
                                }
                            }
                        }
                    }
                },
            }
        }
    }
}

/// A block that follows the stack top in sort order, is not contained in it
/// and does not equal it, starts strictly above the top's range.
proof fn lemma_push_separated(top: NetworkBlock, blk: NetworkBlock)
    requires
        top.wf(),
        blk.wf(),
        le_blk(top, blk),
        !top.contains_spec(blk),
        top != blk,
    ensures
        top.last_spec() < blk.network,
{
    if blk.network <= top.last_spec() {
        lemma_network_le_last(top);
        lemma_range(top, blk.network);
        assert(top.in_range(blk.network));
        assert(blk.in_range(blk.network));
        if top.prefix_len <= blk.prefix_len {
            lemma_overlap_nested(top, blk, blk.network);
        } else {
            lemma_overlap_nested(blk, top, blk.network);
            lemma_contains_range(blk, top);
        }
    }
}

} // verus!

//! Per-block rewrites: jump-edge canonicalization and peephole cleanups.

use vstd::prelude::*;
use crate::basic_blocks::{
    edges_canonical, edges_eq, flags_disjoint, no_never, or_flags, targets_unique, BasicBlock,
    BasicBlockId,
};
use crate::jump_flag::JumpFlag;

verus! {

/// An edge's flag after masking by everything an earlier edge of the
/// list already captured. This is the source semantics of a jump run: a
/// later conditional jump fires only when no earlier one did.
pub open spec fn masked_flag(e: Seq<(BasicBlockId, JumpFlag)>, j: int) -> JumpFlag {
    e[j].1.spec_and(or_flags(e.take(j)).spec_not())
}

/// The edge list with every flag masked by its predecessors.
pub open spec fn masked(e: Seq<(BasicBlockId, JumpFlag)>) -> Seq<(BasicBlockId, JumpFlag)> {
    Seq::new(e.len(), |j: int| (e[j].0, masked_flag(e, j)))
}

/// The targets of an edge list in order of first occurrence.
pub open spec fn dedup_targets(e: Seq<(BasicBlockId, JumpFlag)>) -> Seq<BasicBlockId>
    decreases e.len(),
{
    if e.len() == 0 {
        Seq::empty()
    } else {
        let r = dedup_targets(e.drop_last());
        if r.contains(e.last().0) {
            r
        } else {
            r.push(e.last().0)
        }
    }
}

/// The union of all flags an edge list sends to one target.
pub open spec fn target_or(e: Seq<(BasicBlockId, JumpFlag)>, t: BasicBlockId) -> JumpFlag
    decreases e.len(),
{
    if e.len() == 0 {
        JumpFlag::Never
    } else if e.last().0 == t {
        target_or(e.drop_last(), t).spec_or(e.last().1)
    } else {
        target_or(e.drop_last(), t)
    }
}

/// The edge list with same-target edges coalesced, targets in order of
/// first occurrence.
pub open spec fn merged(e: Seq<(BasicBlockId, JumpFlag)>) -> Seq<(BasicBlockId, JumpFlag)> {
    Seq::new(dedup_targets(e).len(), |k: int| (dedup_targets(e)[k], target_or(e, dedup_targets(e)[k])))
}

/// The edge list without edges whose flag is `Never`.
pub open spec fn keep_live(e: Seq<(BasicBlockId, JumpFlag)>) -> Seq<(BasicBlockId, JumpFlag)>
    decreases e.len(),
{
    if e.len() == 0 {
        Seq::empty()
    } else if e.last().1 != JumpFlag::Never {
        keep_live(e.drop_last()).push(e.last())
    } else {
        keep_live(e.drop_last())
    }
}

/// The canonical form of an outgoing edge list: flags masked into
/// disjointness, same-target edges coalesced, dead edges dropped.
pub open spec fn simplified(e: Seq<(BasicBlockId, JumpFlag)>) -> Seq<(BasicBlockId, JumpFlag)> {
    keep_live(merged(masked(e)))
}

proof fn lemma_dedup_contains(e: Seq<(BasicBlockId, JumpFlag)>, t: BasicBlockId)
    ensures
        dedup_targets(e).contains(t) <==> exists|j: int| 0 <= j < e.len() && (#[trigger] e[j]).0 == t,
    decreases e.len(),
{
    if e.len() > 0 {
        let p = e.drop_last();
        let d = dedup_targets(p);
        lemma_dedup_contains(p, t);
        // the occurrence sets of `e` and of its prefix differ only by the
        // last edge's target
        assert((exists|j: int| 0 <= j < e.len() && (#[trigger] e[j]).0 == t) <==> (exists|j: int|
            0 <= j < p.len() && (#[trigger] p[j]).0 == t) || e.last().0 == t) by {
            if exists|j: int| 0 <= j < e.len() && (#[trigger] e[j]).0 == t {
                let j = choose|j: int| 0 <= j < e.len() && (#[trigger] e[j]).0 == t;
                if j < e.len() - 1 {
                    assert(p[j].0 == t);
                }
            }
            if exists|j: int| 0 <= j < p.len() && (#[trigger] p[j]).0 == t {
                let j = choose|j: int| 0 <= j < p.len() && (#[trigger] p[j]).0 == t;
                assert(e[j].0 == t);
            }
            if e.last().0 == t {
                assert(e[e.len() - 1].0 == t);
            }
        }
        if d.contains(e.last().0) {
            assert(dedup_targets(e) == d);
            if e.last().0 == t {
                assert(d.contains(t));
            }
        } else {
            assert(dedup_targets(e) == d.push(e.last().0));
            assert(dedup_targets(e).contains(t) <==> d.contains(t) || e.last().0 == t) by {
                if d.contains(t) {
                    let k = choose|k: int| 0 <= k < d.len() && d[k] == t;
                    assert(d.push(e.last().0)[k] == t);
                }
                if e.last().0 == t {
                    assert(d.push(e.last().0)[d.len() as int] == t);
                }
                if d.push(e.last().0).contains(t) {
                    let k = choose|k: int|
                        0 <= k < d.push(e.last().0).len() && d.push(e.last().0)[k] == t;
                    if k < d.len() {
                        assert(d[k] == t);
                    }
                }
            }
        }
    }
}

proof fn lemma_dedup_unique(e: Seq<(BasicBlockId, JumpFlag)>)
    ensures
        forall|k1: int, k2: int|
            0 <= k1 < k2 < dedup_targets(e).len() ==> dedup_targets(e)[k1] != dedup_targets(e)[k2],
    decreases e.len(),
{
    if e.len() > 0 {
        lemma_dedup_unique(e.drop_last());
        let r = dedup_targets(e.drop_last());
        if !r.contains(e.last().0) {
            assert(forall|k: int| 0 <= k < r.len() ==> r[k] != e.last().0);
            assert(forall|k: int|
                0 <= k < r.len() ==> #[trigger] dedup_targets(e)[k] == r[k]);
        }
    }
}

proof fn lemma_target_or_absent(e: Seq<(BasicBlockId, JumpFlag)>, t: BasicBlockId)
    requires
        forall|j: int| 0 <= j < e.len() ==> (#[trigger] e[j]).0 != t,
    ensures
        target_or(e, t) == JumpFlag::Never,
    decreases e.len(),
{
    if e.len() > 0 {
        assert(e[e.len() - 1].0 != t);
        assert(forall|j: int|
            0 <= j < e.drop_last().len() ==> (#[trigger] e.drop_last()[j]).0 != t);
        lemma_target_or_absent(e.drop_last(), t);
    }
}

/// Canonicalizes a block's outgoing edges: masks each flag by its
/// predecessors, coalesces same-target edges, and drops dead edges.
/// Returns whether the edge list changed.
pub fn simplify_outgoing_jumps(block: &mut BasicBlock) -> (r: bool)
    ensures
        final(block).id == old(block).id,
        final(block).instructions@ == old(block).instructions@,
        final(block).incoming_jumps@ == old(block).incoming_jumps@,
        final(block).outgoing_jumps@ == simplified(old(block).outgoing_jumps@),
        r == (final(block).outgoing_jumps@ != old(block).outgoing_jumps@),
        !r ==> *final(block) == *old(block),
{
    let ghost e0 = old(block).outgoing_jumps@;
    let n = block.outgoing_jumps.len();

    // mask each flag by the union of its predecessors
    let mut masked_v: Vec<(BasicBlockId, JumpFlag)> = Vec::new();
    let mut seen = JumpFlag::Never;
    let mut i: usize = 0;
    while i < n
        invariant
            0 <= i <= n,
            n == e0.len(),
            block.outgoing_jumps@ == e0,
            seen == or_flags(e0.take(i as int)),
            masked_v@.len() == i,
            forall|j: int|
                0 <= j < i ==> #[trigger] masked_v@[j] == (e0[j].0, masked_flag(e0, j)),
        decreases n - i,
    {
        let t = block.outgoing_jumps[i].0;
        let f = block.outgoing_jumps[i].1;
        let nf = f.and(seen.complement());
        masked_v.push((t, nf));
        proof {
            crate::basic_blocks::lemma_or_flags_take_succ(e0, i as int);
            crate::jump_flag::lemma_or_absorb_masked(seen, f);
        }
        seen = seen.or(nf);
        i = i + 1;
    }
    proof {
        assert(masked_v@ =~= masked(e0));
    }
    let ghost m = masked(e0);

    // coalesce edges that share a target
    let mut grouped: Vec<(BasicBlockId, JumpFlag)> = Vec::new();
    let mut i: usize = 0;
    while i < n
        invariant
            0 <= i <= n,
            n == m.len(),
            masked_v@ == m,
            grouped@ == merged(m.take(i as int)),
        decreases n - i,
    {
        let t = masked_v[i].0;
        let f = masked_v[i].1;
        proof {
            assert(m.take(i as int + 1).drop_last() =~= m.take(i as int));
            assert(m.take(i as int + 1).last() == m[i as int]);
            lemma_dedup_unique(m.take(i as int));
            lemma_dedup_contains(m.take(i as int), t);
        }
        // find the group of this target, if one exists
        let gn = grouped.len();
        let mut k: usize = 0;
        let mut found: Option<usize> = None;
        while k < gn
            invariant
                0 <= k <= gn,
                gn == grouped@.len(),
                match found {
                    Some(w) => w < gn && grouped@[w as int].0 == t,
                    None => forall|q: int| 0 <= q < k ==> (#[trigger] grouped@[q]).0 != t,
                },
            decreases gn - k,
        {
            if found.is_none() && grouped[k].0.0 == t.0 {
                found = Some(k);
            }
            k = k + 1;
        }
        match found {
            Some(w) => {
                let cur = grouped[w];
                grouped[w] = (cur.0, cur.1.or(f));
                proof {
                    let pre = m.take(i as int);
                    let post = m.take(i as int + 1);
                    assert(dedup_targets(pre).contains(t));
                    assert(dedup_targets(post) =~= dedup_targets(pre));
                    assert forall|q: int| 0 <= q < dedup_targets(pre).len() implies #[trigger]
                    target_or(post, dedup_targets(pre)[q]) == if q == w as int {
                        target_or(pre, t).spec_or(f)
                    } else {
                        target_or(pre, dedup_targets(pre)[q])
                    } by {
                        if q != w as int {
                            assert(dedup_targets(pre)[q] != dedup_targets(pre)[w as int]);
                        }
                    }
                    assert(grouped@ =~= merged(post));
                }
            },
            None => {
                grouped.push((t, f));
                proof {
                    let pre = m.take(i as int);
                    let post = m.take(i as int + 1);
                    assert forall|q: int| 0 <= q < dedup_targets(pre).len() implies #[trigger]
                    dedup_targets(pre)[q] != t by {
                        assert(grouped@.drop_last()[q].0 == dedup_targets(pre)[q]);
                    }
                    assert(!dedup_targets(pre).contains(t));
                    assert(dedup_targets(post) =~= dedup_targets(pre).push(t));
                    assert(forall|j: int| 0 <= j < pre.len() ==> (#[trigger] pre[j]).0 != t);
                    lemma_target_or_absent(pre, t);
                    crate::jump_flag::lemma_or_never(f);
                    assert forall|q: int| 0 <= q < dedup_targets(pre).len() implies #[trigger]
                    target_or(post, dedup_targets(pre)[q]) == target_or(
                        pre,
                        dedup_targets(pre)[q],
                    ) by {
                        assert(dedup_targets(pre)[q] != t);
                    }
                    assert(target_or(post, t) == f);
                    assert(grouped@ =~= merged(post));
                }
            },
        }
        i = i + 1;
    }
    proof {
        assert(m.take(n as int) =~= m);
    }

    // drop edges whose flag became empty
    let gn = grouped.len();
    let mut out: Vec<(BasicBlockId, JumpFlag)> = Vec::new();
    let mut k: usize = 0;
    while k < gn
        invariant
            0 <= k <= gn,
            gn == grouped@.len(),
            out@ == keep_live(grouped@.take(k as int)),
        decreases gn - k,
    {
        proof {
            assert(grouped@.take(k as int + 1).drop_last() =~= grouped@.take(k as int));
            assert(grouped@.take(k as int + 1).last() == grouped@[k as int]);
        }
        let ed = grouped[k];
        match ed.1 {
            JumpFlag::Never => {},
            _ => {
                out.push(ed);
            },
        }
        k = k + 1;
    }
    proof {
        assert(grouped@.take(gn as int) =~= grouped@);
    }

    if edges_eq(&block.outgoing_jumps, &out) {
        false
    } else {
        block.outgoing_jumps = out;
        true
    }
}

} // verus!

verus! {

use crate::jump_flag::{
    lemma_bits_injective, lemma_flag_op_bits, lemma_or_never, lemma_and_commutative,
};
use crate::basic_blocks::{lemma_or_flags_take_succ, lemma_or_flags_concat};

/// Every edge's flag is contained in the union over any longer prefix.
proof fn lemma_member_or(e: Seq<(BasicBlockId, JumpFlag)>, i: int, j: int)
    requires
        0 <= i < j <= e.len(),
    ensures
        e[i].1.bits() | or_flags(e.take(j)).bits() == or_flags(e.take(j)).bits(),
    decreases j,
{
    lemma_or_flags_take_succ(e, j - 1);
    lemma_flag_op_bits(or_flags(e.take(j - 1)), e[j - 1].1);
    let a = e[i].1.bits();
    let p = or_flags(e.take(j - 1)).bits();
    let q = e[j - 1].1.bits();
    if i == j - 1 {
        assert(a | (p | q) == (p | q)) by (bit_vector)
            requires
                q == a,
        ;
    } else {
        lemma_member_or(e, i, j - 1);
        assert((a | p) == p ==> (a | (p | q)) == (p | q)) by (bit_vector);
    }
}

/// Masking makes the flags pairwise disjoint.
proof fn lemma_masked_disjoint(e: Seq<(BasicBlockId, JumpFlag)>)
    ensures
        flags_disjoint(masked(e)),
{
    assert forall|i: int, j: int| 0 <= i < j < masked(e).len() implies (#[trigger] masked(e)[i]).1
        .spec_and((#[trigger] masked(e)[j]).1) == JumpFlag::Never by {
        lemma_member_or(e, i, j);
        let fi = e[i].1;
        let fj = e[j].1;
        let oi = or_flags(e.take(i));
        let oj = or_flags(e.take(j));
        lemma_flag_op_bits(oi, oi);
        lemma_flag_op_bits(oj, oj);
        lemma_flag_op_bits(fi, oi.spec_not());
        lemma_flag_op_bits(fj, oj.spec_not());
        lemma_flag_op_bits(masked_flag(e, i), masked_flag(e, j));
        let a = fi.bits();
        let b = fj.bits();
        let x = oi.bits();
        let y = oj.bits();
        assert(a < 8 && b < 8 && x < 8 && y < 8 && (a | y) == y ==> ((a & (!x & 0x7)) & (b & (!y
            & 0x7))) == 0) by (bit_vector);
        lemma_bits_injective(
            masked_flag(e, i).spec_and(masked_flag(e, j)),
            JumpFlag::Never,
        );
    }
}

/// The union a target gathers is disjoint from any flag that every edge
/// of that target is disjoint from.
proof fn lemma_group_vs_flag(p: Seq<(BasicBlockId, JumpFlag)>, t: BasicBlockId, x: JumpFlag)
    requires
        forall|k: int|
            0 <= k < p.len() && (#[trigger] p[k]).0 == t ==> p[k].1.spec_and(x) == JumpFlag::Never,
    ensures
        target_or(p, t).spec_and(x) == JumpFlag::Never,
    decreases p.len(),
{
    if p.len() == 0 {
        lemma_flag_op_bits(JumpFlag::Never, x);
        let c = x.bits();
        assert((0 & c) == 0) by (bit_vector);
        lemma_bits_injective(JumpFlag::Never.spec_and(x), JumpFlag::Never);
    } else {
        let q = p.drop_last();
        assert(forall|k: int|
            0 <= k < q.len() && (#[trigger] q[k]).0 == t ==> q[k].1.spec_and(x)
                == JumpFlag::Never);
        lemma_group_vs_flag(q, t, x);
        if p.last().0 == t {
            assert(p[p.len() - 1].0 == t);
            let g = target_or(q, t);
            let l = p.last().1;
            lemma_flag_op_bits(g, l);
            lemma_flag_op_bits(g, x);
            lemma_flag_op_bits(l, x);
            lemma_flag_op_bits(g.spec_or(l), x);
            let a = g.bits();
            let b = l.bits();
            let c = x.bits();
            assert((a & c) == 0 && (b & c) == 0 ==> ((a | b) & c) == 0) by (bit_vector);
            lemma_bits_injective(g.spec_or(l).spec_and(x), JumpFlag::Never);
        }
    }
}

/// Coalescing by target keeps the flags pairwise disjoint.
proof fn lemma_merged_disjoint(m: Seq<(BasicBlockId, JumpFlag)>)
    requires
        flags_disjoint(m),
    ensures
        flags_disjoint(merged(m)),
{
    lemma_dedup_unique(m);
    let d = dedup_targets(m);
    assert forall|q1: int, q2: int| 0 <= q1 < q2 < merged(m).len() implies (#[trigger] merged(
        m,
    )[q1]).1.spec_and((#[trigger] merged(m)[q2]).1) == JumpFlag::Never by {
        let t1 = d[q1];
        let t2 = d[q2];
        assert(t1 != t2);
        assert forall|k: int| 0 <= k < m.len() && (#[trigger] m[k]).0 == t1 implies m[k].1
            .spec_and(target_or(m, t2)) == JumpFlag::Never by {
            assert forall|k2: int| 0 <= k2 < m.len() && (#[trigger] m[k2]).0 == t2 implies m[k2].1
                .spec_and(m[k].1) == JumpFlag::Never by {
                if k < k2 {
                    lemma_and_commutative(m[k].1, m[k2].1);
                } else {
                    assert(k2 != k);
                }
            }
            lemma_group_vs_flag(m, t2, m[k].1);
            lemma_and_commutative(m[k].1, target_or(m, t2));
        }
        lemma_group_vs_flag(m, t1, target_or(m, t2));
    }
}

/// Every entry of the live list is an entry of the original.
proof fn lemma_keep_live_mem(s: Seq<(BasicBlockId, JumpFlag)>, k: int)
    requires
        0 <= k < keep_live(s).len(),
    ensures
        exists|j: int| 0 <= j < s.len() && #[trigger] s[j] == keep_live(s)[k],
    decreases s.len(),
{
    let p = s.drop_last();
    if s.len() > 0 && s.last().1 != JumpFlag::Never && k == keep_live(s).len() - 1 {
        assert(s[s.len() - 1] == keep_live(s)[k]);
    } else {
        lemma_keep_live_mem(p, k);
        let j = choose|j: int| 0 <= j < p.len() && #[trigger] p[j] == keep_live(p)[k];
        assert(s[j] == keep_live(s)[k]);
    }
}

/// Dropping dead edges keeps disjointness and target uniqueness, and
/// leaves no empty flag behind.
proof fn lemma_keep_live_props(s: Seq<(BasicBlockId, JumpFlag)>)
    requires
        flags_disjoint(s),
        targets_unique(s),
    ensures
        flags_disjoint(keep_live(s)),
        targets_unique(keep_live(s)),
        no_never(keep_live(s)),
    decreases s.len(),
{
    if s.len() > 0 {
        let p = s.drop_last();
        lemma_keep_live_props(p);
        if s.last().1 != JumpFlag::Never {
            let kl = keep_live(s);
            assert(kl == keep_live(p).push(s.last()));
            assert forall|i: int, j: int| 0 <= i < j < kl.len() implies (#[trigger] kl[i]).1
                .spec_and((#[trigger] kl[j]).1) == JumpFlag::Never && kl[i].0 != kl[j].0 by {
                if j < kl.len() - 1 {
                    assert(kl[i] == keep_live(p)[i] && kl[j] == keep_live(p)[j]);
                } else {
                    lemma_keep_live_mem(p, i);
                    let w = choose|w: int| 0 <= w < p.len() && #[trigger] p[w] == keep_live(p)[i];
                    assert(s[w] == kl[i]);
                    assert(kl[j] == s[s.len() - 1]);
                }
            }
            assert(no_never(kl)) by {
                assert forall|i: int| 0 <= i < kl.len() implies (#[trigger] kl[i]).1
                    != JumpFlag::Never by {
                    if i < kl.len() - 1 {
                        assert(kl[i] == keep_live(p)[i]);
                    }
                }
            }
        }
    }
}

/// The canonical form is canonical: disjoint flags, distinct targets, no
/// empty flag.
pub proof fn lemma_simplified_canonical(e: Seq<(BasicBlockId, JumpFlag)>)
    ensures
        edges_canonical(simplified(e)),
{
    let m = masked(e);
    lemma_masked_disjoint(e);
    lemma_merged_disjoint(m);
    lemma_dedup_unique(m);
    assert(targets_unique(merged(m)));
    lemma_keep_live_props(merged(m));
}

} // verus!

verus! {

/// With pairwise-disjoint flags, an edge shares nothing with the union
/// of any prefix before it.
proof fn lemma_flag_vs_prefix(e: Seq<(BasicBlockId, JumpFlag)>, j: int, k: int)
    requires
        flags_disjoint(e),
        0 <= k <= j < e.len(),
    ensures
        e[j].1.spec_and(or_flags(e.take(k))) == JumpFlag::Never,
    decreases k,
{
    let b = e[j].1.bits();
    if k == 0 {
        assert(e.take(0) =~= Seq::<(BasicBlockId, JumpFlag)>::empty());
        lemma_flag_op_bits(e[j].1, JumpFlag::Never);
        assert((b & 0) == 0) by (bit_vector);
        lemma_bits_injective(e[j].1.spec_and(JumpFlag::Never), JumpFlag::Never);
    } else {
        lemma_flag_vs_prefix(e, j, k - 1);
        lemma_or_flags_take_succ(e, k - 1);
        let o = or_flags(e.take(k - 1));
        let g = e[k - 1].1;
        assert(g.spec_and(e[j].1) == JumpFlag::Never);
        lemma_flag_op_bits(e[j].1, o);
        lemma_flag_op_bits(g, e[j].1);
        lemma_flag_op_bits(o, g);
        lemma_flag_op_bits(e[j].1, o.spec_or(g));
        let x = o.bits();
        let y = g.bits();
        assert((b & x) == 0 && (y & b) == 0 ==> (b & (x | y)) == 0) by (bit_vector);
        lemma_bits_injective(e[j].1.spec_and(o.spec_or(g)), JumpFlag::Never);
    }
}

/// Canonical edges are already masked.
proof fn lemma_masked_noop(e: Seq<(BasicBlockId, JumpFlag)>)
    requires
        flags_disjoint(e),
    ensures
        masked(e) == e,
{
    assert forall|j: int| 0 <= j < e.len() implies #[trigger] masked(e)[j] == e[j] by {
        lemma_flag_vs_prefix(e, j, j);
        let o = or_flags(e.take(j));
        lemma_flag_op_bits(e[j].1, o);
        lemma_flag_op_bits(o, o);
        lemma_flag_op_bits(e[j].1, o.spec_not());
        let b = e[j].1.bits();
        let x = o.bits();
        assert(b < 8 && x < 8 && (b & x) == 0 ==> (b & (!x & 0x7)) == b) by (bit_vector);
        lemma_bits_injective(masked_flag(e, j), e[j].1);
    }
    assert(masked(e) =~= e);
}

/// With unique targets, deduplication lists each target in place.
proof fn lemma_dedup_of_unique(e: Seq<(BasicBlockId, JumpFlag)>)
    requires
        targets_unique(e),
    ensures
        dedup_targets(e) =~= Seq::new(e.len(), |j: int| e[j].0),
    decreases e.len(),
{
    if e.len() > 0 {
        let p = e.drop_last();
        lemma_dedup_of_unique(p);
        lemma_dedup_contains(p, e.last().0);
        if dedup_targets(p).contains(e.last().0) {
            let j = choose|j: int| 0 <= j < p.len() && (#[trigger] p[j]).0 == e.last().0;
            assert(e[j].0 == e[e.len() - 1].0);
            assert(false);
        }
    }
}

/// With unique targets, the union a target gathers is its own flag.
proof fn lemma_target_or_unique(e: Seq<(BasicBlockId, JumpFlag)>, j: int)
    requires
        targets_unique(e),
        0 <= j < e.len(),
    ensures
        target_or(e, e[j].0) == e[j].1,
    decreases e.len(),
{
    let p = e.drop_last();
    if j == e.len() - 1 {
        assert(forall|k: int| 0 <= k < p.len() ==> (#[trigger] p[k]).0 != e[j].0);
        lemma_target_or_absent(p, e[j].0);
        lemma_or_never(e[j].1);
    } else {
        assert(e.last().0 != e[j].0);
        assert(p[j] == e[j]);
        lemma_target_or_unique(p, j);
    }
}

/// A live edge list survives the dead-edge filter unchanged.
proof fn lemma_keep_live_noop(e: Seq<(BasicBlockId, JumpFlag)>)
    requires
        no_never(e),
    ensures
        keep_live(e) == e,
    decreases e.len(),
{
    if e.len() > 0 {
        assert(e[e.len() - 1].1 != JumpFlag::Never);
        lemma_keep_live_noop(e.drop_last());
        assert(keep_live(e) =~= e);
    } else {
        assert(keep_live(e) =~= e);
    }
}

/// Canonical edges are a fixed point of the canonical form.
pub proof fn lemma_canonical_fixed(e: Seq<(BasicBlockId, JumpFlag)>)
    requires
        edges_canonical(e),
    ensures
        simplified(e) == e,
{
    lemma_masked_noop(e);
    lemma_dedup_of_unique(e);
    assert forall|q: int| 0 <= q < e.len() implies #[trigger] merged(e)[q] == e[q] by {
        lemma_target_or_unique(e, q);
    }
    assert(merged(e) =~= e);
    lemma_keep_live_noop(e);
}

/// The union of the flags around one position.
proof fn lemma_or_split(s: Seq<(BasicBlockId, JumpFlag)>, w: int)
    requires
        0 <= w < s.len(),
    ensures
        or_flags(s) == or_flags(s.take(w)).spec_or(s[w].1).spec_or(or_flags(s.skip(w + 1))),
{
    assert(s =~= s.take(w + 1) + s.skip(w + 1));
    lemma_or_flags_concat(s.take(w + 1), s.skip(w + 1));
    lemma_or_flags_take_succ(s, w);
}

/// Union over the whole list absorbs a flag merged into one entry.
proof fn lemma_or_update(s: Seq<(BasicBlockId, JumpFlag)>, w: int, t: BasicBlockId, g: JumpFlag)
    requires
        0 <= w < s.len(),
    ensures
        or_flags(s.update(w, (t, s[w].1.spec_or(g)))) == or_flags(s).spec_or(g),
{
    let u = s.update(w, (t, s[w].1.spec_or(g)));
    assert(u.take(w) =~= s.take(w));
    assert(u.skip(w + 1) =~= s.skip(w + 1));
    lemma_or_split(s, w);
    lemma_or_split(u, w);
    let a = or_flags(s.take(w));
    let b = s[w].1;
    let c = or_flags(s.skip(w + 1));
    lemma_flag_op_bits(b, g);
    lemma_flag_op_bits(a, b);
    lemma_flag_op_bits(a, b.spec_or(g));
    lemma_flag_op_bits(a.spec_or(b), c);
    lemma_flag_op_bits(a.spec_or(b.spec_or(g)), c);
    lemma_flag_op_bits(a.spec_or(b).spec_or(c), g);
    let x = a.bits();
    let y = b.bits();
    let z = c.bits();
    let h = g.bits();
    assert(((x | (y | h)) | z) == (((x | y) | z) | h)) by (bit_vector);
    lemma_bits_injective(
        or_flags(u.take(w)).spec_or(u[w].1).spec_or(or_flags(u.skip(w + 1))),
        or_flags(s).spec_or(g),
    );
}

/// Masking changes no union over a prefix.
proof fn lemma_or_masked_prefix(e: Seq<(BasicBlockId, JumpFlag)>, i: int)
    requires
        0 <= i <= e.len(),
    ensures
        or_flags(masked(e).take(i)) == or_flags(e.take(i)),
    decreases i,
{
    if i == 0 {
        assert(masked(e).take(0) =~= Seq::<(BasicBlockId, JumpFlag)>::empty());
        assert(e.take(0) =~= Seq::<(BasicBlockId, JumpFlag)>::empty());
    } else {
        lemma_or_masked_prefix(e, i - 1);
        lemma_or_flags_take_succ(masked(e), i - 1);
        lemma_or_flags_take_succ(e, i - 1);
        crate::jump_flag::lemma_or_absorb_masked(or_flags(e.take(i - 1)), e[i - 1].1);
    }
}

/// Coalescing by target changes no union.
proof fn lemma_or_merged(x: Seq<(BasicBlockId, JumpFlag)>)
    ensures
        or_flags(merged(x)) == or_flags(x),
    decreases x.len(),
{
    if x.len() == 0 {
        assert(merged(x) =~= Seq::<(BasicBlockId, JumpFlag)>::empty());
    } else {
        let p = x.drop_last();
        let t = x.last().0;
        let z = x.last().1;
        lemma_or_merged(p);
        lemma_dedup_unique(p);
        lemma_dedup_contains(p, t);
        let d = dedup_targets(p);
        if d.contains(t) {
            let w = choose|w: int| 0 <= w < d.len() && d[w] == t;
            assert forall|q: int| 0 <= q < d.len() implies #[trigger] merged(x)[q] == merged(
                p,
            ).update(w, (t, merged(p)[w].1.spec_or(z)))[q] by {
                if q == w {
                } else {
                    assert(d[q] != d[w]);
                }
            }
            assert(merged(x) =~= merged(p).update(w, (t, merged(p)[w].1.spec_or(z))));
            lemma_or_update(merged(p), w, t, z);
        } else {
            assert forall|q: int| 0 <= q < d.len() implies #[trigger] merged(x)[q] == merged(
                p,
            )[q] by {
                if d[q] == t {
                    assert(d.contains(t));
                    assert(false);
                }
            }
            assert(forall|j: int| 0 <= j < p.len() ==> (#[trigger] p[j]).0 != t);
            lemma_target_or_absent(p, t);
            lemma_or_never(z);
            assert(merged(x) =~= merged(p).push((t, z)));
            assert(merged(p).push((t, z)).drop_last() =~= merged(p));
        }
    }
}

/// Dropping dead edges changes no union.
proof fn lemma_or_keep_live(s: Seq<(BasicBlockId, JumpFlag)>)
    ensures
        or_flags(keep_live(s)) == or_flags(s),
    decreases s.len(),
{
    if s.len() > 0 {
        lemma_or_keep_live(s.drop_last());
        if s.last().1 != JumpFlag::Never {
            assert(keep_live(s.drop_last()).push(s.last()).drop_last() =~= keep_live(
                s.drop_last(),
            ));
        } else {
            lemma_or_never(or_flags(s.drop_last()));
        }
    }
}

/// The canonical form covers exactly what the original covered.
pub proof fn lemma_simplified_or(e: Seq<(BasicBlockId, JumpFlag)>)
    ensures
        or_flags(simplified(e)) == or_flags(e),
{
    lemma_or_keep_live(merged(masked(e)));
    lemma_or_merged(masked(e));
    lemma_or_masked_prefix(e, e.len() as int);
    assert(masked(e).take(e.len() as int) =~= masked(e));
    assert(e.take(e.len() as int) =~= e);
}

proof fn lemma_dedup_len(e: Seq<(BasicBlockId, JumpFlag)>)
    ensures
        dedup_targets(e).len() <= e.len(),
    decreases e.len(),
{
    if e.len() > 0 {
        lemma_dedup_len(e.drop_last());
    }
}

proof fn lemma_keep_live_len(s: Seq<(BasicBlockId, JumpFlag)>)
    ensures
        keep_live(s).len() <= s.len(),
    decreases s.len(),
{
    if s.len() > 0 {
        lemma_keep_live_len(s.drop_last());
    }
}

/// Canonicalizing never lengthens the edge list.
pub proof fn lemma_simplified_len(e: Seq<(BasicBlockId, JumpFlag)>)
    ensures
        simplified(e).len() <= e.len(),
{
    lemma_keep_live_len(merged(masked(e)));
    lemma_dedup_len(masked(e));
}

} // verus!

verus! {

use crate::instruction::{Address, Instruction};

/// Which of a two-instruction window's members a peephole rewrite
/// deletes: the first, the second, or both.
///
/// The same-address reload and bump rewrites fire only on direct
/// addresses: an indirect tile may point at itself after the first
/// write, so deleting the reload would change what the machine holds.
pub open spec fn del_pair(a: Instruction, b: Instruction) -> (bool, bool) {
    match (a, b) {
        (
            Instruction::CopyFrom(_) | Instruction::Add(_) | Instruction::Sub(_),
            Instruction::CopyFrom(_) | Instruction::BumpUp(_) | Instruction::BumpDn(_),
        ) => (true, false),
        (
            Instruction::CopyTo(Address::Direct(x))
            | Instruction::BumpUp(Address::Direct(x))
            | Instruction::BumpDn(Address::Direct(x)),
            Instruction::CopyFrom(Address::Direct(y)),
        ) => if x == y {
            (false, true)
        } else {
            (false, false)
        },
        (Instruction::Add(x), Instruction::Sub(y)) => if x == y {
            (true, true)
        } else {
            (false, false)
        },
        (Instruction::Sub(x), Instruction::Add(y)) => if x == y {
            (true, true)
        } else {
            (false, false)
        },
        (
            Instruction::BumpUp(Address::Direct(x)),
            Instruction::BumpDn(Address::Direct(y)),
        ) => if x == y {
            (true, true)
        } else {
            (false, false)
        },
        (
            Instruction::BumpDn(Address::Direct(x)),
            Instruction::BumpUp(Address::Direct(y)),
        ) => if x == y {
            (true, true)
        } else {
            (false, false)
        },
        _ => (false, false),
    }
}

/// Whether the instruction at `i` is deleted: some window covering it
/// asks for its deletion.
pub open spec fn peephole_deletes(s: Seq<Instruction>, i: int) -> bool {
    ||| (i + 1 < s.len() && del_pair(s[i], s[i + 1]).0)
    ||| (0 < i < s.len() && del_pair(s[i - 1], s[i]).1)
}

/// The first `n` instructions with the deleted ones removed.
pub open spec fn peephole_kept(s: Seq<Instruction>, n: int) -> Seq<Instruction>
    decreases n,
{
    if n <= 0 {
        Seq::empty()
    } else if peephole_deletes(s, n - 1) {
        peephole_kept(s, n - 1)
    } else {
        peephole_kept(s, n - 1).push(s[n - 1])
    }
}

/// The instruction list after one peephole sweep.
pub open spec fn peepholed(s: Seq<Instruction>) -> Seq<Instruction> {
    peephole_kept(s, s.len() as int)
}

/// Some window asks for a deletion.
pub open spec fn peephole_enabled(s: Seq<Instruction>) -> bool {
    exists|i: int| 0 <= i < s.len() && peephole_deletes(s, i)
}

proof fn lemma_peephole_kept_len(s: Seq<Instruction>, n: int)
    requires
        0 <= n <= s.len(),
    ensures
        peephole_kept(s, n).len() <= n,
        peephole_kept(s, n).len() == n <==> forall|i: int| 0 <= i < n ==> !peephole_deletes(s, i),
        peephole_kept(s, n).len() == n ==> peephole_kept(s, n) == s.take(n),
    decreases n,
{
    if n > 0 {
        lemma_peephole_kept_len(s, n - 1);
        if peephole_deletes(s, n - 1) {
            assert(!(forall|i: int| 0 <= i < n ==> !peephole_deletes(s, i)));
        } else {
            if peephole_kept(s, n).len() == n {
                assert(peephole_kept(s, n) =~= s.take(n));
            }
        }
    } else {
        assert(peephole_kept(s, n) =~= s.take(n));
    }
}

/// An exec decision matching `del_pair`.
fn del_pair_exec(a: &Instruction, b: &Instruction) -> (r: (bool, bool))
    ensures
        r == del_pair(*a, *b),
{
    match (a, b) {
        (
            Instruction::CopyFrom(_) | Instruction::Add(_) | Instruction::Sub(_),
            Instruction::CopyFrom(_) | Instruction::BumpUp(_) | Instruction::BumpDn(_),
        ) => (true, false),
        (
            Instruction::CopyTo(Address::Direct(x))
            | Instruction::BumpUp(Address::Direct(x))
            | Instruction::BumpDn(Address::Direct(x)),
            Instruction::CopyFrom(Address::Direct(y)),
        ) => if x == y {
            (false, true)
        } else {
            (false, false)
        },
        (Instruction::Add(x), Instruction::Sub(y)) => if x == y {
            (true, true)
        } else {
            (false, false)
        },
        (Instruction::Sub(x), Instruction::Add(y)) => if x == y {
            (true, true)
        } else {
            (false, false)
        },
        (
            Instruction::BumpUp(Address::Direct(x)),
            Instruction::BumpDn(Address::Direct(y)),
        ) => if x == y {
            (true, true)
        } else {
            (false, false)
        },
        (
            Instruction::BumpDn(Address::Direct(x)),
            Instruction::BumpUp(Address::Direct(y)),
        ) => if x == y {
            (true, true)
        } else {
            (false, false)
        },
        _ => (false, false),
    }
}

/// Deletes instructions that a window-of-two rewrite shows redundant:
/// accumulator writes immediately overwritten, a reload from a directly
/// addressed tile just written, and adjacent inverse arithmetic.
/// Returns whether anything was deleted.
pub fn peephole_optimizations(block: &mut BasicBlock) -> (r: bool)
    ensures
        final(block).id == old(block).id,
        final(block).outgoing_jumps@ == old(block).outgoing_jumps@,
        final(block).incoming_jumps@ == old(block).incoming_jumps@,
        final(block).instructions@ == peepholed(old(block).instructions@),
        final(block).instructions@.len() <= old(block).instructions@.len(),
        r == peephole_enabled(old(block).instructions@),
        r == (final(block).instructions@.len() < old(block).instructions@.len()),
        !r ==> *final(block) == *old(block),
{
    let n = block.instructions.len();
    let mut out: Vec<Instruction> = Vec::new();
    let mut i: usize = 0;
    while i < n
        invariant
            0 <= i <= n,
            n == block.instructions@.len(),
            block == old(block),
            out@ == peephole_kept(block.instructions@, i as int),
        decreases n - i,
    {
        let mut del = false;
        if i + 1 < n {
            let (d0, _) = del_pair_exec(&block.instructions[i], &block.instructions[i + 1]);
            del = d0;
        }
        if !del && i > 0 {
            let (_, d1) = del_pair_exec(&block.instructions[i - 1], &block.instructions[i]);
            del = d1;
        }
        proof {
            assert(del == peephole_deletes(block.instructions@, i as int));
        }
        if !del {
            let inst = block.instructions[i].duplicate();
            out.push(inst);
        }
        i = i + 1;
    }
    proof {
        lemma_peephole_kept_len(block.instructions@, n as int);
    }
    if out.len() < n {
        block.instructions = out;
        true
    } else {
        proof {
            assert(block.instructions@.take(n as int) =~= block.instructions@);
        }
        false
    }
}

/// Whether a window is statically guaranteed to fail at run time: an
/// `OUTBOX` empties the accumulator and the next instruction needs it.
pub open spec fn is_ub_window(a: Instruction, b: Instruction) -> bool {
    a is Outbox && match b {
        Instruction::Outbox | Instruction::CopyTo(_) | Instruction::Add(_) | Instruction::Sub(
            _,
        ) => true,
        _ => false,
    }
}

/// The window positions of statically guaranteed failures, in order.
pub open spec fn ub_windows(s: Seq<Instruction>, n: int) -> Seq<usize>
    decreases n,
{
    if n <= 1 {
        Seq::empty()
    } else if is_ub_window(s[n - 2], s[n - 1]) {
        ub_windows(s, n - 1).push((n - 2) as usize)
    } else {
        ub_windows(s, n - 1)
    }
}

/// Lists every position whose window is a statically guaranteed failure,
/// so a caller can report them. The rewrites delete nothing here.
pub fn outbox_consumer_warnings(block: &BasicBlock) -> (r: Vec<usize>)
    ensures
        r@ == ub_windows(block.instructions@, block.instructions@.len() as int),
{
    let n = block.instructions.len();
    let mut out: Vec<usize> = Vec::new();
    if n < 1 {
        return out;
    }
    let mut i: usize = 1;
    while i < n
        invariant
            1 <= i <= n,
            n == block.instructions@.len(),
            out@ == ub_windows(block.instructions@, i as int),
        decreases n - i,
    {
        let a = &block.instructions[i - 1];
        let b = &block.instructions[i];
        let ub = match (a, b) {
            (
                Instruction::Outbox,
                Instruction::Outbox | Instruction::CopyTo(_) | Instruction::Add(_)
                | Instruction::Sub(_),
            ) => true,
            _ => false,
        };
        if ub {
            out.push(i - 1);
        }
        i = i + 1;
    }
    out
}

/// The rewrites that are unsound through indirection do not fire: a
/// write through `[k]` followed by a read through `[k]`, and an
/// indirect bump pair, survive a peephole sweep unchanged.
pub proof fn lemma_peephole_keeps_indirect(k: usize)
    ensures
        peepholed(seq![
            Instruction::CopyTo(Address::Indirect(k)),
            Instruction::CopyFrom(Address::Indirect(k)),
        ]) == seq![
            Instruction::CopyTo(Address::Indirect(k)),
            Instruction::CopyFrom(Address::Indirect(k)),
        ],
        peepholed(seq![
            Instruction::BumpUp(Address::Indirect(k)),
            Instruction::BumpDn(Address::Indirect(k)),
        ]) == seq![
            Instruction::BumpUp(Address::Indirect(k)),
            Instruction::BumpDn(Address::Indirect(k)),
        ],
{
    let s1 = seq![
        Instruction::CopyTo(Address::Indirect(k)),
        Instruction::CopyFrom(Address::Indirect(k)),
    ];
    assert(!peephole_deletes(s1, 0));
    assert(!peephole_deletes(s1, 1));
    assert(peephole_kept(s1, 0) =~= Seq::<Instruction>::empty());
    assert(peephole_kept(s1, 1) =~= seq![s1[0]]);
    assert(peepholed(s1) =~= s1);
    let s2 = seq![
        Instruction::BumpUp(Address::Indirect(k)),
        Instruction::BumpDn(Address::Indirect(k)),
    ];
    assert(!peephole_deletes(s2, 0));
    assert(!peephole_deletes(s2, 1));
    assert(peephole_kept(s2, 0) =~= Seq::<Instruction>::empty());
    assert(peephole_kept(s2, 1) =~= seq![s2[0]]);
    assert(peepholed(s2) =~= s2);
}

} // verus!

verus! {

use crate::control_flow_graph::ProgramControlFlowGraph;
use crate::basic_blocks::ids_unique;

/// Some block's edge list is not yet in canonical form.
pub open spec fn simplify_enabled(s: Seq<BasicBlock>) -> bool {
    exists|j: int|
        0 <= j < s.len() && simplified((#[trigger] s[j]).outgoing_jumps@) != s[j].outgoing_jumps@
}

/// Some block has a deletable peephole window.
pub open spec fn peephole_any_enabled(s: Seq<BasicBlock>) -> bool {
    exists|j: int| 0 <= j < s.len() && peephole_enabled((#[trigger] s[j]).instructions@)
}

/// A rewrite applied block by block.
pub enum LocalPass {
    SimplifyOutgoingJumps,
    PeepholeOptimizations,
}

/// Lifts a per-block rewrite to a whole-graph pass: applies it to every
/// block and reports whether any block changed.
pub fn local_optimization(pass: &LocalPass, graph: &mut ProgramControlFlowGraph) -> (r: bool)
    ensures
        final(graph).initial_floor == old(graph).initial_floor,
        final(graph).blocks@.len() == old(graph).blocks@.len(),
        !r ==> final(graph).blocks@ == old(graph).blocks@,
        forall|j: int|
            0 <= j < old(graph).blocks@.len() ==> (#[trigger] final(graph).blocks@[j]).id == old(
                graph,
            ).blocks@[j].id,
        forall|j: int|
            0 <= j < old(graph).blocks@.len() ==> (#[trigger] final(graph).blocks@[
            j]).incoming_jumps@ == old(graph).blocks@[j].incoming_jumps@,
        match pass {
            LocalPass::SimplifyOutgoingJumps => {
                &&& forall|j: int|
                    0 <= j < old(graph).blocks@.len() ==> (#[trigger] final(graph).blocks@[
                    j]).outgoing_jumps@ == simplified(old(graph).blocks@[j].outgoing_jumps@)
                &&& forall|j: int|
                    0 <= j < old(graph).blocks@.len() ==> (#[trigger] final(graph).blocks@[
                    j]).instructions@ == old(graph).blocks@[j].instructions@
                &&& r == simplify_enabled(old(graph).blocks@)
            },
            LocalPass::PeepholeOptimizations => {
                &&& forall|j: int|
                    0 <= j < old(graph).blocks@.len() ==> (#[trigger] final(graph).blocks@[
                    j]).instructions@ == peepholed(old(graph).blocks@[j].instructions@)
                &&& forall|j: int|
                    0 <= j < old(graph).blocks@.len() ==> (#[trigger] final(graph).blocks@[
                    j]).outgoing_jumps@ == old(graph).blocks@[j].outgoing_jumps@
                &&& r == peephole_any_enabled(old(graph).blocks@)
            },
        },
{
    let n = graph.blocks.len();
    let mut changed = false;
    let mut j: usize = 0;
    match pass {
        LocalPass::SimplifyOutgoingJumps => {
            while j < n
                invariant
                    0 <= j <= n,
                    n == graph.blocks@.len(),
                    n == old(graph).blocks@.len(),
                    graph.initial_floor == old(graph).initial_floor,
                    forall|q: int|
                        0 <= q < n ==> (#[trigger] graph.blocks@[q]).id == old(graph).blocks@[q].id
                            && graph.blocks@[q].incoming_jumps@ == old(graph).blocks@[
                        q].incoming_jumps@ && graph.blocks@[q].instructions@ == old(
                            graph,
                        ).blocks@[q].instructions@,
                    forall|q: int|
                        0 <= q < j ==> (#[trigger] graph.blocks@[q]).outgoing_jumps@ == simplified(
                            old(graph).blocks@[q].outgoing_jumps@,
                        ),
                    forall|q: int|
                        j <= q < n ==> (#[trigger] graph.blocks@[q]).outgoing_jumps@ == old(
                            graph,
                        ).blocks@[q].outgoing_jumps@,
                    changed == exists|q: int|
                        0 <= q < j && simplified((#[trigger] old(graph).blocks@[q]).outgoing_jumps@)
                            != old(graph).blocks@[q].outgoing_jumps@,
                    changed || graph.blocks@ == old(graph).blocks@,
                decreases n - j,
            {
                let ghost pre = graph.blocks@;
                let c = simplify_outgoing_jumps(&mut graph.blocks[j]);
                proof {
                    if c {
                        assert(simplified(old(graph).blocks@[j as int].outgoing_jumps@) != old(
                            graph,
                        ).blocks@[j as int].outgoing_jumps@);
                    } else {
                        assert(graph.blocks@ =~= pre);
                    }
                }
                changed = changed || c;
                j = j + 1;
            }
        },
        LocalPass::PeepholeOptimizations => {
            while j < n
                invariant
                    0 <= j <= n,
                    n == graph.blocks@.len(),
                    n == old(graph).blocks@.len(),
                    graph.initial_floor == old(graph).initial_floor,
                    forall|q: int|
                        0 <= q < n ==> (#[trigger] graph.blocks@[q]).id == old(graph).blocks@[q].id
                            && graph.blocks@[q].incoming_jumps@ == old(graph).blocks@[
                        q].incoming_jumps@ && graph.blocks@[q].outgoing_jumps@ == old(
                            graph,
                        ).blocks@[q].outgoing_jumps@,
                    forall|q: int|
                        0 <= q < j ==> (#[trigger] graph.blocks@[q]).instructions@ == peepholed(
                            old(graph).blocks@[q].instructions@,
                        ),
                    forall|q: int|
                        j <= q < n ==> (#[trigger] graph.blocks@[q]).instructions@ == old(
                            graph,
                        ).blocks@[q].instructions@,
                    changed == exists|q: int|
                        0 <= q < j && peephole_enabled(
                            (#[trigger] old(graph).blocks@[q]).instructions@,
                        ),
                    changed || graph.blocks@ == old(graph).blocks@,
                decreases n - j,
            {
                let ghost pre = graph.blocks@;
                let c = peephole_optimizations(&mut graph.blocks[j]);
                proof {
                    if !c {
                        assert(graph.blocks@ =~= pre);
                    }
                }
                changed = changed || c;
                j = j + 1;
            }
        },
    }
    changed
}

} // verus!

verus! {

/// One peephole sweep never lengthens the instruction list, and deletes
/// something exactly when a window asks for a deletion.
pub proof fn lemma_peepholed_len(s: Seq<Instruction>)
    ensures
        peepholed(s).len() <= s.len(),
        peephole_enabled(s) ==> peepholed(s).len() < s.len(),
{
    lemma_peephole_kept_len(s, s.len() as int);
}

} // verus!

verus! {

use crate::basic_blocks::first_match;

/// The distance to the first edge whose flag shares a class with `a`.
pub open spec fn first_match_index(s: Seq<(BasicBlockId, JumpFlag)>, a: JumpFlag) -> int
    decreases s.len(),
{
    if s.len() == 0 {
        0
    } else if s[0].1.spec_and(a) != JumpFlag::Never {
        0
    } else {
        1 + first_match_index(s.drop_first(), a)
    }
}

/// What `first_match` returns, through its index.
proof fn lemma_first_match_props(s: Seq<(BasicBlockId, JumpFlag)>, a: JumpFlag)
    ensures
        0 <= first_match_index(s, a) <= s.len(),
        first_match_index(s, a) < s.len() ==> s[first_match_index(s, a)].1.spec_and(a)
            != JumpFlag::Never && first_match(s, a) == Some(s[first_match_index(s, a)].0),
        first_match_index(s, a) == s.len() ==> first_match(s, a) is None,
        forall|j: int|
            0 <= j < first_match_index(s, a) ==> (#[trigger] s[j]).1.spec_and(a)
                == JumpFlag::Never,
    decreases s.len(),
{
    if s.len() > 0 && s[0].1.spec_and(a) == JumpFlag::Never {
        lemma_first_match_props(s.drop_first(), a);
        let p = s.drop_first();
        let k = first_match_index(p, a);
        if k < p.len() {
            assert(s[1 + k] == p[k]);
        }
        assert forall|j: int| 0 <= j < first_match_index(s, a) implies (#[trigger] s[j]).1.spec_and(
            a,
        ) == JumpFlag::Never by {
            if j > 0 {
                assert(p[j - 1] == s[j]);
            }
        }
    }
}

/// The first match is pinned by a prefix of non-matches and one match.
proof fn lemma_first_match_at(s: Seq<(BasicBlockId, JumpFlag)>, a: JumpFlag, i: int)
    requires
        0 <= i < s.len(),
        forall|j: int| 0 <= j < i ==> (#[trigger] s[j]).1.spec_and(a) == JumpFlag::Never,
        s[i].1.spec_and(a) != JumpFlag::Never,
    ensures
        first_match(s, a) == Some(s[i].0),
{
    lemma_first_match_props(s, a);
    let k = first_match_index(s, a);
    if k < i {
        assert(s[k].1.spec_and(a) == JumpFlag::Never);
        assert(false);
    }
    if k > i {
        assert(s[i].1.spec_and(a) == JumpFlag::Never);
        assert(false);
    }
}

/// No match anywhere means no first match.
proof fn lemma_first_match_none(s: Seq<(BasicBlockId, JumpFlag)>, a: JumpFlag)
    requires
        forall|j: int| 0 <= j < s.len() ==> (#[trigger] s[j]).1.spec_and(a) == JumpFlag::Never,
    ensures
        first_match(s, a) is None,
{
    lemma_first_match_props(s, a);
    let k = first_match_index(s, a);
    if k < s.len() {
        assert(s[k].1.spec_and(a) == JumpFlag::Never);
        assert(false);
    }
}

/// A flag holds a class of the atom exactly when their bitsets meet.
proof fn lemma_contains_bits(f: JumpFlag, a: JumpFlag)
    ensures
        (f.spec_and(a) != JumpFlag::Never) == ((f.bits() & a.bits()) != 0),
{
    lemma_flag_op_bits(f, a);
    if (f.bits() & a.bits()) == 0 {
        lemma_bits_injective(f.spec_and(a), JumpFlag::Never);
    }
}

/// A bit held by no flag is not in the union.
proof fn lemma_or_bit_absent(s: Seq<(BasicBlockId, JumpFlag)>, bit: u8)
    requires
        forall|j: int| 0 <= j < s.len() ==> ((#[trigger] s[j]).1.bits() & bit) == 0,
    ensures
        (or_flags(s).bits() & bit) == 0,
    decreases s.len(),
{
    if s.len() == 0 {
        assert((0u8 & bit) == 0) by (bit_vector);
    } else {
        assert(forall|j: int|
            0 <= j < s.drop_last().len() ==> ((#[trigger] s.drop_last()[j]).1.bits() & bit) == 0);
        lemma_or_bit_absent(s.drop_last(), bit);
        assert((s[s.len() - 1].1.bits() & bit) == 0);
        let x = or_flags(s.drop_last()).bits();
        let y = s.last().1.bits();
        lemma_flag_op_bits(or_flags(s.drop_last()), s.last().1);
        assert((x & bit) == 0 && (y & bit) == 0 ==> ((x | y) & bit) == 0) by (bit_vector);
    }
}

/// A target's gathered union holds a bit exactly as its members do.
proof fn lemma_target_or_bit(
    m: Seq<(BasicBlockId, JumpFlag)>,
    t: BasicBlockId,
    bit: u8,
)
    ensures
        ((target_or(m, t).bits() & bit) != 0) == exists|k: int|
            0 <= k < m.len() && (#[trigger] m[k]).0 == t && ((m[k].1.bits() & bit) != 0),
    decreases m.len(),
{
    if m.len() == 0 {
        assert((0u8 & bit) == 0) by (bit_vector);
    } else {
        let p = m.drop_last();
        lemma_target_or_bit(p, t, bit);
        let g = target_or(p, t).bits();
        let y = m.last().1.bits();
        assert((exists|k: int|
            0 <= k < m.len() && (#[trigger] m[k]).0 == t && ((m[k].1.bits() & bit) != 0))
            == ((exists|k: int|
            0 <= k < p.len() && (#[trigger] p[k]).0 == t && ((p[k].1.bits() & bit) != 0)) || (
        m.last().0 == t && (y & bit) != 0))) by {
            if exists|k: int|
                0 <= k < m.len() && (#[trigger] m[k]).0 == t && ((m[k].1.bits() & bit) != 0) {
                let k = choose|k: int|
                    0 <= k < m.len() && (#[trigger] m[k]).0 == t && ((m[k].1.bits() & bit) != 0);
                if k < m.len() - 1 {
                    assert(p[k].0 == t && (p[k].1.bits() & bit) != 0);
                }
            }
            if exists|k: int|
                0 <= k < p.len() && (#[trigger] p[k]).0 == t && ((p[k].1.bits() & bit) != 0) {
                let k = choose|k: int|
                    0 <= k < p.len() && (#[trigger] p[k]).0 == t && ((p[k].1.bits() & bit) != 0);
                assert(m[k].0 == t && (m[k].1.bits() & bit) != 0);
            }
            if m.last().0 == t && (y & bit) != 0 {
                assert(m[m.len() - 1].0 == t && (m[m.len() - 1].1.bits() & bit) != 0);
            }
        }
        if m.last().0 == t {
            lemma_flag_op_bits(target_or(p, t), m.last().1);
            assert(((g | y) & bit) != 0 == ((g & bit) != 0 || (y & bit) != 0)) by (bit_vector);
        }
    }
}

} // verus!

verus! {

/// A single sign class: one of the three atoms of the lattice.
pub open spec fn is_atom(a: JumpFlag) -> bool {
    a == JumpFlag::IfZero || a == JumpFlag::IfNegative || a == JumpFlag::IfPositive
}

/// Masking changes no first match.
proof fn lemma_fm_masked(e: Seq<(BasicBlockId, JumpFlag)>, a: JumpFlag)
    requires
        is_atom(a),
    ensures
        first_match(masked(e), a) == first_match(e, a),
{
    let m = masked(e);
    let bit = a.bits();
    lemma_first_match_props(e, a);
    let i = first_match_index(e, a);
    if i < e.len() {
        // no earlier edge holds the class, so the union of the prefix
        // does not either, and masking leaves it in place
        assert forall|j: int| 0 <= j < i implies ((#[trigger] e[j]).1.bits() & bit) == 0 by {
            lemma_contains_bits(e[j].1, a);
        }
        assert forall|j: int| 0 <= j < i implies (#[trigger] m[j]).1.spec_and(a)
            == JumpFlag::Never by {
            lemma_contains_bits(e[j].1, a);
            lemma_contains_bits(masked_flag(e, j), a);
            lemma_flag_op_bits(or_flags(e.take(j)), or_flags(e.take(j)));
            lemma_flag_op_bits(e[j].1, or_flags(e.take(j)).spec_not());
            let x = e[j].1.bits();
            let o = or_flags(e.take(j)).bits();
            assert((x & bit) == 0 && o < 8 ==> ((x & (!o & 0x7)) & bit) == 0) by (bit_vector);
        }
        assert(m[i].1.spec_and(a) != JumpFlag::Never) by {
            assert(e.take(i) =~= e.take(i));
            assert(forall|j: int|
                0 <= j < i ==> ((#[trigger] e.take(i)[j]).1.bits() & bit) == 0);
            lemma_or_bit_absent(e.take(i), bit);
            lemma_contains_bits(e[i].1, a);
            lemma_contains_bits(masked_flag(e, i), a);
            lemma_flag_op_bits(or_flags(e.take(i)), or_flags(e.take(i)));
            lemma_flag_op_bits(e[i].1, or_flags(e.take(i)).spec_not());
            let x = e[i].1.bits();
            let o = or_flags(e.take(i)).bits();
            assert((x & bit) != 0 && (o & bit) == 0 && x < 8 && o < 8 && (bit == 1 || bit == 2
                || bit == 4) ==> ((x & (!o & 0x7)) & bit) != 0) by (bit_vector);
        }
        lemma_first_match_at(m, a, i);
    } else {
        assert forall|j: int| 0 <= j < m.len() implies (#[trigger] m[j]).1.spec_and(a)
            == JumpFlag::Never by {
            lemma_contains_bits(e[j].1, a);
            lemma_contains_bits(masked_flag(e, j), a);
            lemma_flag_op_bits(or_flags(e.take(j)), or_flags(e.take(j)));
            lemma_flag_op_bits(e[j].1, or_flags(e.take(j)).spec_not());
            let x = e[j].1.bits();
            let o = or_flags(e.take(j)).bits();
            assert((x & bit) == 0 && o < 8 ==> ((x & (!o & 0x7)) & bit) == 0) by (bit_vector);
        }
        lemma_first_match_none(m, a);
    }
}

/// With disjoint flags, coalescing by target changes no first match.
proof fn lemma_fm_merged(m: Seq<(BasicBlockId, JumpFlag)>, a: JumpFlag)
    requires
        is_atom(a),
        flags_disjoint(m),
    ensures
        first_match(merged(m), a) == first_match(m, a),
{
    let g = merged(m);
    let d = dedup_targets(m);
    let bit = a.bits();
    lemma_first_match_props(m, a);
    lemma_dedup_unique(m);
    let i = first_match_index(m, a);
    if i < m.len() {
        let t = m[i].0;
        // the atom sits in exactly one edge: flags are pairwise disjoint
        assert forall|j: int| 0 <= j < m.len() && j != i implies ((#[trigger] m[j]).1.bits()
            & bit) == 0 by {
            if j < i {
                lemma_contains_bits(m[j].1, a);
            } else {
                assert(m[i].1.spec_and(m[j].1) == JumpFlag::Never);
                lemma_flag_op_bits(m[i].1, m[j].1);
                lemma_contains_bits(m[i].1, a);
                let x = m[i].1.bits();
                let y = m[j].1.bits();
                assert((x & y) == 0 && (x & bit) != 0 && (bit == 1 || bit == 2 || bit == 4) && x
                    < 8 && y < 8 ==> (y & bit) == 0) by (bit_vector);
            }
        }
        lemma_contains_bits(m[i].1, a);
        // so exactly one group holds it: the group of that edge's target
        lemma_dedup_contains(m, t);
        assert(m[i].0 == t);
        assert(d.contains(t));
        let w = choose|w: int| 0 <= w < d.len() && d[w] == t;
        assert forall|q: int| 0 <= q < g.len() && q != w implies (#[trigger] g[q]).1.spec_and(a)
            == JumpFlag::Never by {
            lemma_target_or_bit(m, d[q], bit);
            lemma_contains_bits(target_or(m, d[q]), a);
            assert(d[q] != t);
            if exists|k: int|
                0 <= k < m.len() && (#[trigger] m[k]).0 == d[q] && ((m[k].1.bits() & bit) != 0) {
                let k = choose|k: int|
                    0 <= k < m.len() && (#[trigger] m[k]).0 == d[q] && ((m[k].1.bits() & bit)
                        != 0);
                assert(k != i);
                assert(false);
            }
        }
        assert(g[w].1.spec_and(a) != JumpFlag::Never) by {
            lemma_target_or_bit(m, t, bit);
            lemma_contains_bits(target_or(m, t), a);
            assert(m[i].0 == t && ((m[i].1.bits() & bit) != 0));
        }
        lemma_first_match_at(g, a, w);
        assert(g[w].0 == t);
    } else {
        assert forall|q: int| 0 <= q < g.len() implies (#[trigger] g[q]).1.spec_and(a)
            == JumpFlag::Never by {
            lemma_target_or_bit(m, d[q], bit);
            lemma_contains_bits(target_or(m, d[q]), a);
            if exists|k: int|
                0 <= k < m.len() && (#[trigger] m[k]).0 == d[q] && ((m[k].1.bits() & bit) != 0) {
                let k = choose|k: int|
                    0 <= k < m.len() && (#[trigger] m[k]).0 == d[q] && ((m[k].1.bits() & bit)
                        != 0);
                lemma_contains_bits(m[k].1, a);
                assert(false);
            }
        }
        lemma_first_match_none(g, a);
    }
}

/// The first match over a list with one more edge at the end.
proof fn lemma_fm_push(
    p: Seq<(BasicBlockId, JumpFlag)>,
    x: (BasicBlockId, JumpFlag),
    a: JumpFlag,
)
    ensures
        first_match(p.push(x), a) == if first_match(p, a) is Some {
            first_match(p, a)
        } else if x.1.spec_and(a) != JumpFlag::Never {
            Some(x.0)
        } else {
            None
        },
    decreases p.len(),
{
    if p.len() == 0 {
        assert(p.push(x)[0] == x);
        assert(p.push(x).drop_first() =~= p);
    } else {
        assert(p.push(x)[0] == p[0]);
        if p[0].1.spec_and(a) == JumpFlag::Never {
            assert(p.push(x).drop_first() =~= p.drop_first().push(x));
            lemma_fm_push(p.drop_first(), x, a);
        }
    }
}

/// Dropping dead edges changes no first match.
proof fn lemma_fm_keep_live(s: Seq<(BasicBlockId, JumpFlag)>, a: JumpFlag)
    ensures
        first_match(keep_live(s), a) == first_match(s, a),
    decreases s.len(),
{
    if s.len() > 0 {
        let p = s.drop_last();
        lemma_fm_keep_live(p, a);
        lemma_fm_push(p, s.last(), a);
        assert(p.push(s.last()) =~= s);
        if s.last().1 != JumpFlag::Never {
            lemma_fm_push(keep_live(p), s.last(), a);
        } else {
            lemma_flag_op_bits(JumpFlag::Never, a);
            let c = a.bits();
            assert((0u8 & c) == 0) by (bit_vector);
            lemma_bits_injective(JumpFlag::Never.spec_and(a), JumpFlag::Never);
        }
    }
}

/// Canonicalizing a block's edges never changes where the machine goes:
/// for every sign class, the first matching edge of the original list
/// and the unique matching edge of the canonical list name the same
/// target.
pub proof fn lemma_simplified_first_match(e: Seq<(BasicBlockId, JumpFlag)>, a: JumpFlag)
    requires
        is_atom(a),
    ensures
        first_match(simplified(e), a) == first_match(e, a),
{
    lemma_fm_masked(e, a);
    lemma_masked_disjoint(e);
    lemma_fm_merged(masked(e), a);
    lemma_fm_keep_live(merged(masked(e)), a);
}

} // verus!

verus! {

/// The first edge whose flag's bitset meets a sign atom's bit is the
/// atom's first match.
pub proof fn lemma_first_match_from_bits(
    e: Seq<(BasicBlockId, JumpFlag)>,
    a: JumpFlag,
    k: int,
)
    requires
        is_atom(a),
        0 <= k < e.len(),
        (e[k].1.bits() & a.bits()) != 0,
        forall|q: int| 0 <= q < k ==> ((#[trigger] e[q]).1.bits() & a.bits()) == 0,
    ensures
        first_match(e, a) == Some(e[k].0),
{
    lemma_contains_bits(e[k].1, a);
    assert forall|q: int| 0 <= q < k implies (#[trigger] e[q]).1.spec_and(a)
        == JumpFlag::Never by {
        lemma_contains_bits(e[q].1, a);
    }
    lemma_first_match_at(e, a, k);
}

} // verus!

//! Graph-level passes: dead-block removal, sequential coalescing, and
//! empty-block bypass.

use vstd::prelude::*;
use crate::basic_blocks::{
    covers_always, ids_unique, lemma_or_flags_concat, or_flags, BasicBlock, BasicBlockId,
};
use crate::control_flow_graph::ProgramControlFlowGraph;
use crate::jump_flag::{lemma_bits_injective, lemma_flag_op_bits, JumpFlag};

verus! {

/// A block the dead-block pass retains: the entry, or one something
/// jumps to.
pub open spec fn retained(b: BasicBlock) -> bool {
    b.id.0 == 0 || b.incoming_jumps@.len() > 0
}

/// The blocks that survive dead-block removal, in order.
pub open spec fn live_blocks(s: Seq<BasicBlock>) -> Seq<BasicBlock>
    decreases s.len(),
{
    if s.len() == 0 {
        Seq::empty()
    } else if retained(s.last()) {
        live_blocks(s.drop_last()).push(s.last())
    } else {
        live_blocks(s.drop_last())
    }
}

/// Every block of a graph covers every sign class.
pub open spec fn cover_all(s: Seq<BasicBlock>) -> bool {
    forall|j: int| 0 <= j < s.len() ==> covers_always((#[trigger] s[j]).outgoing_jumps@)
}

proof fn lemma_live_len(s: Seq<BasicBlock>)
    ensures
        live_blocks(s).len() <= s.len(),
        live_blocks(s).len() == s.len() <==> forall|j: int|
            0 <= j < s.len() ==> retained(#[trigger] s[j]),
        live_blocks(s).len() == s.len() ==> live_blocks(s) == s,
    decreases s.len(),
{
    if s.len() > 0 {
        lemma_live_len(s.drop_last());
        if retained(s.last()) {
            assert(s[s.len() - 1] == s.last());
            if live_blocks(s).len() == s.len() {
                assert(live_blocks(s.drop_last()) == s.drop_last());
                assert(live_blocks(s) =~= s);
            }
        } else {
            assert(!retained(s[s.len() - 1]));
        }
    }
}

pub proof fn lemma_live_mem(s: Seq<BasicBlock>, k: int)
    requires
        0 <= k < live_blocks(s).len(),
    ensures
        exists|j: int| 0 <= j < s.len() && #[trigger] s[j] == live_blocks(s)[k],
    decreases s.len(),
{
    if s.len() > 0 && retained(s.last()) && k == live_blocks(s).len() - 1 {
        assert(s[s.len() - 1] == live_blocks(s)[k]);
    } else {
        lemma_live_mem(s.drop_last(), k);
        let j = choose|j: int|
            0 <= j < s.drop_last().len() && #[trigger] s.drop_last()[j] == live_blocks(
                s.drop_last(),
            )[k];
        assert(s[j] == live_blocks(s)[k]);
    }
}

proof fn lemma_live_pairwise(s: Seq<BasicBlock>)
    requires
        ids_unique(s),
    ensures
        ids_unique(live_blocks(s)),
    decreases s.len(),
{
    if s.len() > 0 {
        lemma_live_pairwise(s.drop_last());
        if retained(s.last()) {
            let l = live_blocks(s);
            assert forall|a: int, b: int| 0 <= a < b < l.len() implies (#[trigger] l[a]).id != (
            #[trigger] l[b]).id by {
                if b < l.len() - 1 {
                    assert(l[a] == live_blocks(s.drop_last())[a]);
                    assert(l[b] == live_blocks(s.drop_last())[b]);
                } else {
                    lemma_live_mem(s.drop_last(), a);
                    let j = choose|j: int|
                        0 <= j < s.drop_last().len() && #[trigger] s.drop_last()[j] == live_blocks(
                            s.drop_last(),
                        )[a];
                    assert(s[j] == l[a]);
                    assert(l[b] == s[s.len() - 1]);
                }
            }
        }
    }
}

/// Drops every block other than the entry that nothing jumps to.
/// Returns whether any block was removed.
pub fn remove_dead_blocks(graph: &mut ProgramControlFlowGraph) -> (r: bool)
    requires
        ids_unique(old(graph).blocks@),
        cover_all(old(graph).blocks@),
    ensures
        final(graph).initial_floor == old(graph).initial_floor,
        final(graph).blocks@ == live_blocks(old(graph).blocks@),
        ids_unique(final(graph).blocks@),
        cover_all(final(graph).blocks@),
        final(graph).blocks@.len() <= old(graph).blocks@.len(),
        r == (final(graph).blocks@.len() < old(graph).blocks@.len()),
        !r ==> final(graph).blocks@ == old(graph).blocks@,
        r <==> exists|j: int|
            0 <= j < old(graph).blocks@.len() && !retained(#[trigger] old(graph).blocks@[j]),
{
    let ghost s0 = old(graph).blocks@;
    let n0 = graph.blocks.len();
    let mut i: usize = 0;
    let ghost mut k: int = 0;
    while i < graph.blocks.len()
        invariant
            0 <= i <= graph.blocks@.len(),
            0 <= k <= s0.len(),
            graph.initial_floor == old(graph).initial_floor,
            graph.blocks@.take(i as int) == live_blocks(s0.take(k)),
            graph.blocks@.skip(i as int) == s0.skip(k),
            i == live_blocks(s0.take(k)).len(),
        decreases s0.len() - k,
    {
        proof {
            assert(graph.blocks@.skip(i as int).len() > 0);
            assert(s0.skip(k).len() > 0);
            assert(k < s0.len());
            assert(s0.take(k + 1).drop_last() =~= s0.take(k));
            assert(s0.take(k + 1).last() == s0[k]);
            assert(graph.blocks@[i as int] == graph.blocks@.skip(i as int)[0]);
            assert(s0[k] == s0.skip(k)[0]);
        }
        let keep = graph.blocks[i].id.0 == 0 || graph.blocks[i].incoming_jumps.len() > 0;
        if keep {
            proof {
                assert(retained(s0[k]));
                assert(graph.blocks@.take(i as int + 1) =~= graph.blocks@.take(i as int).push(
                    graph.blocks@[i as int],
                ));
                assert(graph.blocks@.skip(i as int + 1) =~= s0.skip(k + 1)) by {
                    assert forall|q: int|
                        0 <= q < graph.blocks@.len() - i - 1 implies #[trigger] graph.blocks@.skip(
                        i as int + 1,
                    )[q] == s0.skip(k + 1)[q] by {
                        assert(graph.blocks@.skip(i as int)[q + 1] == s0.skip(k)[q + 1]);
                    }
                }
                k = k + 1;
            }
            i = i + 1;
        } else {
            let ghost pre = graph.blocks@;
            graph.blocks.remove(i);
            proof {
                assert(!retained(s0[k]));
                assert(graph.blocks@ == pre.remove(i as int));
                assert(graph.blocks@.take(i as int) =~= pre.take(i as int));
                assert(graph.blocks@.take(i as int) =~= live_blocks(s0.take(k + 1)));
                assert(graph.blocks@.skip(i as int) =~= s0.skip(k + 1)) by {
                    assert forall|q: int|
                        0 <= q < graph.blocks@.len() - i implies #[trigger] graph.blocks@.skip(
                        i as int,
                    )[q] == s0.skip(k + 1)[q] by {
                        assert(graph.blocks@[i + q] == pre[i + q + 1]);
                        assert(pre.skip(i as int)[q + 1] == s0.skip(k)[q + 1]);
                    }
                }
                k = k + 1;
            }
        }
    }
    proof {
        assert(s0.skip(k) =~= Seq::<BasicBlock>::empty());
        assert(k == s0.len());
        assert(s0.take(k) =~= s0);
        assert(graph.blocks@.take(i as int) =~= graph.blocks@);
        lemma_live_len(s0);
        lemma_live_pairwise(s0);
        assert forall|q: int| 0 <= q < live_blocks(s0).len() implies covers_always(
            (#[trigger] live_blocks(s0)[q]).outgoing_jumps@,
        ) by {
            lemma_live_mem(s0, q);
        }
        if live_blocks(s0).len() == s0.len() {
            assert(graph.blocks@ == old(graph).blocks@);
        }
    }
    graph.blocks.len() < n0
}

} // verus!

verus! {

/// Adjacent blocks the coalescing pass may fuse: the first falls through
/// only to the second, and the second is reached only from the first.
pub open spec fn mergeable(u: BasicBlock, v: BasicBlock) -> bool {
    u.outgoing_jumps@ == seq![(v.id, JumpFlag::Always)] && v.incoming_jumps@ == seq![
        (u.id, JumpFlag::Always),
    ]
}

/// Some adjacent pair can be fused.
pub open spec fn combine_enabled(s: Seq<BasicBlock>) -> bool {
    exists|i: int| 0 <= i && i + 1 < s.len() && mergeable(#[trigger] s[i], s[i + 1])
}

/// The block a fusion produces: the first block's id, incoming index and
/// instructions followed by the second block's, and the second block's
/// outgoing edges.
pub open spec fn fused_block(m: BasicBlock, u: BasicBlock, v: BasicBlock) -> bool {
    m.id == u.id && m.instructions@ == u.instructions@ + v.instructions@ && m.outgoing_jumps@
        == v.outgoing_jumps@ && m.incoming_jumps@ == u.incoming_jumps@
}

/// How one coalescing sweep rewrites the block list: scanning from the
/// front, a mergeable pair is fused (and the fusion is reconsidered
/// against the next block); any other block is kept, as the same value,
/// in order.
pub open spec fn combine_rel(s: Seq<BasicBlock>, t: Seq<BasicBlock>) -> bool
    decreases s.len(),
{
    if s.len() < 2 {
        t == s
    } else if mergeable(s[0], s[1]) {
        exists|m: BasicBlock| fused_block(m, s[0], s[1]) && combine_rel(seq![m] + s.skip(2), t)
    } else {
        t.len() > 0 && t[0] == s[0] && combine_rel(s.drop_first(), t.drop_first())
    }
}

/// A block the dead-block pass keeps at the front stays at the front.
pub proof fn lemma_live_first(s: Seq<BasicBlock>)
    requires
        s.len() > 0,
        retained(s[0]),
    ensures
        live_blocks(s).len() > 0,
        live_blocks(s)[0] == s[0],
    decreases s.len(),
{
    if s.len() == 1 {
        assert(s[0] == s.last());
    } else {
        assert(s.drop_last()[0] == s[0]);
        lemma_live_first(s.drop_last());
        if retained(s.last()) {
            assert(live_blocks(s)[0] == live_blocks(s.drop_last())[0]);
        }
    }
}

/// Coalescing draws every id from the input and keeps the first block's
/// id at the front.
pub proof fn lemma_combine_rel_ids(s: Seq<BasicBlock>, t: Seq<BasicBlock>)
    requires
        combine_rel(s, t),
    ensures
        crate::basic_blocks::ids_from(t, s),
        s.len() > 0 ==> t.len() > 0 && t[0].id == s[0].id,
    decreases s.len(),
{
    if s.len() < 2 {
        assert forall|j: int| 0 <= j < t.len() implies crate::basic_blocks::contains_id(
            s,
            (#[trigger] t[j]).id,
        ) by {
            crate::basic_blocks::lemma_contains_id_at(s, j);
        }
    } else if mergeable(s[0], s[1]) {
        let m = choose|m: BasicBlock|
            fused_block(m, s[0], s[1]) && combine_rel(#[trigger] seq![m] + s.skip(2), t);
        let s2 = seq![m] + s.skip(2);
        lemma_combine_rel_ids(s2, t);
        assert forall|q: int| 0 <= q < s2.len() implies crate::basic_blocks::contains_id(
            s,
            (#[trigger] s2[q]).id,
        ) by {
            if q == 0 {
                crate::basic_blocks::lemma_contains_id_at(s, 0);
                assert(s2[0].id == s[0].id);
            } else {
                assert(s2[q] == s[q + 1]);
                crate::basic_blocks::lemma_contains_id_at(s, q + 1);
            }
        }
        crate::basic_blocks::lemma_ids_from_compose(s, s2, t);
        assert(s2.len() > 0 && s2[0].id == s[0].id);
    } else {
        lemma_combine_rel_ids(s.drop_first(), t.drop_first());
        assert forall|q: int| 0 <= q < s.drop_first().len() implies crate::basic_blocks::contains_id(
            s,
            (#[trigger] s.drop_first()[q]).id,
        ) by {
            assert(s.drop_first()[q] == s[q + 1]);
            crate::basic_blocks::lemma_contains_id_at(s, q + 1);
        }
        assert forall|j: int| 0 <= j < t.len() implies crate::basic_blocks::contains_id(
            s,
            (#[trigger] t[j]).id,
        ) by {
            if j == 0 {
                crate::basic_blocks::lemma_contains_id_at(s, 0);
                assert(t[0].id == s[0].id);
            } else {
                assert(t.drop_first()[j - 1] == t[j]);
                assert(crate::basic_blocks::contains_id(s.drop_first(), t[j].id));
                crate::basic_blocks::lemma_contains_id_through(s.drop_first(), s, t[j].id);
            }
        }
    }
}

/// Bypassing draws every id from the input and keeps the entry block's
/// id at the front.
pub proof fn lemma_empty_rel_ids(s: Seq<BasicBlock>, t: Seq<BasicBlock>)
    requires
        empty_rel(s, t),
    ensures
        crate::basic_blocks::ids_from(t, s),
        s.len() > 0 ==> t.len() > 0 && t[0].id == s[0].id,
    decreases s.len(),
{
    let i = first_empty(s);
    if !(1 <= i < s.len()) {
        assert forall|j: int| 0 <= j < t.len() implies crate::basic_blocks::contains_id(
            s,
            (#[trigger] t[j]).id,
        ) by {
            crate::basic_blocks::lemma_contains_id_at(s, j);
        }
    } else {
        let mid = choose|mid: Seq<BasicBlock>|
            {
                &&& mid.len() == s.len()
                &&& same_block_views(mid[i], s[i])
                &&& forall|q: int|
                    0 <= q < s.len() && q != i ==> bypassed_block(
                        #[trigger] mid[q],
                        s[q],
                        s[i].id,
                        s[i].outgoing_jumps@,
                    )
                &&& empty_rel(#[trigger] mid.remove(i), t)
            };
        lemma_empty_rel_ids(mid.remove(i), t);
        assert forall|q: int| 0 <= q < mid.remove(i).len() implies crate::basic_blocks::contains_id(
            s,
            (#[trigger] mid.remove(i)[q]).id,
        ) by {
            if q < i {
                assert(mid.remove(i)[q] == mid[q]);
                assert(mid[q].id == s[q].id);
                crate::basic_blocks::lemma_contains_id_at(s, q);
            } else {
                assert(mid.remove(i)[q] == mid[q + 1]);
                assert(mid[q + 1].id == s[q + 1].id);
                crate::basic_blocks::lemma_contains_id_at(s, q + 1);
            }
        }
        crate::basic_blocks::lemma_ids_from_compose(s, mid.remove(i), t);
        if s.len() > 0 {
            assert(mid.remove(i)[0] == mid[0]);
            assert(mid.remove(i).len() > 0);
        }
    }
}

/// Keeping a non-mergeable block extends a partial rewrite by one
/// position.
proof fn lemma_combine_keep_step(s0: Seq<BasicBlock>, cur: Seq<BasicBlock>, i: int)
    requires
        0 <= i,
        i + 1 < cur.len(),
        !mergeable(cur[i], cur[i + 1]),
        forall|t: Seq<BasicBlock>|
            #[trigger] combine_rel(cur.skip(i), t) ==> combine_rel(s0, cur.take(i) + t),
    ensures
        forall|t: Seq<BasicBlock>|
            #[trigger] combine_rel(cur.skip(i + 1), t) ==> combine_rel(s0, cur.take(i + 1) + t),
{
    assert forall|t: Seq<BasicBlock>| #[trigger] combine_rel(cur.skip(i + 1), t) implies combine_rel(
        s0,
        cur.take(i + 1) + t,
    ) by {
        let s = cur.skip(i);
        assert(s[0] == cur[i]);
        assert(s[1] == cur[i + 1]);
        let t2 = seq![cur[i]] + t;
        assert(t2[0] == s[0]);
        assert(s.drop_first() =~= cur.skip(i + 1));
        assert(t2.drop_first() =~= t);
        assert(combine_rel(s, t2));
        assert(combine_rel(s0, cur.take(i) + t2));
        assert(cur.take(i) + t2 =~= cur.take(i + 1) + t);
    }
}

/// Fusing a mergeable pair in place keeps the partial rewrite at the
/// same position.
proof fn lemma_combine_merge_step(
    s0: Seq<BasicBlock>,
    pre: Seq<BasicBlock>,
    cur: Seq<BasicBlock>,
    i: int,
)
    requires
        0 <= i,
        i + 1 < pre.len(),
        cur.len() == pre.len() - 1,
        mergeable(pre[i], pre[i + 1]),
        fused_block(cur[i], pre[i], pre[i + 1]),
        forall|q: int| 0 <= q < i ==> #[trigger] cur[q] == pre[q],
        forall|q: int| i < q < cur.len() ==> #[trigger] cur[q] == pre[q + 1],
        forall|t: Seq<BasicBlock>|
            #[trigger] combine_rel(pre.skip(i), t) ==> combine_rel(s0, pre.take(i) + t),
    ensures
        forall|t: Seq<BasicBlock>|
            #[trigger] combine_rel(cur.skip(i), t) ==> combine_rel(s0, cur.take(i) + t),
{
    assert forall|t: Seq<BasicBlock>| #[trigger] combine_rel(cur.skip(i), t) implies combine_rel(
        s0,
        cur.take(i) + t,
    ) by {
        assert(seq![cur[i]] + pre.skip(i + 2) =~= cur.skip(i));
        assert(pre.skip(i)[0] == pre[i]);
        assert(pre.skip(i)[1] == pre[i + 1]);
        assert(mergeable(pre.skip(i)[0], pre.skip(i)[1]));
        assert(pre.skip(i).skip(2) =~= pre.skip(i + 2));
        assert(combine_rel(pre.skip(i), t));
        assert(combine_rel(s0, pre.take(i) + t));
        assert(cur.take(i) =~= pre.take(i));
    }
}

/// Fuses adjacent pairs where the first block's only exit is an
/// unconditional fall-through to the second and the second's only way in
/// is from the first. Returns whether any pair was fused.
#[verifier::rlimit(60)]
pub fn combine_sequential_blocks(graph: &mut ProgramControlFlowGraph) -> (r: bool)
    requires
        ids_unique(old(graph).blocks@),
        cover_all(old(graph).blocks@),
    ensures
        final(graph).initial_floor == old(graph).initial_floor,
        ids_unique(final(graph).blocks@),
        cover_all(final(graph).blocks@),
        final(graph).blocks@.len() <= old(graph).blocks@.len(),
        r == (final(graph).blocks@.len() < old(graph).blocks@.len()),
        !r ==> final(graph).blocks@ == old(graph).blocks@,
        r <==> combine_enabled(old(graph).blocks@),
        crate::basic_blocks::total_instructions(final(graph).blocks@)
            == crate::basic_blocks::total_instructions(old(graph).blocks@),
        combine_rel(old(graph).blocks@, final(graph).blocks@),
{
    let ghost s0 = old(graph).blocks@;
    let n0 = graph.blocks.len();
    let mut changed = false;
    let mut i: usize = 0;
    proof {
        assert forall|t: Seq<BasicBlock>| #[trigger] combine_rel(
            graph.blocks@.skip(0),
            t,
        ) implies combine_rel(s0, graph.blocks@.take(0) + t) by {
            assert(graph.blocks@.skip(0) =~= s0);
            assert(graph.blocks@.take(0) + t =~= t);
        }
    }
    while i < graph.blocks.len() && i + 1 < graph.blocks.len()
        invariant
            0 <= i <= graph.blocks@.len(),
            graph.initial_floor == old(graph).initial_floor,
            ids_unique(graph.blocks@),
            cover_all(graph.blocks@),
            graph.blocks@.len() <= s0.len(),
            changed == (graph.blocks@.len() < s0.len()),
            changed ==> combine_enabled(s0),
            crate::basic_blocks::total_instructions(graph.blocks@)
                == crate::basic_blocks::total_instructions(s0),
            !changed ==> graph.blocks@ == s0 && forall|j: int|
                0 <= j && j + 1 <= i && j + 1 < s0.len() ==> !mergeable(#[trigger] s0[j], s0[j + 1]),
            forall|t: Seq<BasicBlock>|
                #[trigger] combine_rel(graph.blocks@.skip(i as int), t) ==> combine_rel(
                    s0,
                    graph.blocks@.take(i as int) + t,
                ),
        decreases graph.blocks@.len() - i,
    {
        let ok = graph.blocks[i].outgoing_jumps.len() == 1
            && graph.blocks[i + 1].incoming_jumps.len() == 1 && {
            let e = graph.blocks[i].outgoing_jumps[0];
            let f = graph.blocks[i + 1].incoming_jumps[0];
            e.0.0 == graph.blocks[i + 1].id.0 && e.1 == JumpFlag::Always && f.0.0
                == graph.blocks[i].id.0 && f.1 == JumpFlag::Always
        };
        proof {
            if ok {
                assert(graph.blocks@[i as int].outgoing_jumps@ =~= seq![
                    (graph.blocks@[i as int + 1].id, JumpFlag::Always),
                ]);
                assert(graph.blocks@[i as int + 1].incoming_jumps@ =~= seq![
                    (graph.blocks@[i as int].id, JumpFlag::Always),
                ]);
                assert(mergeable(graph.blocks@[i as int], graph.blocks@[i as int + 1]));
            } else {
                if graph.blocks@[i as int].outgoing_jumps@ == seq![
                    (graph.blocks@[i as int + 1].id, JumpFlag::Always),
                ] && graph.blocks@[i as int + 1].incoming_jumps@ == seq![
                    (graph.blocks@[i as int].id, JumpFlag::Always),
                ] {
                    assert(graph.blocks@[i as int].outgoing_jumps@.len() == 1);
                    assert(graph.blocks@[i as int].outgoing_jumps@[0] == (
                        graph.blocks@[i as int + 1].id,
                        JumpFlag::Always,
                    ));
                    assert(graph.blocks@[i as int + 1].incoming_jumps@[0] == (
                        graph.blocks@[i as int].id,
                        JumpFlag::Always,
                    ));
                    assert(false);
                }
                assert(!mergeable(graph.blocks@[i as int], graph.blocks@[i as int + 1]));
            }
        }
        if ok {
            proof {
                if !changed {
                    assert(mergeable(s0[i as int], s0[i as int + 1]));
                }
            }
            let ghost pre = graph.blocks@;
            let mut w = graph.blocks.remove(i + 1);
            graph.blocks[i].instructions.append(&mut w.instructions);
            graph.blocks[i].outgoing_jumps = w.outgoing_jumps;
            changed = true;
            proof {
                let cur = graph.blocks@;
                assert(cur.len() == pre.len() - 1);
                assert(forall|q: int| 0 <= q < i ==> cur[q] == pre[q]);
                assert(forall|q: int| i < q < cur.len() ==> cur[q] == pre[q + 1]);
                assert(cur[i as int].id == pre[i as int].id);
                assert(cur[i as int].outgoing_jumps@ == pre[i as int + 1].outgoing_jumps@);
                assert forall|a: int, b: int| 0 <= a < b < cur.len() implies (#[trigger] cur[a]).id
                    != (#[trigger] cur[b]).id by {
                    let pa: int = if a <= i { a } else { a + 1 };
                    let pb: int = if b <= i { b } else { b + 1 };
                    assert(cur[a].id == pre[pa].id);
                    assert(cur[b].id == pre[pb].id);
                }
                assert forall|q: int| 0 <= q < cur.len() implies covers_always(
                    (#[trigger] cur[q]).outgoing_jumps@,
                ) by {
                    if q == i {
                        assert(covers_always(pre[i as int + 1].outgoing_jumps@));
                    } else if q < i {
                        assert(cur[q] == pre[q]);
                    } else {
                        assert(cur[q] == pre[q + 1]);
                    }
                }
                // the fused block holds both instruction lists, so the
                // instruction total is conserved
                assert(cur[i as int].instructions@ == pre[i as int].instructions@ + pre[i as int
                    + 1].instructions@);
                crate::basic_blocks::lemma_total_instr_split(cur, i as int);
                crate::basic_blocks::lemma_total_instr_split(pre, i as int);
                crate::basic_blocks::lemma_total_instr_split(pre, i as int + 1);
                assert(cur.take(i as int) =~= pre.take(i as int));
                assert(cur.skip(i as int + 1) =~= pre.skip(i as int + 2));
                assert(pre.take(i as int + 1).drop_last() =~= pre.take(i as int));
                assert(pre.take(i as int + 1).last() == pre[i as int]);
                // one fusion step extends the rewrite relation
                assert(cur[i as int].incoming_jumps@ == pre[i as int].incoming_jumps@);
                assert(fused_block(cur[i as int], pre[i as int], pre[i as int + 1]));
                lemma_combine_merge_step(s0, pre, cur, i as int);
            }
        } else {
            proof {
                lemma_combine_keep_step(s0, graph.blocks@, i as int);
            }
            i = i + 1;
        }
    }
    proof {
        let cur = graph.blocks@;
        assert(combine_rel(cur.skip(i as int), cur.skip(i as int))) by {
            assert(cur.skip(i as int).len() < 2);
        }
        assert(combine_rel(s0, cur.take(i as int) + cur.skip(i as int)));
        assert(cur.take(i as int) + cur.skip(i as int) =~= cur);
    }
    changed
}

/// The flags of an edge list, each narrowed by one condition.
pub open spec fn and_all(wlist: Seq<(BasicBlockId, JumpFlag)>, f: JumpFlag) -> Seq<
    (BasicBlockId, JumpFlag),
> {
    Seq::new(wlist.len(), |q: int| (wlist[q].0, wlist[q].1.spec_and(f)))
}

/// The edges of a block that do not point at the bypassed block.
pub open spec fn bypass_keep(
    out: Seq<(BasicBlockId, JumpFlag)>,
    wid: BasicBlockId,
) -> Seq<(BasicBlockId, JumpFlag)>
    decreases out.len(),
{
    if out.len() == 0 {
        Seq::empty()
    } else if out.last().0 != wid {
        bypass_keep(out.drop_last(), wid).push(out.last())
    } else {
        bypass_keep(out.drop_last(), wid)
    }
}

/// The replacement edges: for each edge into the bypassed block, its
/// outgoing edges narrowed by that edge's condition, appended in order.
pub open spec fn bypass_tail(
    out: Seq<(BasicBlockId, JumpFlag)>,
    wid: BasicBlockId,
    wlist: Seq<(BasicBlockId, JumpFlag)>,
) -> Seq<(BasicBlockId, JumpFlag)>
    decreases out.len(),
{
    if out.len() == 0 {
        Seq::empty()
    } else if out.last().0 == wid {
        bypass_tail(out.drop_last(), wid, wlist) + and_all(wlist, out.last().1)
    } else {
        bypass_tail(out.drop_last(), wid, wlist)
    }
}

/// Narrowing every flag by one condition narrows the union the same way.
proof fn lemma_or_and_all(wlist: Seq<(BasicBlockId, JumpFlag)>, f: JumpFlag)
    ensures
        or_flags(and_all(wlist, f)) == or_flags(wlist).spec_and(f),
    decreases wlist.len(),
{
    if wlist.len() == 0 {
        lemma_flag_op_bits(JumpFlag::Never, f);
        let c = f.bits();
        assert((0 & c) == 0) by (bit_vector);
        lemma_bits_injective(JumpFlag::Never, or_flags(wlist).spec_and(f));
    } else {
        let p = wlist.drop_last();
        lemma_or_and_all(p, f);
        assert(and_all(wlist, f).drop_last() =~= and_all(p, f));
        assert(and_all(wlist, f).last() == (wlist.last().0, wlist.last().1.spec_and(f)));
        let a = or_flags(p);
        let b = wlist.last().1;
        lemma_flag_op_bits(a, f);
        lemma_flag_op_bits(b, f);
        lemma_flag_op_bits(a.spec_and(f), b.spec_and(f));
        lemma_flag_op_bits(a, b);
        lemma_flag_op_bits(a.spec_or(b), f);
        let x = a.bits();
        let y = b.bits();
        let c = f.bits();
        assert(((x & c) | (y & c)) == ((x | y) & c)) by (bit_vector);
        lemma_bits_injective(
            or_flags(and_all(p, f)).spec_or(and_all(wlist, f).last().1),
            or_flags(wlist).spec_and(f),
        );
    }
}

/// Bypassing a block that covered every sign class keeps the union of
/// the rewritten block's flags.
proof fn lemma_bypass_or(
    out: Seq<(BasicBlockId, JumpFlag)>,
    wid: BasicBlockId,
    wlist: Seq<(BasicBlockId, JumpFlag)>,
)
    requires
        or_flags(wlist) == JumpFlag::Always,
    ensures
        or_flags(bypass_keep(out, wid) + bypass_tail(out, wid, wlist)) == or_flags(out),
    decreases out.len(),
{
    if out.len() == 0 {
        assert(bypass_keep(out, wid) + bypass_tail(out, wid, wlist) =~= Seq::<
            (BasicBlockId, JumpFlag),
        >::empty());
    } else {
        let p = out.drop_last();
        let f = out.last().1;
        lemma_bypass_or(p, wid, wlist);
        let kp = bypass_keep(p, wid);
        let tp = bypass_tail(p, wid, wlist);
        lemma_or_flags_concat(kp, tp);
        let a = or_flags(kp).bits();
        let b = or_flags(tp).bits();
        let c = f.bits();
        lemma_flag_op_bits(or_flags(kp), or_flags(tp));
        lemma_flag_op_bits(or_flags(p), f);
        if out.last().0 == wid {
            lemma_or_and_all(wlist, f);
            lemma_flag_op_bits(JumpFlag::Always, f);
            assert(c < 8 ==> (0x7u8 & c) == c) by (bit_vector);
            lemma_bits_injective(or_flags(and_all(wlist, f)), f);
            assert(bypass_keep(out, wid) == kp);
            assert(bypass_tail(out, wid, wlist) == tp + and_all(wlist, f));
            lemma_or_flags_concat(kp, tp + and_all(wlist, f));
            lemma_or_flags_concat(tp, and_all(wlist, f));
            lemma_flag_op_bits(or_flags(tp), or_flags(and_all(wlist, f)));
            lemma_flag_op_bits(or_flags(kp), or_flags(tp).spec_or(f));
            assert((a | (b | c)) == ((a | b) | c)) by (bit_vector);
            lemma_bits_injective(
                or_flags(bypass_keep(out, wid) + bypass_tail(out, wid, wlist)),
                or_flags(out),
            );
        } else {
            assert(bypass_keep(out, wid) == kp.push(out.last()));
            assert(bypass_tail(out, wid, wlist) == tp);
            lemma_or_flags_concat(kp.push(out.last()), tp);
            assert(kp.push(out.last()).drop_last() =~= kp);
            lemma_flag_op_bits(or_flags(kp), f);
            lemma_flag_op_bits(or_flags(kp).spec_or(f), or_flags(tp));
            assert(((a | c) | b) == ((a | b) | c)) by (bit_vector);
            lemma_bits_injective(
                or_flags(bypass_keep(out, wid) + bypass_tail(out, wid, wlist)),
                or_flags(out),
            );
        }
    }
}

/// Some non-entry block holds no instructions.
pub open spec fn empty_enabled(s: Seq<BasicBlock>) -> bool {
    exists|j: int| 1 <= j < s.len() && (#[trigger] s[j]).instructions@.len() == 0
}

/// The first non-entry position at or after `j` holding no instructions,
/// or the length when there is none.
pub open spec fn first_empty_from(s: Seq<BasicBlock>, j: int) -> int
    decreases s.len() - j,
{
    if !(0 <= j < s.len()) {
        s.len() as int
    } else if s[j].instructions@.len() == 0 {
        j
    } else {
        first_empty_from(s, j + 1)
    }
}

/// The first non-entry position holding no instructions.
pub open spec fn first_empty(s: Seq<BasicBlock>) -> int {
    first_empty_from(s, 1)
}

/// Two blocks with the same id, instructions and edges.
pub open spec fn same_block_views(a: BasicBlock, b: BasicBlock) -> bool {
    a.id == b.id && a.instructions@ == b.instructions@ && a.outgoing_jumps@ == b.outgoing_jumps@
        && a.incoming_jumps@ == b.incoming_jumps@
}

/// One block after bypassing the block with id `wid` whose edges were
/// `wout`: only the outgoing edges change, into the kept edges followed
/// by the narrowed replacements.
pub open spec fn bypassed_block(
    nb: BasicBlock,
    ob: BasicBlock,
    wid: BasicBlockId,
    wout: Seq<(BasicBlockId, JumpFlag)>,
) -> bool {
    nb.id == ob.id && nb.instructions@ == ob.instructions@ && nb.incoming_jumps@
        == ob.incoming_jumps@ && nb.outgoing_jumps@ == bypass_keep(ob.outgoing_jumps@, wid)
        + bypass_tail(ob.outgoing_jumps@, wid, wout)
}

/// How the bypass pass rewrites the block list: while a non-entry block
/// with no instructions exists, the first such block is bypassed in
/// every other block and removed.
pub open spec fn empty_rel(s: Seq<BasicBlock>, t: Seq<BasicBlock>) -> bool
    decreases s.len(),
{
    let i = first_empty(s);
    if !(1 <= i < s.len()) {
        t == s
    } else {
        exists|mid: Seq<BasicBlock>|
            {
                &&& mid.len() == s.len()
                &&& same_block_views(mid[i], s[i])
                &&& forall|q: int|
                    0 <= q < s.len() && q != i ==> bypassed_block(
                        #[trigger] mid[q],
                        s[q],
                        s[i].id,
                        s[i].outgoing_jumps@,
                    )
                &&& empty_rel(#[trigger] mid.remove(i), t)
            }
    }
}

proof fn lemma_first_empty_from_at(s: Seq<BasicBlock>, j: int, a: int)
    requires
        1 <= j <= a <= s.len(),
        forall|q: int| j <= q < a ==> (#[trigger] s[q]).instructions@.len() > 0,
        a == s.len() || s[a].instructions@.len() == 0,
    ensures
        first_empty_from(s, j) == a,
    decreases a - j,
{
    if j < a {
        lemma_first_empty_from_at(s, j + 1, a);
    }
}

/// One bypass-and-remove round extends a partial rewrite.
proof fn lemma_empty_rel_step(
    s0: Seq<BasicBlock>,
    cur: Seq<BasicBlock>,
    mid: Seq<BasicBlock>,
    nxt: Seq<BasicBlock>,
    i: int,
)
    requires
        1 <= i < cur.len(),
        first_empty(cur) == i,
        mid.len() == cur.len(),
        same_block_views(mid[i], cur[i]),
        forall|q: int|
            0 <= q < cur.len() && q != i ==> bypassed_block(
                #[trigger] mid[q],
                cur[q],
                cur[i].id,
                cur[i].outgoing_jumps@,
            ),
        nxt == mid.remove(i),
        forall|t: Seq<BasicBlock>| #[trigger] empty_rel(cur, t) ==> empty_rel(s0, t),
    ensures
        forall|t: Seq<BasicBlock>| #[trigger] empty_rel(nxt, t) ==> empty_rel(s0, t),
{
    assert forall|t: Seq<BasicBlock>| #[trigger] empty_rel(nxt, t) implies empty_rel(s0, t) by {
        assert(empty_rel(cur, t));
    }
}

/// Rewrites one block's edges to bypass the block with id `wid`: every
/// edge into it is replaced by that block's own edges, each narrowed by
/// the bypassed edge's condition and appended at the end.
fn bypass_block_edges(
    block: &mut BasicBlock,
    wid: BasicBlockId,
    wlist: &Vec<(BasicBlockId, JumpFlag)>,
)
    ensures
        final(block).id == old(block).id,
        final(block).instructions@ == old(block).instructions@,
        final(block).incoming_jumps@ == old(block).incoming_jumps@,
        final(block).outgoing_jumps@ == bypass_keep(old(block).outgoing_jumps@, wid) + bypass_tail(
            old(block).outgoing_jumps@,
            wid,
            wlist@,
        ),
{
    let ghost e0 = block.outgoing_jumps@;
    let n = block.outgoing_jumps.len();
    let mut keep: Vec<(BasicBlockId, JumpFlag)> = Vec::new();
    let mut tail: Vec<(BasicBlockId, JumpFlag)> = Vec::new();
    let mut i: usize = 0;
    while i < n
        invariant
            0 <= i <= n,
            n == block.outgoing_jumps@.len(),
            block.outgoing_jumps@ == e0,
            block.id == old(block).id,
            block.instructions@ == old(block).instructions@,
            block.incoming_jumps@ == old(block).incoming_jumps@,
            keep@ == bypass_keep(e0.take(i as int), wid),
            tail@ == bypass_tail(e0.take(i as int), wid, wlist@),
        decreases n - i,
    {
        proof {
            assert(e0.take(i as int + 1).drop_last() =~= e0.take(i as int));
            assert(e0.take(i as int + 1).last() == e0[i as int]);
        }
        let (t, f) = block.outgoing_jumps[i];
        if t.0 == wid.0 {
            let m = wlist.len();
            let ghost tp = tail@;
            let mut q: usize = 0;
            while q < m
                invariant
                    0 <= q <= m,
                    m == wlist@.len(),
                    tail@ == tp + and_all(wlist@.take(q as int), f),
                decreases m - q,
            {
                let (x, g) = wlist[q];
                tail.push((x, g.and(f)));
                proof {
                    assert(and_all(wlist@.take(q as int + 1), f) =~= and_all(
                        wlist@.take(q as int),
                        f,
                    ).push((wlist@[q as int].0, wlist@[q as int].1.spec_and(f))));
                    assert(tail@ =~= tp + and_all(wlist@.take(q as int + 1), f));
                }
                q = q + 1;
            }
            proof {
                assert(wlist@.take(m as int) =~= wlist@);
                assert(t == e0[i as int].0 && f == e0[i as int].1);
                assert(t.0 == wid.0 ==> t == wid);
            }
        } else {
            keep.push((t, f));
            proof {
                assert(keep@ =~= bypass_keep(e0.take(i as int), wid).push(e0[i as int]));
            }
        }
        i = i + 1;
    }
    proof {
        assert(e0.take(n as int) =~= e0);
    }
    let mut out = keep;
    out.append(&mut tail);
    block.outgoing_jumps = out;
}

/// Removes every non-entry block with no instructions, routing each
/// edge into it onward through its own edges, narrowed by the incoming
/// condition. Sound when the caller has just canonicalized every
/// block's edges, as the fixed-point driver does. Returns whether any
/// block was removed.
pub fn remove_empty_blocks(graph: &mut ProgramControlFlowGraph) -> (r: bool)
    requires
        ids_unique(old(graph).blocks@),
        cover_all(old(graph).blocks@),
    ensures
        final(graph).initial_floor == old(graph).initial_floor,
        ids_unique(final(graph).blocks@),
        cover_all(final(graph).blocks@),
        final(graph).blocks@.len() <= old(graph).blocks@.len(),
        r == (final(graph).blocks@.len() < old(graph).blocks@.len()),
        !r ==> final(graph).blocks@ == old(graph).blocks@,
        r <==> empty_enabled(old(graph).blocks@),
        !empty_enabled(final(graph).blocks@),
        crate::basic_blocks::total_instructions(final(graph).blocks@)
            == crate::basic_blocks::total_instructions(old(graph).blocks@),
        empty_rel(old(graph).blocks@, final(graph).blocks@),
{
    let ghost s0 = old(graph).blocks@;
    let n0 = graph.blocks.len();
    let mut changed = false;
    loop
        invariant
            forall|t: Seq<BasicBlock>|
                #[trigger] empty_rel(graph.blocks@, t) ==> empty_rel(s0, t),
            graph.initial_floor == old(graph).initial_floor,
            ids_unique(graph.blocks@),
            cover_all(graph.blocks@),
            graph.blocks@.len() <= s0.len(),
            changed == (graph.blocks@.len() < s0.len()),
            changed ==> empty_enabled(s0),
            !changed ==> graph.blocks@ == s0,
            crate::basic_blocks::total_instructions(graph.blocks@)
                == crate::basic_blocks::total_instructions(s0),
        ensures
            !empty_enabled(graph.blocks@),
            empty_rel(s0, graph.blocks@),
            graph.initial_floor == old(graph).initial_floor,
            ids_unique(graph.blocks@),
            cover_all(graph.blocks@),
            graph.blocks@.len() <= s0.len(),
            changed == (graph.blocks@.len() < s0.len()),
            changed ==> empty_enabled(s0),
            !changed ==> graph.blocks@ == s0,
            crate::basic_blocks::total_instructions(graph.blocks@)
                == crate::basic_blocks::total_instructions(s0),
        decreases graph.blocks@.len(),
    {
        // find the first non-entry block with no instructions
        let n = graph.blocks.len();
        let mut found: Option<usize> = None;
        let mut j: usize = 1;
        while j < n
            invariant
                1 <= j <= n || n == 0,
                n == graph.blocks@.len(),
                match found {
                    Some(w) => 1 <= w < n && graph.blocks@[w as int].instructions@.len() == 0
                        && forall|q: int|
                        1 <= q < w ==> (#[trigger] graph.blocks@[q]).instructions@.len() > 0,
                    None => forall|q: int|
                        1 <= q < j ==> (#[trigger] graph.blocks@[q]).instructions@.len() > 0,
                },
            decreases n - j,
        {
            if found.is_none() && graph.blocks[j].instructions.len() == 0 {
                found = Some(j);
            }
            j = j + 1;
        }
        let i = match found {
            Some(i) => i,
            None => {
                proof {
                    assert(!empty_enabled(graph.blocks@));
                    if graph.blocks@.len() > 1 {
                        lemma_first_empty_from_at(
                            graph.blocks@,
                            1,
                            graph.blocks@.len() as int,
                        );
                    }
                    assert(!(1 <= first_empty(graph.blocks@) < graph.blocks@.len()));
                    assert(empty_rel(graph.blocks@, graph.blocks@));
                }
                break;
            },
        };
        proof {
            lemma_first_empty_from_at(graph.blocks@, 1, i as int);
            assert(first_empty(graph.blocks@) == i);
        }
        proof {
            if !changed {
                assert(empty_enabled(s0));
            }
        }
        let wid = graph.blocks[i].id;
        let wlist = crate::basic_blocks::copy_edges(&graph.blocks[i].outgoing_jumps);
        proof {
            assert(covers_always(wlist@));
        }
        let ghost pre = graph.blocks@;
        let mut p: usize = 0;
        while p < graph.blocks.len()
            invariant
                0 <= p <= graph.blocks@.len(),
                graph.blocks@.len() == pre.len(),
                (i as int) < pre.len(),
                graph.initial_floor == old(graph).initial_floor,
                or_flags(wlist@) == JumpFlag::Always,
                wid == pre[i as int].id,
                wlist@ == pre[i as int].outgoing_jumps@,
                forall|q: int|
                    0 <= q < pre.len() ==> (#[trigger] graph.blocks@[q]).id == pre[q].id
                        && graph.blocks@[q].instructions@ == pre[q].instructions@
                        && graph.blocks@[q].incoming_jumps@ == pre[q].incoming_jumps@,
                forall|q: int|
                    p <= q < pre.len() ==> (#[trigger] graph.blocks@[q]).outgoing_jumps@
                        == pre[q].outgoing_jumps@,
                graph.blocks@[i as int].outgoing_jumps@ == pre[i as int].outgoing_jumps@,
                forall|q: int|
                    0 <= q < p && q != i ==> (#[trigger] graph.blocks@[q]).outgoing_jumps@
                        == bypass_keep(pre[q].outgoing_jumps@, wid) + bypass_tail(
                        pre[q].outgoing_jumps@,
                        wid,
                        wlist@,
                    ),
                forall|q: int|
                    0 <= q < pre.len() ==> covers_always(
                        (#[trigger] graph.blocks@[q]).outgoing_jumps@,
                    ),
                ids_unique(graph.blocks@),
            decreases graph.blocks@.len() - p,
        {
            if p != i {
                let ghost before = graph.blocks@[p as int].outgoing_jumps@;
                bypass_block_edges(&mut graph.blocks[p], wid, &wlist);
                proof {
                    lemma_bypass_or(before, wid, wlist@);
                }
            }
            p = p + 1;
        }
        let ghost mid = graph.blocks@;
        proof {
            // the bypass rewrites touched no instruction list
            crate::basic_blocks::lemma_totals_pointwise_instr(mid, pre);
            crate::basic_blocks::lemma_totals_pointwise_instr(pre, mid);
            // and the removed block holds none, so the total is kept
            crate::basic_blocks::lemma_total_instr_split(mid, i as int);
        }
        graph.blocks.remove(i);
        changed = true;
        proof {
            let cur = graph.blocks@;
            assert(same_block_views(mid[i as int], pre[i as int]));
            assert forall|q: int| 0 <= q < pre.len() && q != i implies bypassed_block(
                #[trigger] mid[q],
                pre[q],
                pre[i as int].id,
                pre[i as int].outgoing_jumps@,
            ) by {}
            assert(cur == mid.remove(i as int));
            lemma_empty_rel_step(s0, pre, mid, cur, i as int);
            assert(cur =~= mid.take(i as int) + mid.skip(i as int + 1));
            crate::basic_blocks::lemma_total_instr_concat(
                mid.take(i as int),
                mid.skip(i as int + 1),
            );
            assert(forall|q: int| 0 <= q < i ==> cur[q] == mid[q]);
            assert(forall|q: int| i <= q < cur.len() ==> cur[q] == mid[q + 1]);
            assert forall|a: int, b: int| 0 <= a < b < cur.len() implies (#[trigger] cur[a]).id != (
            #[trigger] cur[b]).id by {
                let pa: int = if a < i { a } else { a + 1 };
                let pb: int = if b < i { b } else { b + 1 };
                assert(cur[a].id == mid[pa].id);
                assert(cur[b].id == mid[pb].id);
            }
            assert forall|q: int| 0 <= q < cur.len() implies covers_always(
                (#[trigger] cur[q]).outgoing_jumps@,
            ) by {
                if q < i {
                    assert(cur[q] == mid[q]);
                } else {
                    assert(cur[q] == mid[q + 1]);
                }
            }
        }
    }
    changed
}

} // verus!

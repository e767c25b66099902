//! The control-flow graph: a sequence of basic blocks plus the initial
//! floor, with a rebuilt-from-scratch inverse edge index.

use vstd::prelude::*;
use crate::basic_blocks::{find_block_index, ids_unique, BasicBlock, BasicBlockId};
use crate::datacube::DataCube;
use crate::jump_flag::JumpFlag;

verus! {

/// A program as basic blocks. The block at position 0 is the entry; the
/// id equal to the block count stands for normal termination.
pub struct ProgramControlFlowGraph {
    pub initial_floor: Vec<Option<DataCube>>,
    pub blocks: Vec<BasicBlock>,
}

/// The incoming records that one block's outgoing edges owe the block
/// with id `v`: one `(u, f)` entry per edge `(v, f)`, in edge order.
pub open spec fn edge_contrib(
    uid: BasicBlockId,
    out: Seq<(BasicBlockId, JumpFlag)>,
    v: BasicBlockId,
) -> Seq<(BasicBlockId, JumpFlag)>
    decreases out.len(),
{
    if out.len() == 0 {
        Seq::empty()
    } else {
        edge_contrib(uid, out.drop_last(), v) + if out.last().0 == v {
            seq![(uid, out.last().1)]
        } else {
            Seq::empty()
        }
    }
}

/// The full incoming list owed to the block with id `v`: contributions
/// of all blocks in position order.
pub open spec fn incoming_for(blocks: Seq<BasicBlock>, v: BasicBlockId) -> Seq<
    (BasicBlockId, JumpFlag),
>
    decreases blocks.len(),
{
    if blocks.len() == 0 {
        Seq::empty()
    } else {
        incoming_for(blocks.drop_last(), v) + edge_contrib(
            blocks.last().id,
            blocks.last().outgoing_jumps@,
            v,
        )
    }
}

/// Two blocks that agree on everything but their incoming index.
pub open spec fn same_except_incoming(a: BasicBlock, b: BasicBlock) -> bool {
    a.id == b.id && a.instructions@ == b.instructions@ && a.outgoing_jumps@ == b.outgoing_jumps@
}

/// The incoming list owed to a block reads only ids and outgoing edges,
/// never the incoming fields themselves.
pub proof fn lemma_incoming_for_congruent(a: Seq<BasicBlock>, b: Seq<BasicBlock>, v: BasicBlockId)
    requires
        a.len() == b.len(),
        forall|j: int| 0 <= j < a.len() ==> same_except_incoming(#[trigger] a[j], b[j]),
    ensures
        incoming_for(a, v) == incoming_for(b, v),
    decreases a.len(),
{
    if a.len() > 0 {
        assert(forall|j: int|
            0 <= j < a.drop_last().len() ==> same_except_incoming(
                #[trigger] a.drop_last()[j],
                b.drop_last()[j],
            ));
        lemma_incoming_for_congruent(a.drop_last(), b.drop_last(), v);
        assert(same_except_incoming(a[a.len() - 1], b[a.len() - 1]));
        assert(a.last().id == b.last().id);
        assert(a.last().outgoing_jumps@ == b.last().outgoing_jumps@);
    }
}

impl ProgramControlFlowGraph {
    /// The inverse index is exact: every block's incoming list is
    /// precisely what the blocks' outgoing edges owe it.
    pub open spec fn inv_incoming(&self) -> bool {
        forall|j: int|
            0 <= j < self.blocks@.len() ==> (#[trigger] self.blocks@[j]).incoming_jumps@
                == incoming_for(self.blocks@, self.blocks@[j].id)
    }

    /// Rebuilds every block's incoming list from the outgoing edges.
    /// Mandatory after any pass that changed an outgoing edge.
    pub fn refresh_incoming_jumps(&mut self)
        requires
            ids_unique(old(self).blocks@),
        ensures
            final(self).initial_floor == old(self).initial_floor,
            final(self).blocks@.len() == old(self).blocks@.len(),
            forall|j: int|
                0 <= j < old(self).blocks@.len() ==> same_except_incoming(
                    #[trigger] final(self).blocks@[j],
                    old(self).blocks@[j],
                ),
            final(self).inv_incoming(),
    {
        let n = self.blocks.len();

        let mut j: usize = 0;
        while j < n
            invariant
                0 <= j <= n,
                n == self.blocks@.len(),
                n == old(self).blocks@.len(),
                self.initial_floor == old(self).initial_floor,
                forall|k: int|
                    0 <= k < n ==> same_except_incoming(
                        #[trigger] self.blocks@[k],
                        old(self).blocks@[k],
                    ),
                forall|k: int|
                    0 <= k < j ==> (#[trigger] self.blocks@[k]).incoming_jumps@ =~= Seq::<
                        (BasicBlockId, JumpFlag),
                    >::empty(),
            decreases n - j,
        {
            self.blocks[j].incoming_jumps = Vec::new();
            j = j + 1;
        }

        proof {
            assert(ids_unique(self.blocks@));
            assert(self.blocks@.take(0) =~= Seq::<BasicBlock>::empty());
        }

        let mut i: usize = 0;
        while i < n
            invariant
                0 <= i <= n,
                n == self.blocks@.len(),
                n == old(self).blocks@.len(),
                self.initial_floor == old(self).initial_floor,
                ids_unique(self.blocks@),
                forall|k: int|
                    0 <= k < n ==> same_except_incoming(
                        #[trigger] self.blocks@[k],
                        old(self).blocks@[k],
                    ),
                forall|k: int|
                    0 <= k < n ==> (#[trigger] self.blocks@[k]).incoming_jumps@ == incoming_for(
                        self.blocks@.take(i as int),
                        self.blocks@[k].id,
                    ),
            decreases n - i,
        {
            let uid = self.blocks[i].id;
            let m = self.blocks[i].outgoing_jumps.len();
            let mut k: usize = 0;
            while k < m
                invariant
                    0 <= k <= m,
                    0 <= i < n,
                    n == self.blocks@.len(),
                    n == old(self).blocks@.len(),
                    self.initial_floor == old(self).initial_floor,
                    ids_unique(self.blocks@),
                    uid == self.blocks@[i as int].id,
                    m == self.blocks@[i as int].outgoing_jumps@.len(),
                    forall|q: int|
                        0 <= q < n ==> same_except_incoming(
                            #[trigger] self.blocks@[q],
                            old(self).blocks@[q],
                        ),
                    forall|q: int|
                        0 <= q < n ==> (#[trigger] self.blocks@[q]).incoming_jumps@ == incoming_for(
                            self.blocks@.take(i as int),
                            self.blocks@[q].id,
                        ) + edge_contrib(
                            uid,
                            self.blocks@[i as int].outgoing_jumps@.take(k as int),
                            self.blocks@[q].id,
                        ),
                decreases m - k,
            {
                let (t, f) = self.blocks[i].outgoing_jumps[k];
                let ghost out = self.blocks@[i as int].outgoing_jumps@;
                let ghost pre = self.blocks@;
                proof {
                    assert(out.take(k as int + 1).drop_last() =~= out.take(k as int));
                    assert(out.take(k as int + 1).last() == out[k as int]);
                }
                match find_block_index(&self.blocks, t) {
                    Some(w) => {
                        self.blocks[w].incoming_jumps.push((uid, f));
                        proof {
                            assert forall|q: int| 0 <= q < n implies (
                            #[trigger] self.blocks@[q]).incoming_jumps@ == incoming_for(
                                self.blocks@.take(i as int),
                                self.blocks@[q].id,
                            ) + edge_contrib(
                                uid,
                                self.blocks@[i as int].outgoing_jumps@.take(k as int + 1),
                                self.blocks@[q].id,
                            ) by {
                                assert(self.blocks@.take(i as int).len() == pre.take(
                                    i as int,
                                ).len());
                                assert(forall|p: int|
                                    0 <= p < i ==> same_except_incoming(
                                        #[trigger] self.blocks@.take(i as int)[p],
                                        pre.take(i as int)[p],
                                    ));
                                lemma_incoming_for_congruent(
                                    self.blocks@.take(i as int),
                                    pre.take(i as int),
                                    self.blocks@[q].id,
                                );
                                if q == w {
                                    assert(self.blocks@[q].incoming_jumps@ =~= pre[q].incoming_jumps@
                                        + seq![(uid, f)]);
                                } else {
                                    assert(self.blocks@[q] == pre[q]);
                                    assert(pre[q].id != pre[w as int].id);
                                    assert(self.blocks@[q].id != t);
                                }
                            }
                        }
                    },
                    None => {
                        proof {
                            assert forall|q: int| 0 <= q < n implies (
                            #[trigger] self.blocks@[q]).incoming_jumps@ == incoming_for(
                                self.blocks@.take(i as int),
                                self.blocks@[q].id,
                            ) + edge_contrib(
                                uid,
                                self.blocks@[i as int].outgoing_jumps@.take(k as int + 1),
                                self.blocks@[q].id,
                            ) by {
                                assert(self.blocks@[q].id != t);
                                assert(self.blocks@[q].incoming_jumps@ + Seq::<
                                    (BasicBlockId, JumpFlag),
                                >::empty() =~= self.blocks@[q].incoming_jumps@);
                            }
                        }
                    },
                }
                k = k + 1;
            }
            proof {
                assert(self.blocks@[i as int].outgoing_jumps@.take(m as int)
                    =~= self.blocks@[i as int].outgoing_jumps@);
                assert(self.blocks@.take(i as int + 1).drop_last() =~= self.blocks@.take(i as int));
                assert(self.blocks@.take(i as int + 1).last() == self.blocks@[i as int]);
            }
            i = i + 1;
        }
        proof {
            assert(self.blocks@.take(n as int) =~= self.blocks@);
        }
    }
}

/// How many entries of the list equal the given one.
pub open spec fn count_eq<T>(s: Seq<T>, x: T) -> int
    decreases s.len(),
{
    if s.len() == 0 {
        0int
    } else {
        count_eq(s.drop_last(), x) + if s.last() == x {
            1int
        } else {
            0int
        }
    }
}

proof fn lemma_count_eq_concat<T>(a: Seq<T>, b: Seq<T>, x: T)
    ensures
        count_eq(a + b, x) == count_eq(a, x) + count_eq(b, x),
    decreases b.len(),
{
    if b.len() == 0 {
        assert(a + b =~= a);
    } else {
        assert((a + b).drop_last() =~= a + b.drop_last());
        assert((a + b).last() == b.last());
        lemma_count_eq_concat(a, b.drop_last(), x);
    }
}

/// Within one block's contribution, the entries counted for `(uid, f)`
/// are exactly that block's edges `(v, f)` when the block is `uid`
/// itself, and none otherwise.
proof fn lemma_count_contrib(
    wid: BasicBlockId,
    out: Seq<(BasicBlockId, JumpFlag)>,
    v: BasicBlockId,
    uid: BasicBlockId,
    f: JumpFlag,
)
    ensures
        count_eq(edge_contrib(wid, out, v), (uid, f)) == if wid == uid {
            count_eq(out, (v, f))
        } else {
            0int
        },
    decreases out.len(),
{
    if out.len() > 0 {
        lemma_count_contrib(wid, out.drop_last(), v, uid, f);
        if out.last().0 == v {
            lemma_count_eq_concat(
                edge_contrib(wid, out.drop_last(), v),
                seq![(wid, out.last().1)],
                (uid, f),
            );
            let s = seq![(wid, out.last().1)];
            assert(s.len() == 1);
            assert(s.drop_last() =~= Seq::<(BasicBlockId, JumpFlag)>::empty());
            assert(count_eq(Seq::<(BasicBlockId, JumpFlag)>::empty(), (uid, f)) == 0);
            assert(count_eq(s, (uid, f)) == count_eq(s.drop_last(), (uid, f)) + if s.last() == (
            uid,
            f,
            ) {
                1int
            } else {
                0int
            });
            assert(s.last() == (wid, out.last().1));
            assert(count_eq(s, (uid, f)) == if wid == uid && out.last().1 == f {
                1int
            } else {
                0int
            });
        } else {
            lemma_count_eq_concat(
                edge_contrib(wid, out.drop_last(), v),
                Seq::<(BasicBlockId, JumpFlag)>::empty(),
                (uid, f),
            );
        }
    }
}

proof fn lemma_count_incoming_for(
    blocks: Seq<BasicBlock>,
    u: int,
    v: BasicBlockId,
    f: JumpFlag,
)
    requires
        ids_unique(blocks),
        0 <= u < blocks.len(),
    ensures
        count_eq(incoming_for(blocks, v), (blocks[u].id, f)) == count_eq(
            blocks[u].outgoing_jumps@,
            (v, f),
        ),
    decreases blocks.len(),
{
    let last = blocks.last();
    lemma_count_eq_concat(
        incoming_for(blocks.drop_last(), v),
        edge_contrib(last.id, last.outgoing_jumps@, v),
        (blocks[u].id, f),
    );
    lemma_count_contrib(last.id, last.outgoing_jumps@, v, blocks[u].id, f);
    if u == blocks.len() - 1 {
        lemma_count_absent(blocks.drop_last(), v, blocks[u].id, f);
    } else {
        assert(blocks.drop_last()[u] == blocks[u]);
        lemma_count_incoming_for(blocks.drop_last(), u, v, f);
        assert(blocks[u].id != last.id);
    }
}

/// An id carried by no block is counted by no contribution.
proof fn lemma_count_absent(blocks: Seq<BasicBlock>, v: BasicBlockId, uid: BasicBlockId, f: JumpFlag)
    requires
        forall|j: int| 0 <= j < blocks.len() ==> (#[trigger] blocks[j]).id != uid,
    ensures
        count_eq(incoming_for(blocks, v), (uid, f)) == 0,
    decreases blocks.len(),
{
    if blocks.len() > 0 {
        let last = blocks.last();
        lemma_count_eq_concat(
            incoming_for(blocks.drop_last(), v),
            edge_contrib(last.id, last.outgoing_jumps@, v),
            (uid, f),
        );
        lemma_count_contrib(last.id, last.outgoing_jumps@, v, uid, f);
        assert(forall|j: int|
            0 <= j < blocks.drop_last().len() ==> (#[trigger] blocks.drop_last()[j]).id != uid);
        lemma_count_absent(blocks.drop_last(), v, uid, f);
    }
}

/// The inverse-index law: when the incoming index is exact, an entry
/// `(u, f)` stands in block `v`'s incoming list exactly as often as the
/// edge `(v, f)` stands in block `u`'s outgoing list.
pub proof fn lemma_incoming_inverse(g: &ProgramControlFlowGraph, u: int, v: int, f: JumpFlag)
    requires
        g.inv_incoming(),
        ids_unique(g.blocks@),
        0 <= u < g.blocks@.len(),
        0 <= v < g.blocks@.len(),
    ensures
        count_eq(g.blocks@[v].incoming_jumps@, (g.blocks@[u].id, f)) == count_eq(
            g.blocks@[u].outgoing_jumps@,
            (g.blocks@[v].id, f),
        ),
{
    lemma_count_incoming_for(g.blocks@, u, g.blocks@[v].id, f);
}

} // verus!

verus! {

use crate::basic_blocks::{
    edges_canonical, lemma_noncanon_zero, lemma_total_instructions_strict, lemma_totals_congruent,
    lemma_totals_nonneg, lemma_totals_pointwise, noncanon_count, total_edges, total_instructions,
};
use crate::block_optimizations::{
    combine_enabled, combine_sequential_blocks, cover_all, empty_enabled, remove_dead_blocks,
    remove_empty_blocks, retained,
};
use crate::local_optimizations::{
    lemma_canonical_fixed, lemma_simplified_canonical, lemma_simplified_len, lemma_simplified_or,
    local_optimization, peephole_any_enabled, peephole_enabled, simplified, simplify_enabled,
    LocalPass,
};

impl ProgramControlFlowGraph {
    /// Runs the passes in their fixed order, restarting from the top and
    /// rebuilding the incoming index after every change, until a full
    /// sweep changes nothing. Terminates because every productive pass
    /// shrinks the block count, the edge count together with the number
    /// of non-canonical blocks, or the instruction count.
    #[verifier::rlimit(100)]
    pub fn optimize_to_fixed_point(&mut self)
        requires
            ids_unique(old(self).blocks@),
            cover_all(old(self).blocks@),
            old(self).inv_incoming(),
        ensures
            final(self).initial_floor == old(self).initial_floor,
            ids_unique(final(self).blocks@),
            cover_all(final(self).blocks@),
            final(self).inv_incoming(),
            forall|j: int|
                0 <= j < final(self).blocks@.len() ==> edges_canonical(
                    (#[trigger] final(self).blocks@[j]).outgoing_jumps@,
                ),
            forall|j: int|
                0 <= j < final(self).blocks@.len() ==> retained(#[trigger] final(self).blocks@[j]),
            !combine_enabled(final(self).blocks@),
            !empty_enabled(final(self).blocks@),
            !peephole_any_enabled(final(self).blocks@),
            !simplify_enabled(final(self).blocks@),
            crate::basic_blocks::ids_from(final(self).blocks@, old(self).blocks@),
            old(self).blocks@.len() > 0 && old(self).blocks@[0].id.0 == 0
                ==> final(self).blocks@.len() > 0 && final(self).blocks@[0].id.0 == 0,
    {
        proof {
            crate::basic_blocks::lemma_ids_from_refl(self.blocks@);
        }
        loop
            invariant
                self.initial_floor == old(self).initial_floor,
                ids_unique(self.blocks@),
                cover_all(self.blocks@),
                self.inv_incoming(),
                crate::basic_blocks::ids_from(self.blocks@, old(self).blocks@),
                old(self).blocks@.len() > 0 && old(self).blocks@[0].id.0 == 0 ==> self.blocks@.len()
                    > 0 && self.blocks@[0].id.0 == 0,
            ensures
                self.initial_floor == old(self).initial_floor,
                ids_unique(self.blocks@),
                cover_all(self.blocks@),
                self.inv_incoming(),
                forall|j: int|
                    0 <= j < self.blocks@.len() ==> edges_canonical(
                        (#[trigger] self.blocks@[j]).outgoing_jumps@,
                    ),
                forall|j: int| 0 <= j < self.blocks@.len() ==> retained(#[trigger] self.blocks@[j]),
                !combine_enabled(self.blocks@),
                !empty_enabled(self.blocks@),
                !peephole_any_enabled(self.blocks@),
                !simplify_enabled(self.blocks@),
                crate::basic_blocks::ids_from(self.blocks@, old(self).blocks@),
                old(self).blocks@.len() > 0 && old(self).blocks@[0].id.0 == 0 ==> self.blocks@.len()
                    > 0 && self.blocks@[0].id.0 == 0,
            decreases
                    self.blocks@.len(),
                    total_edges(self.blocks@) + noncanon_count(self.blocks@),
                    total_instructions(self.blocks@),
        {
            proof {
                lemma_totals_nonneg(self.blocks@);
            }
            let ghost pre = self.blocks@;

            if local_optimization(&LocalPass::SimplifyOutgoingJumps, self) {
                proof {
                    let post = self.blocks@;
                    assert forall|j: int| 0 <= j < post.len() implies edges_canonical(
                        (#[trigger] post[j]).outgoing_jumps@,
                    ) && post[j].outgoing_jumps@.len() <= pre[j].outgoing_jumps@.len()
                        && crate::basic_blocks::covers_always(post[j].outgoing_jumps@) by {
                        lemma_simplified_canonical(pre[j].outgoing_jumps@);
                        lemma_simplified_len(pre[j].outgoing_jumps@);
                        lemma_simplified_or(pre[j].outgoing_jumps@);
                    }
                    assert forall|a: int, b: int| 0 <= a < b < post.len() implies (
                    #[trigger] post[a]).id != (#[trigger] post[b]).id by {
                        assert(post[a].id == pre[a].id && post[b].id == pre[b].id);
                    }
                    lemma_totals_pointwise(post, pre);
                    lemma_noncanon_zero(post);
                    lemma_noncanon_zero(pre);
                    let q = choose|q: int|
                        0 <= q < pre.len() && simplified((#[trigger] pre[q]).outgoing_jumps@)
                            != pre[q].outgoing_jumps@;
                    if edges_canonical(pre[q].outgoing_jumps@) {
                        lemma_canonical_fixed(pre[q].outgoing_jumps@);
                        assert(false);
                    }
                    lemma_totals_nonneg(pre);
                    assert(noncanon_count(post) == 0);
                    assert(noncanon_count(pre) >= 1);
                }
                let ghost mid = self.blocks@;
                self.refresh_incoming_jumps();
                proof {
                    let post = self.blocks@;
                    assert forall|a: int, b: int| 0 <= a < b < post.len() implies (
                    #[trigger] post[a]).id != (#[trigger] post[b]).id by {
                        assert(same_except_incoming(post[a], mid[a]));
                        assert(same_except_incoming(post[b], mid[b]));
                    }
                    assert forall|j: int| 0 <= j < post.len() implies crate::basic_blocks::covers_always(
                        (#[trigger] post[j]).outgoing_jumps@,
                    ) by {
                        assert(same_except_incoming(post[j], mid[j]));
                    }
                    assert forall|j: int|
                        0 <= j < post.len() implies (#[trigger] post[j]).outgoing_jumps@
                            == mid[j].outgoing_jumps@ && post[j].instructions@
                            == mid[j].instructions@ by {
                        assert(same_except_incoming(post[j], mid[j]));
                    }
                    lemma_totals_congruent(post, mid);
                    lemma_totals_nonneg(post);
                    assert forall|j: int| 0 <= j < post.len() implies (#[trigger] post[j]).id
                        == pre[j].id by {
                        assert(same_except_incoming(post[j], mid[j]));
                        assert(mid[j].id == pre[j].id);
                    }
                    crate::basic_blocks::lemma_ids_from_pointwise(post, pre);
                    crate::basic_blocks::lemma_ids_from_compose(old(self).blocks@, pre, post);
                    if pre.len() > 0 && pre[0].id.0 == 0 {
                        assert(post[0].id == pre[0].id);
                    }
                }
                continue;
            }
            proof {
                assert(self.blocks@ == pre);
                assert forall|j: int| 0 <= j < self.blocks@.len() implies edges_canonical(
                    (#[trigger] self.blocks@[j]).outgoing_jumps@,
                ) by {
                    assert(simplified(self.blocks@[j].outgoing_jumps@)
                        == self.blocks@[j].outgoing_jumps@);
                    lemma_simplified_canonical(self.blocks@[j].outgoing_jumps@);
                }
            }

            if remove_dead_blocks(self) {
                let ghost mid = self.blocks@;
                proof {
                    assert forall|j: int| 0 <= j < mid.len() implies crate::basic_blocks::contains_id(
                        pre,
                        (#[trigger] mid[j]).id,
                    ) by {
                        crate::block_optimizations::lemma_live_mem(pre, j);
                        let q = choose|q: int|
                            0 <= q < pre.len() && #[trigger] pre[q]
                                == crate::block_optimizations::live_blocks(pre)[j];
                        crate::basic_blocks::lemma_contains_id_at(pre, q);
                        assert(mid[j].id == pre[q].id);
                    }
                    if pre.len() > 0 && pre[0].id.0 == 0 {
                        crate::block_optimizations::lemma_live_first(pre);
                    }
                }
                self.refresh_incoming_jumps();
                proof {
                    let post = self.blocks@;
                    assert forall|j: int| 0 <= j < post.len() implies (#[trigger] post[j]).id
                        == mid[j].id by {
                        assert(same_except_incoming(post[j], mid[j]));
                    }
                    crate::basic_blocks::lemma_ids_from_pointwise(post, mid);
                    crate::basic_blocks::lemma_ids_from_compose(pre, mid, post);
                    crate::basic_blocks::lemma_ids_from_compose(old(self).blocks@, pre, post);
                    if pre.len() > 0 && pre[0].id.0 == 0 {
                        assert(same_except_incoming(post[0], mid[0]));
                    }
                    lemma_totals_nonneg(self.blocks@);
                }
                continue;
            }

            if combine_sequential_blocks(self) {
                let ghost mid = self.blocks@;
                proof {
                    crate::block_optimizations::lemma_combine_rel_ids(pre, mid);
                }
                self.refresh_incoming_jumps();
                proof {
                    let post = self.blocks@;
                    assert forall|j: int| 0 <= j < post.len() implies (#[trigger] post[j]).id
                        == mid[j].id by {
                        assert(same_except_incoming(post[j], mid[j]));
                    }
                    crate::basic_blocks::lemma_ids_from_pointwise(post, mid);
                    crate::basic_blocks::lemma_ids_from_compose(pre, mid, post);
                    crate::basic_blocks::lemma_ids_from_compose(old(self).blocks@, pre, post);
                    if pre.len() > 0 && pre[0].id.0 == 0 {
                        assert(same_except_incoming(post[0], mid[0]));
                    }
                    lemma_totals_nonneg(self.blocks@);
                }
                continue;
            }

            if remove_empty_blocks(self) {
                let ghost mid = self.blocks@;
                proof {
                    crate::block_optimizations::lemma_empty_rel_ids(pre, mid);
                }
                self.refresh_incoming_jumps();
                proof {
                    let post = self.blocks@;
                    assert forall|j: int| 0 <= j < post.len() implies (#[trigger] post[j]).id
                        == mid[j].id by {
                        assert(same_except_incoming(post[j], mid[j]));
                    }
                    crate::basic_blocks::lemma_ids_from_pointwise(post, mid);
                    crate::basic_blocks::lemma_ids_from_compose(pre, mid, post);
                    crate::basic_blocks::lemma_ids_from_compose(old(self).blocks@, pre, post);
                    if pre.len() > 0 && pre[0].id.0 == 0 {
                        assert(same_except_incoming(post[0], mid[0]));
                    }
                    lemma_totals_nonneg(self.blocks@);
                }
                continue;
            }

            let ghost pre5 = self.blocks@;
            if local_optimization(&LocalPass::PeepholeOptimizations, self) {
                proof {
                    let post = self.blocks@;
                    assert forall|a: int, b: int| 0 <= a < b < post.len() implies (
                    #[trigger] post[a]).id != (#[trigger] post[b]).id by {
                        assert(post[a].id == pre5[a].id && post[b].id == pre5[b].id);
                    }
                    assert forall|j: int| 0 <= j < post.len() implies crate::basic_blocks::covers_always(
                        (#[trigger] post[j]).outgoing_jumps@,
                    ) && post[j].instructions@.len() <= pre5[j].instructions@.len() && (
                    edges_canonical(pre5[j].outgoing_jumps@) ==> edges_canonical(
                        post[j].outgoing_jumps@,
                    )) by {
                        assert(post[j].outgoing_jumps@ == pre5[j].outgoing_jumps@);
                        crate::local_optimizations::lemma_peepholed_len(pre5[j].instructions@);
                    }
                    lemma_totals_pointwise(post, pre5);
                    let q = choose|q: int|
                        0 <= q < pre5.len() && peephole_enabled(
                            (#[trigger] pre5[q]).instructions@,
                        );
                    crate::local_optimizations::lemma_peepholed_len(pre5[q].instructions@);
                    assert(post[q].instructions@.len() < pre5[q].instructions@.len());
                    lemma_total_instructions_strict(post, pre5, q);
                }
                let ghost mid = self.blocks@;
                self.refresh_incoming_jumps();
                proof {
                    let post = self.blocks@;
                    assert forall|a: int, b: int| 0 <= a < b < post.len() implies (
                    #[trigger] post[a]).id != (#[trigger] post[b]).id by {
                        assert(same_except_incoming(post[a], mid[a]));
                        assert(same_except_incoming(post[b], mid[b]));
                    }
                    assert forall|j: int| 0 <= j < post.len() implies crate::basic_blocks::covers_always(
                        (#[trigger] post[j]).outgoing_jumps@,
                    ) by {
                        assert(same_except_incoming(post[j], mid[j]));
                    }
                    assert forall|j: int|
                        0 <= j < post.len() implies (#[trigger] post[j]).outgoing_jumps@
                            == mid[j].outgoing_jumps@ && post[j].instructions@
                            == mid[j].instructions@ by {
                        assert(same_except_incoming(post[j], mid[j]));
                    }
                    lemma_totals_congruent(post, mid);
                    lemma_totals_nonneg(post);
                    assert forall|j: int| 0 <= j < post.len() implies (#[trigger] post[j]).id
                        == pre[j].id by {
                        assert(same_except_incoming(post[j], mid[j]));
                        assert(mid[j].id == pre5[j].id);
                    }
                    crate::basic_blocks::lemma_ids_from_pointwise(post, pre);
                    crate::basic_blocks::lemma_ids_from_compose(old(self).blocks@, pre, post);
                    if pre.len() > 0 && pre[0].id.0 == 0 {
                        assert(post[0].id == pre[0].id);
                    }
                }
                continue;
            }
            proof {
                assert(self.blocks@ == pre);
            }
            break;
        }
    }
}

} // verus!

verus! {

/// An optimization pass: it may rewrite the graph and reports whether it
/// changed anything. `enabled` says on which graphs the pass has work;
/// `optimize` must report exactly that, so a pass cannot be skipped or
/// misreported. A pass keeps ids unique and every block covering; when
/// it reports no change it has left the graph alone, so the incoming
/// index is still exact.
pub trait Optimization {
    spec fn enabled(&self, blocks: Seq<BasicBlock>) -> bool;

    fn optimize(&mut self, graph: &mut ProgramControlFlowGraph) -> (r: bool)
        requires
            ids_unique(old(graph).blocks@),
            cover_all(old(graph).blocks@),
            old(graph).inv_incoming(),
        ensures
            final(graph).initial_floor == old(graph).initial_floor,
            ids_unique(final(graph).blocks@),
            cover_all(final(graph).blocks@),
            r == old(self).enabled(old(graph).blocks@),
            !r ==> final(graph).blocks@ == old(graph).blocks@ && final(graph).inv_incoming(),
    ;
}

/// The edge-canonicalization pass as a value.
pub struct SimplifyOutgoingJumpsPass;

/// The dead-block pass as a value.
pub struct RemoveDeadBlocksPass;

/// The coalescing pass as a value.
pub struct CombineSequentialBlocksPass;

/// The empty-block bypass pass as a value.
pub struct RemoveEmptyBlocksPass;

/// The peephole pass as a value.
pub struct PeepholeOptimizationsPass;

impl Optimization for SimplifyOutgoingJumpsPass {
    open spec fn enabled(&self, blocks: Seq<BasicBlock>) -> bool {
        simplify_enabled(blocks)
    }

    fn optimize(&mut self, graph: &mut ProgramControlFlowGraph) -> (r: bool) {
        let ghost pre = graph.blocks@;
        let r = local_optimization(&LocalPass::SimplifyOutgoingJumps, graph);
        proof {
            let post = graph.blocks@;
            assert forall|j: int| 0 <= j < post.len() implies crate::basic_blocks::covers_always(
                (#[trigger] post[j]).outgoing_jumps@,
            ) by {
                lemma_simplified_or(pre[j].outgoing_jumps@);
            }
            assert forall|a: int, b: int| 0 <= a < b < post.len() implies (#[trigger] post[a]).id
                != (#[trigger] post[b]).id by {
                assert(post[a].id == pre[a].id && post[b].id == pre[b].id);
            }
        }
        r
    }
}

impl Optimization for RemoveDeadBlocksPass {
    open spec fn enabled(&self, blocks: Seq<BasicBlock>) -> bool {
        exists|j: int| 0 <= j < blocks.len() && !retained(#[trigger] blocks[j])
    }

    fn optimize(&mut self, graph: &mut ProgramControlFlowGraph) -> (r: bool) {
        remove_dead_blocks(graph)
    }
}

impl Optimization for CombineSequentialBlocksPass {
    open spec fn enabled(&self, blocks: Seq<BasicBlock>) -> bool {
        combine_enabled(blocks)
    }

    fn optimize(&mut self, graph: &mut ProgramControlFlowGraph) -> (r: bool) {
        combine_sequential_blocks(graph)
    }
}

impl Optimization for RemoveEmptyBlocksPass {
    open spec fn enabled(&self, blocks: Seq<BasicBlock>) -> bool {
        empty_enabled(blocks)
    }

    fn optimize(&mut self, graph: &mut ProgramControlFlowGraph) -> (r: bool) {
        remove_empty_blocks(graph)
    }
}

impl Optimization for PeepholeOptimizationsPass {
    open spec fn enabled(&self, blocks: Seq<BasicBlock>) -> bool {
        peephole_any_enabled(blocks)
    }

    fn optimize(&mut self, graph: &mut ProgramControlFlowGraph) -> (r: bool) {
        let ghost pre = graph.blocks@;
        let r = local_optimization(&LocalPass::PeepholeOptimizations, graph);
        proof {
            let post = graph.blocks@;
            assert forall|j: int| 0 <= j < post.len() implies crate::basic_blocks::covers_always(
                (#[trigger] post[j]).outgoing_jumps@,
            ) by {
                assert(post[j].outgoing_jumps@ == pre[j].outgoing_jumps@);
            }
            assert forall|a: int, b: int| 0 <= a < b < post.len() implies (#[trigger] post[a]).id
                != (#[trigger] post[b]).id by {
                assert(post[a].id == pre[a].id && post[b].id == pre[b].id);
            }
        }
        r
    }
}

impl ProgramControlFlowGraph {
    /// Runs one pass and, if it changed the graph, rebuilds the incoming
    /// index so the next pass reads a consistent inverse. The returned
    /// flag is exactly the pass's own applicability on the given graph;
    /// on a change, the final blocks are the pass's output with only the
    /// incoming index rebuilt on top.
    pub fn run_optimization_pass<T: Optimization>(&mut self, optimizer: &mut T) -> (r: bool)
        requires
            ids_unique(old(self).blocks@),
            cover_all(old(self).blocks@),
            old(self).inv_incoming(),
        ensures
            final(self).initial_floor == old(self).initial_floor,
            ids_unique(final(self).blocks@),
            cover_all(final(self).blocks@),
            final(self).inv_incoming(),
            r == old(optimizer).enabled(old(self).blocks@),
            !r ==> final(self).blocks@ == old(self).blocks@,
            r ==> exists|mid: Seq<BasicBlock>|
                ids_unique(mid) && cover_all(mid) && mid.len() == final(self).blocks@.len()
                    && forall|j: int|
                    0 <= j < mid.len() ==> same_except_incoming(
                        #[trigger] final(self).blocks@[j],
                        mid[j],
                    ),
    {
        let result = optimizer.optimize(self);
        if result {
            let ghost mid = self.blocks@;
            self.refresh_incoming_jumps();
            proof {
                assert(ids_unique(mid) && cover_all(mid) && mid.len() == self.blocks@.len()
                    && forall|j: int|
                    0 <= j < mid.len() ==> same_except_incoming(
                        #[trigger] self.blocks@[j],
                        mid[j],
                    ));
                let post = self.blocks@;
                assert forall|a: int, b: int| 0 <= a < b < post.len() implies (
                #[trigger] post[a]).id != (#[trigger] post[b]).id by {
                    assert(same_except_incoming(post[a], mid[a]));
                    assert(same_except_incoming(post[b], mid[b]));
                }
                assert forall|j: int| 0 <= j < post.len() implies crate::basic_blocks::covers_always(
                    (#[trigger] post[j]).outgoing_jumps@,
                ) by {
                    assert(same_except_incoming(post[j], mid[j]));
                }
            }
        }
        result
    }
}

} // verus!

verus! {

use crate::instruction::Instruction;
use crate::program::{jump_target, label_map_of, lookup_label, Program};

/// Some label names this instruction index.
pub open spec fn is_label_target(p: &Program, i: int) -> bool {
    exists|k: int|
        0 <= k < p.jump_label_lines@.len() && (#[trigger] p.jump_label_lines@[k]).1 == i
}

/// An index that starts a basic block: the program start, the index past
/// the end, the index after a jump run, or a label target.
pub open spec fn is_leader(p: &Program, i: int) -> bool {
    0 <= i <= p.instructions@.len() && {
        ||| i == 0
        ||| i == p.instructions@.len()
        ||| (0 < i < p.instructions@.len() && p.instructions@[i - 1].spec_is_jump()
            && !p.instructions@[i].spec_is_jump())
        ||| is_label_target(p, i)
    }
}

/// The leaders below `n`, in ascending order.
pub open spec fn leaders_upto(p: &Program, n: int) -> Seq<int>
    decreases n,
{
    if n <= 0 {
        Seq::empty()
    } else {
        leaders_upto(p, n - 1) + if is_leader(p, n - 1) {
            seq![n - 1]
        } else {
            Seq::empty()
        }
    }
}

/// All leaders of the program, in ascending order; the last one is the
/// index past the end.
pub open spec fn spec_leaders(p: &Program) -> Seq<int> {
    leaders_upto(p, p.instructions@.len() as int + 1)
}

/// The first index of the block's trailing jump run.
pub open spec fn run_start(instrs: Seq<Instruction>, a: int, b: int) -> int
    decreases b - a,
{
    if b > a && 0 <= b - 1 < instrs.len() && instrs[b - 1].spec_is_jump() {
        run_start(instrs, a, b - 1)
    } else {
        b
    }
}

/// The block position a leader index occupies.
pub open spec fn leader_pos(p: &Program, t: int) -> int {
    choose|k: int| 0 <= k < spec_leaders(p).len() && spec_leaders(p)[k] == t
}

/// The edge one jump instruction contributes.
pub open spec fn jump_edge(p: &Program, q: int) -> (BasicBlockId, JumpFlag) {
    match p.instructions@[q] {
        Instruction::Jump(l) => (
            BasicBlockId(leader_pos(p, p.labels()[l@] as int) as usize),
            JumpFlag::Always,
        ),
        Instruction::JumpZ(l) => (
            BasicBlockId(leader_pos(p, p.labels()[l@] as int) as usize),
            JumpFlag::IfZero,
        ),
        Instruction::JumpN(l) => (
            BasicBlockId(leader_pos(p, p.labels()[l@] as int) as usize),
            JumpFlag::IfNegative,
        ),
        _ => (BasicBlockId(0), JumpFlag::Never),
    }
}

/// The edges of the jump run `[rs, q)`, in order.
pub open spec fn run_edges(p: &Program, rs: int, q: int) -> Seq<(BasicBlockId, JumpFlag)>
    decreases q - rs,
{
    if q <= rs {
        Seq::empty()
    } else {
        run_edges(p, rs, q - 1) + seq![jump_edge(p, q - 1)]
    }
}

/// Whether the run holds an unconditional jump.
pub open spec fn run_has_always(p: &Program, rs: int, q: int) -> bool {
    exists|w: int| rs <= w < q && (#[trigger] p.instructions@[w]) matches Instruction::Jump(_)
}

/// The outgoing edges of block `j`: its jump run's edges, plus a
/// fall-through edge to the next block when the run has no unconditional
/// jump.
pub open spec fn spec_block_edges(p: &Program, j: int) -> Seq<(BasicBlockId, JumpFlag)> {
    let a = spec_leaders(p)[j];
    let b = spec_leaders(p)[j + 1];
    let rs = run_start(p.instructions@, a, b);
    run_edges(p, rs, b) + if !run_has_always(p, rs, b) {
        seq![(BasicBlockId((j + 1) as usize), JumpFlag::Always)]
    } else {
        Seq::empty()
    }
}

/// The leaders below `n` are exactly the leader indices below `n`, each
/// once and in order.
proof fn lemma_leaders_upto(p: &Program, n: int)
    requires
        n >= 0,
    ensures
        forall|k: int| 0 <= k < leaders_upto(p, n).len() ==> 0 <= #[trigger] leaders_upto(p, n)[k]
            < n,
        forall|k: int|
            0 <= k < leaders_upto(p, n).len() ==> is_leader(p, #[trigger] leaders_upto(p, n)[k]),
        forall|a: int, b: int|
            0 <= a < b < leaders_upto(p, n).len() ==> #[trigger] leaders_upto(p, n)[a]
                < #[trigger] leaders_upto(p, n)[b],
        forall|i: int|
            0 <= i < n && is_leader(p, i) ==> exists|k: int|
                0 <= k < leaders_upto(p, n).len() && #[trigger] leaders_upto(p, n)[k] == i,
    decreases n,
{
    if n > 0 {
        lemma_leaders_upto(p, n - 1);
        let l0 = leaders_upto(p, n - 1);
        let l1 = leaders_upto(p, n);
        if is_leader(p, n - 1) {
            assert(l1 =~= l0.push(n - 1));
            assert forall|i: int| 0 <= i < n && is_leader(p, i) implies exists|k: int|
                0 <= k < l1.len() && #[trigger] l1[k] == i by {
                if i < n - 1 {
                    let k = choose|k: int| 0 <= k < l0.len() && #[trigger] l0[k] == i;
                    assert(l1[k] == i);
                } else {
                    assert(l1[l1.len() - 1] == i);
                }
            }
        } else {
            assert(l1 =~= l0);
            assert forall|i: int| 0 <= i < n && is_leader(p, i) implies exists|k: int|
                0 <= k < l1.len() && #[trigger] l1[k] == i by {
                assert(i != n - 1);
                let k = choose|k: int| 0 <= k < l0.len() && #[trigger] l0[k] == i;
                assert(l1[k] == i);
            }
        }
    }
}

/// The leader list starts at index zero and ends past the last
/// instruction.
pub proof fn lemma_spec_leaders(p: &Program)
    ensures
        spec_leaders(p).len() >= 1,
        spec_leaders(p)[0] == 0,
        spec_leaders(p).last() == p.instructions@.len(),
        forall|k: int| 0 <= k < spec_leaders(p).len() ==> 0 <= #[trigger] spec_leaders(p)[k]
            <= p.instructions@.len(),
        forall|k: int|
            0 <= k < spec_leaders(p).len() ==> is_leader(p, #[trigger] spec_leaders(p)[k]),
        forall|a: int, b: int|
            0 <= a < b < spec_leaders(p).len() ==> #[trigger] spec_leaders(p)[a]
                < #[trigger] spec_leaders(p)[b],
        forall|i: int|
            is_leader(p, i) ==> exists|k: int|
                0 <= k < spec_leaders(p).len() && #[trigger] spec_leaders(p)[k] == i,
{
    let n = p.instructions@.len() + 1;
    lemma_leaders_upto(p, n as int);
    let l = spec_leaders(p);
    assert(is_leader(p, 0));
    assert(is_leader(p, p.instructions@.len() as int));
    let k0 = choose|k: int| 0 <= k < l.len() && #[trigger] l[k] == 0;
    if k0 > 0 {
        assert(l[0] < l[k0]);
        assert(false);
    }
    let ke = choose|k: int| 0 <= k < l.len() && #[trigger] l[k] == p.instructions@.len();
    if ke < l.len() - 1 {
        assert(l[ke] < l[l.len() - 1]);
        assert(false);
    }
    assert forall|i: int| is_leader(p, i) implies exists|k: int|
        0 <= k < l.len() && #[trigger] l[k] == i by {
        assert(0 <= i < n);
    }
}

/// Every label target below the instruction count heads some block: it
/// stands in the leader list at a position before the terminator.
pub proof fn lemma_label_targets_are_block_heads(p: &Program, i: int)
    requires
        is_label_target(p, i),
        0 <= i < p.instructions@.len(),
    ensures
        exists|j: int|
            0 <= j < spec_leaders(p).len() - 1 && #[trigger] spec_leaders(p)[j] == i,
{
    lemma_spec_leaders(p);
    assert(is_leader(p, i));
    let l = spec_leaders(p);
    let j = choose|j: int| 0 <= j < l.len() && #[trigger] l[j] == i;
    if j == l.len() - 1 {
        assert(l[j] == p.instructions@.len());
        assert(false);
    }
    assert(l[j] == i);
}

} // verus!

verus! {

/// Whether some label names instruction index `i`.
fn label_targets_index(program: &Program, i: usize) -> (r: bool)
    ensures
        r == is_label_target(program, i as int),
{
    let n = program.jump_label_lines.len();
    let mut k: usize = 0;
    while k < n
        invariant
            0 <= k <= n,
            n == program.jump_label_lines@.len(),
            forall|q: int| 0 <= q < k ==> (#[trigger] program.jump_label_lines@[q]).1 != i,
        decreases n - k,
    {
        if program.jump_label_lines[k].1 == i {
            return true;
        }
        k = k + 1;
    }
    false
}

/// The position of a leader index in the leader list.
fn find_leader(leaders: &Vec<usize>, t: usize) -> (r: Option<usize>)
    ensures
        match r {
            Some(k) => k < leaders@.len() && leaders@[k as int] == t,
            None => forall|q: int| 0 <= q < leaders@.len() ==> (#[trigger] leaders@[q]) != t,
        },
{
    let n = leaders.len();
    let mut k: usize = 0;
    while k < n
        invariant
            0 <= k <= n,
            n == leaders@.len(),
            forall|q: int| 0 <= q < k ==> (#[trigger] leaders@[q]) != t,
        decreases n - k,
    {
        if leaders[k] == t {
            return Some(k);
        }
        k = k + 1;
    }
    None
}

impl ProgramControlFlowGraph {
    /// Builds the control-flow graph of a program: finds the leaders,
    /// cuts the instruction list into blocks at them, turns each block's
    /// trailing jump run into typed edges with a fall-through edge when
    /// the run has no unconditional jump, and fills the incoming index.
    pub fn new(program: &Program) -> (r: ProgramControlFlowGraph)
        requires
            program.wf(),
        ensures
            r.initial_floor@ == program.initial_floor@,
            r.blocks@.len() + 1 == spec_leaders(program).len(),
            forall|j: int| 0 <= j < r.blocks@.len() ==> (#[trigger] r.blocks@[j]).id.0 == j,
            forall|j: int|
                0 <= j < r.blocks@.len() ==> (#[trigger] r.blocks@[j]).instructions@
                    == program.instructions@.subrange(
                    spec_leaders(program)[j],
                    run_start(
                        program.instructions@,
                        spec_leaders(program)[j],
                        spec_leaders(program)[j + 1],
                    ),
                ),
            forall|j: int|
                0 <= j < r.blocks@.len() ==> (#[trigger] r.blocks@[j]).outgoing_jumps@
                    == spec_block_edges(program, j),
            ids_unique(r.blocks@),
            cover_all(r.blocks@),
            r.inv_incoming(),
    {
        let n = program.instructions.len();
        proof {
            lemma_spec_leaders(program);
        }

        // collect the leaders in ascending order
        let mut leaders: Vec<usize> = Vec::new();
        let mut i: usize = 0;
        while i < n
            invariant
                0 <= i <= n,
                n == program.instructions@.len(),
                program.wf(),
                leaders@.len() == leaders_upto(program, i as int).len(),
                forall|k: int|
                    0 <= k < leaders@.len() ==> (#[trigger] leaders@[k]) as int == leaders_upto(
                        program,
                        i as int,
                    )[k],
            decreases n - i,
        {
            let mut lead = i == 0;
            if !lead && program.instructions[i - 1].is_jump() && !program.instructions[i].is_jump()
            {
                lead = true;
            }
            if !lead && label_targets_index(program, i) {
                lead = true;
            }
            proof {
                assert(lead == is_leader(program, i as int));
            }
            if lead {
                leaders.push(i);
            }
            proof {
                if is_leader(program, i as int) {
                    assert(leaders_upto(program, i as int + 1) =~= leaders_upto(
                        program,
                        i as int,
                    ).push(i as int));
                } else {
                    assert(leaders_upto(program, i as int + 1) =~= leaders_upto(
                        program,
                        i as int,
                    ));
                }
            }
            i = i + 1;
        }
        leaders.push(n);
        proof {
            assert(is_leader(program, n as int));
            assert(spec_leaders(program) =~= leaders_upto(program, n as int).push(n as int));
        }

        let nb = leaders.len() - 1;
        let ghost lspec = spec_leaders(program);
        proof {
            assert(nb + 1 == lspec.len());
            assert(forall|k: int|
                0 <= k < lspec.len() ==> (#[trigger] leaders@[k]) as int == lspec[k]);
        }

        // cut blocks and build their edges
        let mut blocks: Vec<BasicBlock> = Vec::new();
        let mut j: usize = 0;
        while j < nb
            invariant
                0 <= j <= nb,
                n == program.instructions@.len(),
                program.wf(),
                nb + 1 == leaders@.len(),
                nb + 1 == lspec.len(),
                lspec == spec_leaders(program),
                forall|k: int|
                    0 <= k < lspec.len() ==> (#[trigger] leaders@[k]) as int == lspec[k],
                forall|a: int, b: int| 0 <= a < b < lspec.len() ==> lspec[a] < lspec[b],
                forall|k: int| 0 <= k < lspec.len() ==> 0 <= #[trigger] lspec[k] <= n,
                blocks@.len() == j,
                forall|q: int| 0 <= q < j ==> (#[trigger] blocks@[q]).id.0 == q,
                forall|q: int|
                    0 <= q < j ==> (#[trigger] blocks@[q]).instructions@
                        == program.instructions@.subrange(
                        lspec[q],
                        run_start(program.instructions@, lspec[q], lspec[q + 1]),
                    ),
                forall|q: int|
                    0 <= q < j ==> (#[trigger] blocks@[q]).outgoing_jumps@ == spec_block_edges(
                        program,
                        q,
                    ),
                forall|q: int|
                    0 <= q < j ==> (#[trigger] blocks@[q]).incoming_jumps@ == Seq::<
                        (BasicBlockId, JumpFlag),
                    >::empty(),
                forall|q: int|
                    0 <= q < j ==> crate::basic_blocks::covers_always(
                        (#[trigger] blocks@[q]).outgoing_jumps@,
                    ),
            decreases nb - j,
        {
            let a = leaders[j];
            let b = leaders[j + 1];
            proof {
                assert(lspec[j as int] < lspec[j as int + 1]);
            }

            // back over the trailing jump run
            let mut rs = b;
            while rs > a && program.instructions[rs - 1].is_jump()
                invariant
                    a <= rs <= b,
                    b <= n,
                    n == program.instructions@.len(),
                    run_start(program.instructions@, a as int, b as int) == run_start(
                        program.instructions@,
                        a as int,
                        rs as int,
                    ),
                    forall|w: int|
                        rs <= w < b ==> (#[trigger] program.instructions@[w]).spec_is_jump(),
                decreases rs,
            {
                rs = rs - 1;
            }
            proof {
                assert(run_start(program.instructions@, a as int, rs as int) == rs as int);
            }

            // the straight-line body
            let mut instrs_v: Vec<Instruction> = Vec::new();
            let mut q: usize = a;
            while q < rs
                invariant
                    a <= q <= rs,
                    rs <= n,
                    n == program.instructions@.len(),
                    instrs_v@ == program.instructions@.subrange(a as int, q as int),
                decreases rs - q,
            {
                let inst = program.instructions[q].duplicate();
                instrs_v.push(inst);
                proof {
                    assert(instrs_v@ =~= program.instructions@.subrange(a as int, q as int + 1));
                }
                q = q + 1;
            }

            // the trailing run becomes edges
            let mut edges: Vec<(BasicBlockId, JumpFlag)> = Vec::new();
            let mut has_always = false;
            let mut q: usize = rs;
            while q < b
                invariant
                    rs <= q <= b,
                    b <= n,
                    n == program.instructions@.len(),
                    program.wf(),
                    lspec == spec_leaders(program),
                    nb + 1 == leaders@.len(),
                    nb + 1 == lspec.len(),
                    forall|k: int|
                        0 <= k < lspec.len() ==> (#[trigger] leaders@[k]) as int == lspec[k],
                    forall|a2: int, b2: int|
                        0 <= a2 < b2 < lspec.len() ==> lspec[a2] < lspec[b2],
                    forall|w: int|
                        rs <= w < b ==> (#[trigger] program.instructions@[w]).spec_is_jump(),
                    edges@ == run_edges(program, rs as int, q as int),
                    has_always == run_has_always(program, rs as int, q as int),
                decreases b - q,
            {
                proof {
                    assert(program.instructions@[q as int].spec_is_jump());
                    assert(jump_target(program.instructions@[q as int]) is Some);
                }
                let label = match &program.instructions[q] {
                    Instruction::Jump(l) => l,
                    Instruction::JumpZ(l) => l,
                    Instruction::JumpN(l) => l,
                    _ => vstd::pervasive::unreached(),
                };
                let target = match lookup_label(&program.jump_label_lines, label.as_str()) {
                    Some(t) => t,
                    None => {
                        proof {
                            assert(program.labels().contains_key(label@));
                            assert(false);
                        }
                        vstd::pervasive::unreached()
                    },
                };
                proof {
                    crate::program::lemma_label_map_values(program.jump_label_lines@, label@);
                    assert(is_label_target(program, target as int));
                    assert(target <= n);
                    assert(is_leader(program, target as int));
                }
                let k = match find_leader(&leaders, target) {
                    Some(k) => k,
                    None => {
                        proof {
                            lemma_spec_leaders(program);
                            let w = choose|w: int|
                                0 <= w < lspec.len() && #[trigger] lspec[w] == target as int;
                            assert(leaders@[w] == target);
                            assert(false);
                        }
                        vstd::pervasive::unreached()
                    },
                };
                proof {
                    // the leader list is strictly sorted, so the found
                    // position is the one the specification chooses
                    let c = leader_pos(program, target as int);
                    assert(lspec[k as int] == target as int);
                    assert(0 <= c < lspec.len() && lspec[c] == target as int);
                    if c != k as int {
                        if c < k as int {
                            assert(lspec[c] < lspec[k as int]);
                        } else {
                            assert(lspec[k as int] < lspec[c]);
                        }
                        assert(false);
                    }
                }
                let flag = match &program.instructions[q] {
                    Instruction::Jump(_) => {
                        has_always = true;
                        JumpFlag::Always
                    },
                    Instruction::JumpZ(_) => JumpFlag::IfZero,
                    Instruction::JumpN(_) => JumpFlag::IfNegative,
                    _ => vstd::pervasive::unreached(),
                };
                edges.push((BasicBlockId(k), flag));
                proof {
                    assert(run_edges(program, rs as int, q as int + 1) =~= run_edges(
                        program,
                        rs as int,
                        q as int,
                    ).push(jump_edge(program, q as int)));
                    assert(edges@.last() == jump_edge(program, q as int));
                    assert(run_has_always(program, rs as int, q as int + 1) == (run_has_always(
                        program,
                        rs as int,
                        q as int,
                    ) || program.instructions@[q as int] matches Instruction::Jump(_))) by {
                        if run_has_always(program, rs as int, q as int) {
                            let w = choose|w: int|
                                rs <= w < q && (#[trigger] program.instructions@[w])
                                    matches Instruction::Jump(_);
                            assert(rs <= w < q + 1);
                        }
                        if program.instructions@[q as int] matches Instruction::Jump(_) {
                            assert(rs <= q < q + 1);
                        }
                        if run_has_always(program, rs as int, q as int + 1) {
                            let w = choose|w: int|
                                rs <= w < q + 1 && (#[trigger] program.instructions@[w])
                                    matches Instruction::Jump(_);
                        }
                    }
                }
                q = q + 1;
            }
            if !has_always {
                edges.push((BasicBlockId(j + 1), JumpFlag::Always));
            }
            proof {
                assert(edges@ == spec_block_edges(program, j as int)) by {
                    if has_always {
                        assert(run_edges(program, rs as int, b as int) + Seq::<
                            (BasicBlockId, JumpFlag),
                        >::empty() =~= run_edges(program, rs as int, b as int));
                    } else {
                        assert(run_edges(program, rs as int, b as int) + seq![
                            (BasicBlockId((j + 1) as usize), JumpFlag::Always),
                        ] =~= run_edges(program, rs as int, b as int).push(
                            (BasicBlockId((j + 1) as usize), JumpFlag::Always),
                        ));
                    }
                }
                // the block covers every sign class: either the run holds
                // an unconditional jump or the fall-through edge is one
                assert(crate::basic_blocks::covers_always(edges@)) by {
                    if has_always {
                        let w = choose|w: int|
                            rs <= w < b && (#[trigger] program.instructions@[w])
                                matches Instruction::Jump(_);
                        lemma_run_edges_index(program, rs as int, b as int, w - rs);
                        assert(edges@[w - rs].1 == JumpFlag::Always);
                        crate::basic_blocks::lemma_or_with_always(edges@, w - rs);
                    } else {
                        assert(edges@.last().1 == JumpFlag::Always);
                        crate::basic_blocks::lemma_or_with_always(
                            edges@,
                            edges@.len() - 1,
                        );
                    }
                }
            }
            let blk = BasicBlock {
                id: BasicBlockId(j),
                instructions: instrs_v,
                outgoing_jumps: edges,
                incoming_jumps: Vec::new(),
            };
            blocks.push(blk);
            j = j + 1;
        }

        let mut floor: Vec<Option<DataCube>> = Vec::new();
        let mut k: usize = 0;
        while k < program.initial_floor.len()
            invariant
                0 <= k <= program.initial_floor@.len(),
                floor@ == program.initial_floor@.subrange(0, k as int),
            decreases program.initial_floor@.len() - k,
        {
            floor.push(program.initial_floor[k]);
            proof {
                assert(floor@ =~= program.initial_floor@.subrange(0, k as int + 1));
            }
            k = k + 1;
        }
        proof {
            assert(floor@ =~= program.initial_floor@);
        }

        let mut result = ProgramControlFlowGraph { initial_floor: floor, blocks };
        proof {
            assert(ids_unique(result.blocks@));
        }
        let ghost before = result.blocks@;
        result.refresh_incoming_jumps();
        proof {
            assert forall|q: int| 0 <= q < result.blocks@.len() implies (
            #[trigger] result.blocks@[q]).id.0 == q && result.blocks@[q].instructions@
                == program.instructions@.subrange(
                lspec[q],
                run_start(program.instructions@, lspec[q], lspec[q + 1]),
            ) && result.blocks@[q].outgoing_jumps@ == spec_block_edges(program, q)
                && crate::basic_blocks::covers_always(result.blocks@[q].outgoing_jumps@) by {
                assert(same_except_incoming(result.blocks@[q], before[q]));
            }
        }
        result
    }
}

/// The run's edges line up with its jump instructions one for one.
proof fn lemma_run_edges_index(p: &Program, rs: int, b: int, k: int)
    requires
        0 <= k < b - rs,
    ensures
        run_edges(p, rs, b).len() == b - rs,
        run_edges(p, rs, b)[k] == jump_edge(p, rs + k),
    decreases b - rs,
{
    if k < b - rs - 1 {
        lemma_run_edges_index(p, rs, b - 1, k);
    } else {
        lemma_run_edges_len(p, rs, b - 1);
    }
}

proof fn lemma_run_edges_len(p: &Program, rs: int, b: int)
    ensures
        run_edges(p, rs, b).len() == if b >= rs {
            b - rs
        } else {
            0int
        },
    decreases b - rs,
{
    if b > rs {
        lemma_run_edges_len(p, rs, b - 1);
    }
}

} // verus!

verus! {

use crate::text::{all_digits, char_is_digit, dec_val, digit_val};

/// One decimal digit as text.
fn digit_str(d: usize) -> (r: String)
    requires
        d < 10,
    ensures
        r@.len() == 1,
        char_is_digit(r@[0]),
        digit_val(r@[0]) == d,
{
    proof {
        reveal_strlit("0");
        reveal_strlit("1");
        reveal_strlit("2");
        reveal_strlit("3");
        reveal_strlit("4");
        reveal_strlit("5");
        reveal_strlit("6");
        reveal_strlit("7");
        reveal_strlit("8");
        reveal_strlit("9");
    }
    if d == 0 {
        "0".to_owned()
    } else if d == 1 {
        "1".to_owned()
    } else if d == 2 {
        "2".to_owned()
    } else if d == 3 {
        "3".to_owned()
    } else if d == 4 {
        "4".to_owned()
    } else if d == 5 {
        "5".to_owned()
    } else if d == 6 {
        "6".to_owned()
    } else if d == 7 {
        "7".to_owned()
    } else if d == 8 {
        "8".to_owned()
    } else {
        "9".to_owned()
    }
}

/// A number as a decimal numeral.
fn usize_to_digits(x: usize) -> (r: String)
    ensures
        r@.len() >= 1,
        all_digits(r@),
        dec_val(r@) == x,
    decreases x,
{
    if x < 10 {
        let r = digit_str(x);
        proof {
            assert(r@.drop_last() =~= Seq::<char>::empty());
            assert(dec_val(Seq::<char>::empty()) == 0);
            assert(r@.last() == r@[0]);
            assert(dec_val(r@) == dec_val(r@.drop_last()) * 10 + digit_val(r@.last()));
        }
        r
    } else {
        proof {
            vstd::arithmetic::div_mod::lemma_fundamental_div_mod(x as int, 10);
        }
        let mut hi = usize_to_digits(x / 10);
        let lo = digit_str(x % 10);
        let ghost hv = hi@;
        hi.append(lo.as_str());
        proof {
            assert(hi@.drop_last() =~= hv);
            assert(hi@.last() == lo@[0]);
            assert(dec_val(hi@) == dec_val(hv) * 10 + digit_val(lo@[0]));
            assert(forall|i: int| 0 <= i < hv.len() ==> #[trigger] hi@[i] == hv[i]);
        }
        hi
    }
}

/// The synthetic label of the block at the given position: the letter
/// `L` followed by the position in decimal.
pub fn label_for(j: usize) -> (r: String)
    ensures
        r@.len() >= 2,
        r@[0] == 'L',
        all_digits(r@.subrange(1, r@.len() as int)),
        dec_val(r@.subrange(1, r@.len() as int)) == j,
{
    proof {
        reveal_strlit("L");
    }
    let mut r = "L".to_owned();
    let d = usize_to_digits(j);
    let ghost rv = r@;
    r.append(d.as_str());
    proof {
        assert(r@.subrange(1, r@.len() as int) =~= d@);
    }
    r
}

/// Two synthetic labels with different positions differ as text.
proof fn lemma_label_views_distinct(a: Seq<char>, b: Seq<char>, ja: int, jb: int)
    requires
        a.len() >= 2,
        b.len() >= 2,
        dec_val(a.subrange(1, a.len() as int)) == ja,
        dec_val(b.subrange(1, b.len() as int)) == jb,
        ja != jb,
    ensures
        a != b,
{
    if a == b {
        assert(a.subrange(1, a.len() as int) =~= b.subrange(1, b.len() as int));
    }
}

} // verus!

verus! {

use crate::basic_blocks::{covers_always, or_flags};
use crate::program::{labels_unique, lemma_label_map_entry};

/// The text of a block-position label: `L` followed by the position.
pub open spec fn label_view_ok(v: Seq<char>, k: int) -> bool {
    v.len() >= 2 && v[0] == 'L' && crate::text::dec_val(v.subrange(1, v.len() as int)) == k
}

/// A sign class present in the union is present in some edge.
proof fn lemma_or_bit_member(e: Seq<(BasicBlockId, JumpFlag)>, bit: u8)
    requires
        or_flags(e).bits() & bit != 0,
    ensures
        exists|k: int| 0 <= k < e.len() && ((#[trigger] e[k]).1.bits() & bit) != 0,
    decreases e.len(),
{
    if e.len() == 0 {
        assert((0u8 & bit) == 0) by (bit_vector);
    } else {
        let a = or_flags(e.drop_last()).bits();
        let b = e.last().1.bits();
        crate::jump_flag::lemma_flag_op_bits(or_flags(e.drop_last()), e.last().1);
        assert(((a | b) & bit) != 0 ==> (a & bit) != 0 || (b & bit) != 0) by (bit_vector);
        if (b & bit) != 0 {
            assert((e[e.len() - 1].1.bits() & bit) != 0);
        } else {
            lemma_or_bit_member(e.drop_last(), bit);
            let k = choose|k: int|
                0 <= k < e.drop_last().len() && ((#[trigger] e.drop_last()[k]).1.bits() & bit)
                    != 0;
            assert((e[k].1.bits() & bit) != 0);
        }
    }
}

/// The first edge whose flag holds the given sign-class bit.
fn find_bit_target(edges: &Vec<(BasicBlockId, JumpFlag)>, bit: u8) -> (r: Option<BasicBlockId>)
    ensures
        match r {
            Some(t) => exists|k: int|
                0 <= k < edges@.len() && (#[trigger] edges@[k]).0 == t && (edges@[k].1.bits()
                    & bit) != 0 && forall|q: int|
                    0 <= q < k ==> ((#[trigger] edges@[q]).1.bits() & bit) == 0,
            None => forall|k: int|
                0 <= k < edges@.len() ==> ((#[trigger] edges@[k]).1.bits() & bit) == 0,
        },
{
    let n = edges.len();
    let mut k: usize = 0;
    while k < n
        invariant
            0 <= k <= n,
            n == edges@.len(),
            forall|q: int| 0 <= q < k ==> ((#[trigger] edges@[q]).1.bits() & bit) == 0,
        decreases n - k,
    {
        let f = edges[k].1.to_u8();
        if f & bit != 0 {
            proof {
                assert((edges@[k as int].1.bits() & bit) != 0);
            }
            return Some(edges[k].0);
        }
        k = k + 1;
    }
    None
}

/// How many jump instructions one block's edges emit: a single
/// unconditional jump for one edge, otherwise a zero test, a negative
/// test and an unconditional jump.
pub open spec fn emit_count(e: Seq<(BasicBlockId, JumpFlag)>) -> int {
    if e.len() == 1 {
        1int
    } else {
        3int
    }
}

/// The label leads, through the emitted table, to the start of the block
/// carrying the target id, or to the end label when no block carries it.
pub open spec fn jump_goes_to(
    table: Seq<(String, usize)>,
    blocks: Seq<BasicBlock>,
    l: Seq<char>,
    t: BasicBlockId,
) -> bool {
    &&& label_map_of(table).contains_key(l)
    &&& exists|w: int|
        0 <= w <= blocks.len() && label_map_of(table)[l] == (#[trigger] table[w]).1 && ((w
            < blocks.len() && blocks[w].id == t) || (w == blocks.len() && forall|u: int|
            0 <= u < blocks.len() ==> (#[trigger] blocks[u]).id != t))
}

/// The label names the position of the block carrying the target id, or
/// the end position when no block carries it.
pub open spec fn name_points(
    names: Seq<String>,
    blocks: Seq<BasicBlock>,
    l: Seq<char>,
    t: BasicBlockId,
) -> bool {
    exists|w: int|
        0 <= w <= blocks.len() && l == (#[trigger] names[w])@ && ((w < blocks.len() && blocks[w].id
            == t) || (w == blocks.len() && forall|u: int|
            0 <= u < blocks.len() ==> (#[trigger] blocks[u]).id != t))
}

/// The emitted jumps at offset `z` realize the edge list `out`: one
/// unconditional jump to the only target, or a zero test, a negative
/// test and an unconditional jump, each to the first edge that carries
/// that sign class.
pub open spec fn zone_ok(
    table: Seq<(String, usize)>,
    blocks: Seq<BasicBlock>,
    instrs: Seq<Instruction>,
    z: int,
    out: Seq<(BasicBlockId, JumpFlag)>,
) -> bool {
    if out.len() == 1 {
        &&& z + 1 <= instrs.len()
        &&& (instrs[z] matches Instruction::Jump(l) && jump_goes_to(table, blocks, l@, out[0].0))
    } else {
        &&& z + 3 <= instrs.len()
        &&& (instrs[z] matches Instruction::JumpZ(l) && (
        crate::basic_blocks::first_match(out, JumpFlag::IfZero) matches Some(t) && jump_goes_to(
            table,
            blocks,
            l@,
            t,
        )))
        &&& (instrs[z + 1] matches Instruction::JumpN(l) && (
        crate::basic_blocks::first_match(out, JumpFlag::IfNegative) matches Some(t)
            && jump_goes_to(table, blocks, l@, t)))
        &&& (instrs[z + 2] matches Instruction::Jump(l) && (
        crate::basic_blocks::first_match(out, JumpFlag::IfPositive) matches Some(t)
            && jump_goes_to(table, blocks, l@, t)))
    }
}

/// As `zone_ok`, but with the labels tied to positions by name rather
/// than through the finished table.
spec fn zone_names_ok(
    names: Seq<String>,
    blocks: Seq<BasicBlock>,
    instrs: Seq<Instruction>,
    z: int,
    out: Seq<(BasicBlockId, JumpFlag)>,
) -> bool {
    if out.len() == 1 {
        &&& z + 1 <= instrs.len()
        &&& (instrs[z] matches Instruction::Jump(l) && name_points(names, blocks, l@, out[0].0))
    } else {
        &&& z + 3 <= instrs.len()
        &&& (instrs[z] matches Instruction::JumpZ(l) && (
        crate::basic_blocks::first_match(out, JumpFlag::IfZero) matches Some(t) && name_points(
            names,
            blocks,
            l@,
            t,
        )))
        &&& (instrs[z + 1] matches Instruction::JumpN(l) && (
        crate::basic_blocks::first_match(out, JumpFlag::IfNegative) matches Some(t)
            && name_points(names, blocks, l@, t)))
        &&& (instrs[z + 2] matches Instruction::Jump(l) && (
        crate::basic_blocks::first_match(out, JumpFlag::IfPositive) matches Some(t)
            && name_points(names, blocks, l@, t)))
    }
}

impl ProgramControlFlowGraph {
    /// Writes the graph back as a linear program: each block receives a
    /// synthetic label at its first instruction, bodies are laid out in
    /// position order, and each block's edges end it as jump
    /// instructions; a final label marks normal termination. The result
    /// is well formed, so it parses and simulates: every emitted jump
    /// names a declared label, each block's body sits between its label
    /// and its trailing jumps, and each trailing jump sends its sign
    /// class to the label of the first edge that carries it.
    #[verifier::rlimit(100)]
    #[verifier::spinoff_prover]
    pub fn to_program(&self) -> (r: Program)
        requires
            ids_unique(self.blocks@),
            cover_all(self.blocks@),
            forall|j: int, q: int|
                0 <= j < self.blocks@.len() && 0 <= q < (#[trigger] self.blocks@[j]).instructions@.len()
                    ==> !(#[trigger] self.blocks@[j].instructions@[q]).spec_is_jump(),
        ensures
            r.wf(),
            r.initial_floor@ == self.initial_floor@,
            r.jump_label_lines@.len() == self.blocks@.len() + 1,
            forall|k: int|
                0 <= k <= self.blocks@.len() ==> label_view_ok(
                    (#[trigger] r.jump_label_lines@[k]).0@,
                    k,
                ),
            forall|k1: int, k2: int|
                0 <= k1 < k2 <= self.blocks@.len() ==> (#[trigger] r.jump_label_lines@[k1]).1 < (
                #[trigger] r.jump_label_lines@[k2]).1,
            r.jump_label_lines@.len() > 0 && r.jump_label_lines@.last().1
                == r.instructions@.len(),
            r.jump_label_lines@[0].1 == 0,
            forall|k: int|
                0 <= k < self.blocks@.len() ==> (#[trigger] r.jump_label_lines@[k + 1]).1
                    == r.jump_label_lines@[k].1 + self.blocks@[k].instructions@.len() + emit_count(
                    self.blocks@[k].outgoing_jumps@,
                ),
            forall|k: int|
                0 <= k < self.blocks@.len() ==> r.instructions@.subrange(
                    (#[trigger] r.jump_label_lines@[k]).1 as int,
                    r.jump_label_lines@[k].1 + self.blocks@[k].instructions@.len(),
                ) == self.blocks@[k].instructions@,
            forall|k: int|
                0 <= k < self.blocks@.len() ==> zone_ok(
                    r.jump_label_lines@,
                    self.blocks@,
                    r.instructions@,
                    (#[trigger] r.jump_label_lines@[k]).1 + self.blocks@[k].instructions@.len(),
                    self.blocks@[k].outgoing_jumps@,
                ),
    {
        let nb = self.blocks.len();

        // one label per block position, plus the end label
        let mut names: Vec<String> = Vec::new();
        let mut j: usize = 0;
        while j < nb
            invariant
                0 <= j <= nb,
                names@.len() == j,
                forall|k: int| 0 <= k < j ==> label_view_ok((#[trigger] names@[k])@, k),
            decreases nb - j,
        {
            let nm = label_for(j);
            names.push(nm);
            j = j + 1;
        }
        let nm = label_for(nb);
        names.push(nm);

        let mut instructions: Vec<Instruction> = Vec::new();
        let mut table: Vec<(String, usize)> = Vec::new();
        let mut j: usize = 0;
        while j < nb
            invariant
                0 <= j <= nb,
                nb == self.blocks@.len(),
                ids_unique(self.blocks@),
                cover_all(self.blocks@),
                forall|b: int, q: int|
                    0 <= b < self.blocks@.len() && 0 <= q < (
                    #[trigger] self.blocks@[b]).instructions@.len() ==> !(
                #[trigger] self.blocks@[b].instructions@[q]).spec_is_jump(),
                names@.len() == nb + 1,
                forall|k: int| 0 <= k <= nb ==> label_view_ok((#[trigger] names@[k])@, k),
                table@.len() == j,
                forall|k: int|
                    0 <= k < j ==> (#[trigger] table@[k]).0@ == (names@[k])@ && table@[k].1
                        < instructions@.len(),
                j == 0 ==> instructions@.len() == 0,
                j > 0 ==> table@[0].1 == 0,
                j > 0 ==> instructions@.len() == table@[j - 1].1 + self.blocks@[j
                    - 1].instructions@.len() + emit_count(self.blocks@[j - 1].outgoing_jumps@),
                forall|k: int|
                    0 <= k < j - 1 ==> (#[trigger] table@[k + 1]).1 == table@[k].1 + self.blocks@[
                    k].instructions@.len() + emit_count(self.blocks@[k].outgoing_jumps@),
                forall|k: int|
                    0 <= k < j ==> instructions@.subrange(
                        (#[trigger] table@[k]).1 as int,
                        table@[k].1 + self.blocks@[k].instructions@.len(),
                    ) == self.blocks@[k].instructions@,
                forall|k: int|
                    0 <= k < j ==> zone_names_ok(
                        names@,
                        self.blocks@,
                        instructions@,
                        (#[trigger] table@[k]).1 + self.blocks@[k].instructions@.len(),
                        self.blocks@[k].outgoing_jumps@,
                    ),
                forall|i: int|
                    0 <= i < instructions@.len() ==> match crate::program::jump_target(
                        #[trigger] instructions@[i],
                    ) {
                        Some(l) => exists|w: int| 0 <= w <= nb && l == (#[trigger] names@[w])@,
                        None => true,
                    },
            decreases nb - j,
        {
            let ghost ins0 = instructions@;
            let ghost tbl0 = table@;
            let base = instructions.len();
            let label = names[j].clone();
            table.push((label, base));

            let m = self.blocks[j].instructions.len();
            let mut q: usize = 0;
            while q < m
                invariant
                    0 <= q <= m,
                    0 <= j < nb,
                    nb == self.blocks@.len(),
                    m == self.blocks@[j as int].instructions@.len(),
                    names@.len() == nb + 1,
                    table@.len() == j + 1,
                    base == ins0.len(),
                    instructions@ == ins0 + self.blocks@[j as int].instructions@.take(q as int),
                    forall|b: int, q2: int|
                        0 <= b < self.blocks@.len() && 0 <= q2 < (
                        #[trigger] self.blocks@[b]).instructions@.len() ==> !(
                    #[trigger] self.blocks@[b].instructions@[q2]).spec_is_jump(),
                    forall|i: int|
                        0 <= i < ins0.len() ==> match crate::program::jump_target(
                            #[trigger] ins0[i],
                        ) {
                            Some(l) => exists|w: int| 0 <= w <= nb && l == (#[trigger] names@[w])@,
                            None => true,
                        },
                decreases m - q,
            {
                let inst = self.blocks[j].instructions[q].duplicate();
                proof {
                    assert(!inst.spec_is_jump());
                    assert(crate::program::jump_target(inst) is None);
                    assert(ins0 + self.blocks@[j as int].instructions@.take(q as int + 1)
                        =~= instructions@.push(inst));
                }
                instructions.push(inst);
                q = q + 1;
            }
            proof {
                assert(self.blocks@[j as int].instructions@.take(m as int) =~= self.blocks@[
                j as int].instructions@);
            }

            // the block's edges become its trailing jumps
            let ghost out = self.blocks@[j as int].outgoing_jumps@;
            let edges = &self.blocks[j].outgoing_jumps;
            proof {
                assert(covers_always(out));
            }
            if edges.len() == 1 {
                let lbl = self.target_label(&names, edges[0].0, nb);
                proof {
                    assert(name_points(names@, self.blocks@, lbl@, out[0].0));
                }
                instructions.push(Instruction::Jump(lbl));
            } else {
                proof {
                    crate::jump_flag::lemma_flag_op_bits(JumpFlag::Always, JumpFlag::Always);
                    assert((0x7u8 & 0x1) != 0 && (0x7u8 & 0x2) != 0 && (0x7u8 & 0x4) != 0)
                        by (bit_vector);
                    lemma_or_bit_member(out, 0x1);
                    lemma_or_bit_member(out, 0x2);
                    lemma_or_bit_member(out, 0x4);
                }
                let tz = match find_bit_target(edges, 0x1) {
                    Some(t) => t,
                    None => vstd::pervasive::unreached(),
                };
                let tn = match find_bit_target(edges, 0x2) {
                    Some(t) => t,
                    None => vstd::pervasive::unreached(),
                };
                let tp = match find_bit_target(edges, 0x4) {
                    Some(t) => t,
                    None => vstd::pervasive::unreached(),
                };
                proof {
                    let kz = choose|k: int|
                        0 <= k < out.len() && (#[trigger] out[k]).0 == tz && (out[k].1.bits()
                            & 0x1) != 0 && forall|q2: int|
                            0 <= q2 < k ==> ((#[trigger] out[q2]).1.bits() & 0x1) == 0;
                    crate::local_optimizations::lemma_first_match_from_bits(
                        out,
                        JumpFlag::IfZero,
                        kz,
                    );
                    let kn = choose|k: int|
                        0 <= k < out.len() && (#[trigger] out[k]).0 == tn && (out[k].1.bits()
                            & 0x2) != 0 && forall|q2: int|
                            0 <= q2 < k ==> ((#[trigger] out[q2]).1.bits() & 0x2) == 0;
                    crate::local_optimizations::lemma_first_match_from_bits(
                        out,
                        JumpFlag::IfNegative,
                        kn,
                    );
                    let kp = choose|k: int|
                        0 <= k < out.len() && (#[trigger] out[k]).0 == tp && (out[k].1.bits()
                            & 0x4) != 0 && forall|q2: int|
                            0 <= q2 < k ==> ((#[trigger] out[q2]).1.bits() & 0x4) == 0;
                    crate::local_optimizations::lemma_first_match_from_bits(
                        out,
                        JumpFlag::IfPositive,
                        kp,
                    );
                }
                let lz = self.target_label(&names, tz, nb);
                instructions.push(Instruction::JumpZ(lz));
                let ln = self.target_label(&names, tn, nb);
                instructions.push(Instruction::JumpN(ln));
                let lp = self.target_label(&names, tp, nb);
                instructions.push(Instruction::Jump(lp));
            }
            proof {
                let cur = instructions@;
                let body = self.blocks@[j as int].instructions@;
                // the zone of this block sits right after its body
                assert(zone_names_ok(names@, self.blocks@, cur, base + m, out));
                // everything already laid out is untouched by the pushes
                assert(forall|i: int| 0 <= i < ins0.len() ==> #[trigger] cur[i] == ins0[i]);
                assert(cur.subrange(base as int, base + m) =~= body);
                assert forall|k: int| 0 <= k < j implies instructions@.subrange(
                    (#[trigger] table@[k]).1 as int,
                    table@[k].1 + self.blocks@[k].instructions@.len(),
                ) == self.blocks@[k].instructions@ by {
                    assert(table@[k] == tbl0[k]);
                    assert(tbl0[k].1 + self.blocks@[k].instructions@.len() <= ins0.len());
                    assert(cur.subrange(
                        tbl0[k].1 as int,
                        tbl0[k].1 + self.blocks@[k].instructions@.len(),
                    ) =~= ins0.subrange(
                        tbl0[k].1 as int,
                        tbl0[k].1 + self.blocks@[k].instructions@.len(),
                    ));
                }
                assert forall|k: int| 0 <= k < j implies zone_names_ok(
                    names@,
                    self.blocks@,
                    instructions@,
                    (#[trigger] table@[k]).1 + self.blocks@[k].instructions@.len(),
                    self.blocks@[k].outgoing_jumps@,
                ) by {
                    assert(table@[k] == tbl0[k]);
                    assert(zone_names_ok(
                        names@,
                        self.blocks@,
                        ins0,
                        tbl0[k].1 + self.blocks@[k].instructions@.len(),
                        self.blocks@[k].outgoing_jumps@,
                    ));
                    let z = tbl0[k].1 + self.blocks@[k].instructions@.len();
                    if self.blocks@[k].outgoing_jumps@.len() == 1 {
                        assert(cur[z] == ins0[z]);
                    } else {
                        assert(cur[z] == ins0[z]);
                        assert(cur[z + 1] == ins0[z + 1]);
                        assert(cur[z + 2] == ins0[z + 2]);
                    }
                }
            }
            j = j + 1;
        }
        let label = names[nb].clone();
        table.push((label, instructions.len()));

        proof {
            assert forall|k1: int, k2: int| 0 <= k1 < k2 < table@.len() implies (
            #[trigger] table@[k1]).0@ != (#[trigger] table@[k2]).0@ by {
                lemma_label_views_distinct((names@[k1])@, (names@[k2])@, k1, k2);
            }
            assert(labels_unique(table@));
            assert forall|i: int|
                0 <= i < instructions@.len() implies match crate::program::jump_target(
                #[trigger] instructions@[i],
            ) {
                Some(l) => label_map_of(table@).contains_key(l),
                None => true,
            } by {
                match crate::program::jump_target(instructions@[i]) {
                    Some(l) => {
                        let w = choose|w: int| 0 <= w <= nb && l == (#[trigger] names@[w])@;
                        lemma_label_map_entry(table@, w);
                    },
                    None => {},
                }
            }
            // table indices grow strictly: each block emits its body and
            // at least one jump
            assert forall|k: int| 0 <= k < table@.len() - 1 implies (#[trigger] table@[k]).1
                < table@[k + 1].1 by {
                assert(emit_count(self.blocks@[k].outgoing_jumps@) >= 1);
            }
            assert forall|k1: int, k2: int| 0 <= k1 < k2 <= nb implies (
            #[trigger] table@[k1]).1 < (#[trigger] table@[k2]).1 by {
                lemma_table_monotone(table@, k1, k2);
            }
            // a by-name position claim becomes a through-the-table claim
            assert forall|k: int| 0 <= k < nb implies zone_ok(
                table@,
                self.blocks@,
                instructions@,
                (#[trigger] table@[k]).1 + self.blocks@[k].instructions@.len(),
                self.blocks@[k].outgoing_jumps@,
            ) by {
                lemma_zone_names_to_table(
                    table@,
                    names@,
                    self.blocks@,
                    instructions@,
                    table@[k].1 + self.blocks@[k].instructions@.len(),
                    self.blocks@[k].outgoing_jumps@,
                );
            }
        }

        let mut floor: Vec<Option<DataCube>> = Vec::new();
        let mut k: usize = 0;
        while k < self.initial_floor.len()
            invariant
                0 <= k <= self.initial_floor@.len(),
                floor@ == self.initial_floor@.subrange(0, k as int),
            decreases self.initial_floor@.len() - k,
        {
            floor.push(self.initial_floor[k]);
            proof {
                assert(floor@ =~= self.initial_floor@.subrange(0, k as int + 1));
            }
            k = k + 1;
        }
        proof {
            assert(floor@ =~= self.initial_floor@);
        }

        Program { instructions, initial_floor: floor, jump_label_lines: table }
    }

    /// The label of the block an edge points at; a target no block
    /// carries, the end sentinel included, maps to the end label.
    fn target_label(&self, names: &Vec<String>, t: BasicBlockId, nb: usize) -> (r: String)
        requires
            names@.len() == nb + 1,
            nb == self.blocks@.len(),
            forall|k: int| 0 <= k <= nb ==> label_view_ok((#[trigger] names@[k])@, k),
        ensures
            name_points(names@, self.blocks@, r@, t),
    {
        match find_block_index(&self.blocks, t) {
            Some(w) => {
                let r = names[w].clone();
                proof {
                    assert(r@ == (names@[w as int])@);
                }
                r
            },
            None => {
                let r = names[nb].clone();
                proof {
                    assert(r@ == (names@[nb as int])@);
                }
                r
            },
        }
    }
}

/// Consecutive strict growth of the table indices gives pairwise strict
/// growth.
proof fn lemma_table_monotone(t: Seq<(String, usize)>, k1: int, k2: int)
    requires
        forall|k: int| 0 <= k < t.len() - 1 ==> (#[trigger] t[k]).1 < t[k + 1].1,
        0 <= k1 < k2 < t.len(),
    ensures
        t[k1].1 < t[k2].1,
    decreases k2 - k1,
{
    if k1 + 1 < k2 {
        lemma_table_monotone(t, k1, k2 - 1);
    }
}

/// A by-name position claim about a jump zone becomes a claim through
/// the finished label table.
proof fn lemma_zone_names_to_table(
    table: Seq<(String, usize)>,
    names: Seq<String>,
    blocks: Seq<BasicBlock>,
    instrs: Seq<Instruction>,
    z: int,
    out: Seq<(BasicBlockId, JumpFlag)>,
)
    requires
        labels_unique(table),
        table.len() == blocks.len() + 1,
        names.len() == blocks.len() + 1,
        forall|k: int| 0 <= k <= blocks.len() ==> (#[trigger] table[k]).0@ == (names[k])@,
        zone_names_ok(names, blocks, instrs, z, out),
    ensures
        zone_ok(table, blocks, instrs, z, out),
{
    assert forall|l: Seq<char>, t: BasicBlockId|
        name_points(names, blocks, l, t) implies jump_goes_to(table, blocks, l, t) by {
        let w = choose|w: int|
            0 <= w <= blocks.len() && l == (#[trigger] names[w])@ && ((w < blocks.len()
                && blocks[w].id == t) || (w == blocks.len() && forall|u: int|
                0 <= u < blocks.len() ==> (#[trigger] blocks[u]).id != t));
        lemma_label_map_entry(table, w);
        assert(label_map_of(table)[l] == table[w].1);
    }
}

} // verus!

verus! {

/// Where a target id lands after renumbering: the position of the block
/// that carried it, or the fresh end sentinel for a stale or sentinel id.
pub open spec fn relabeled_target(blocks: Seq<BasicBlock>, t: BasicBlockId, r: BasicBlockId) -> bool {
    ||| (exists|w: int| 0 <= w < blocks.len() && (#[trigger] blocks[w]).id == t && r.0 == w)
    ||| ((forall|w: int| 0 <= w < blocks.len() ==> (#[trigger] blocks[w]).id != t) && r.0
        == blocks.len())
}

/// One edge list with every target renumbered.
pub open spec fn edges_relabeled(
    blocks: Seq<BasicBlock>,
    a: Seq<(BasicBlockId, JumpFlag)>,
    b: Seq<(BasicBlockId, JumpFlag)>,
) -> bool {
    a.len() == b.len() && forall|k: int|
        0 <= k < a.len() ==> (#[trigger] b[k]).1 == a[k].1 && relabeled_target(
            blocks,
            a[k].0,
            b[k].0,
        )
}

/// The position of an id in the snapshot list.
fn find_id(ids: &Vec<BasicBlockId>, t: BasicBlockId) -> (r: Option<usize>)
    ensures
        match r {
            Some(w) => w < ids@.len() && ids@[w as int] == t,
            None => forall|q: int| 0 <= q < ids@.len() ==> (#[trigger] ids@[q]) != t,
        },
{
    let n = ids.len();
    let mut k: usize = 0;
    while k < n
        invariant
            0 <= k <= n,
            n == ids@.len(),
            forall|q: int| 0 <= q < k ==> (#[trigger] ids@[q]) != t,
        decreases n - k,
    {
        if ids[k].0 == t.0 {
            return Some(k);
        }
        k = k + 1;
    }
    None
}

/// Rewrites one edge list in place, renumbering every target.
fn relabel_edges(edges: &mut Vec<(BasicBlockId, JumpFlag)>, ids: &Vec<BasicBlockId>, ghost_blocks: Ghost<Seq<BasicBlock>>)
    requires
        ids@.len() == ghost_blocks@.len(),
        forall|w: int| 0 <= w < ids@.len() ==> (#[trigger] ids@[w]) == ghost_blocks@[w].id,
    ensures
        edges_relabeled(ghost_blocks@, old(edges)@, final(edges)@),
{
    let n = edges.len();
    let mut k: usize = 0;
    while k < n
        invariant
            0 <= k <= n,
            n == edges@.len(),
            n == old(edges)@.len(),
            ids@.len() == ghost_blocks@.len(),
            forall|w: int| 0 <= w < ids@.len() ==> (#[trigger] ids@[w]) == ghost_blocks@[w].id,
            forall|q: int| k <= q < n ==> (#[trigger] edges@[q]) == old(edges)@[q],
            forall|q: int|
                0 <= q < k ==> (#[trigger] edges@[q]).1 == old(edges)@[q].1 && relabeled_target(
                    ghost_blocks@,
                    old(edges)@[q].0,
                    edges@[q].0,
                ),
        decreases n - k,
    {
        let (t, f) = edges[k];
        match find_id(ids, t) {
            Some(w) => {
                edges[k] = (BasicBlockId(w), f);
                proof {
                    assert(ghost_blocks@[w as int].id == t);
                    assert(relabeled_target(ghost_blocks@, t, BasicBlockId(w)));
                }
            },
            None => {
                let e = ids.len();
                edges[k] = (BasicBlockId(e), f);
                proof {
                    assert forall|w2: int| 0 <= w2 < ghost_blocks@.len() implies (
                    #[trigger] ghost_blocks@[w2]).id != t by {
                        assert(ids@[w2] == ghost_blocks@[w2].id);
                    }
                    assert(relabeled_target(ghost_blocks@, t, BasicBlockId(e)));
                }
            },
        }
        k = k + 1;
    }
}

impl ProgramControlFlowGraph {
    /// Renumbers blocks by position and remaps every edge target; a
    /// stale target, the old end sentinel included, maps to the new end
    /// sentinel.
    pub fn relabel_blocks(&mut self)
        ensures
            final(self).initial_floor == old(self).initial_floor,
            final(self).blocks@.len() == old(self).blocks@.len(),
            forall|j: int|
                0 <= j < final(self).blocks@.len() ==> (#[trigger] final(self).blocks@[j]).id.0
                    == j,
            forall|j: int|
                0 <= j < final(self).blocks@.len() ==> (#[trigger] final(self).blocks@[
                j]).instructions@ == old(self).blocks@[j].instructions@,
            forall|j: int|
                0 <= j < final(self).blocks@.len() ==> edges_relabeled(
                    old(self).blocks@,
                    old(self).blocks@[j].outgoing_jumps@,
                    (#[trigger] final(self).blocks@[j]).outgoing_jumps@,
                ),
            forall|j: int|
                0 <= j < final(self).blocks@.len() ==> edges_relabeled(
                    old(self).blocks@,
                    old(self).blocks@[j].incoming_jumps@,
                    (#[trigger] final(self).blocks@[j]).incoming_jumps@,
                ),
    {
        let n = self.blocks.len();
        let mut ids: Vec<BasicBlockId> = Vec::new();
        let mut j: usize = 0;
        while j < n
            invariant
                0 <= j <= n,
                n == self.blocks@.len(),
                self.blocks@ == old(self).blocks@,
                self.initial_floor == old(self).initial_floor,
                ids@.len() == j,
                forall|w: int| 0 <= w < j ==> (#[trigger] ids@[w]) == self.blocks@[w].id,
            decreases n - j,
        {
            let id = self.blocks[j].id;
            ids.push(id);
            j = j + 1;
        }

        let ghost s0 = old(self).blocks@;
        let mut j: usize = 0;
        while j < n
            invariant
                0 <= j <= n,
                n == self.blocks@.len(),
                n == s0.len(),
                self.initial_floor == old(self).initial_floor,
                ids@.len() == n,
                forall|w: int| 0 <= w < n ==> (#[trigger] ids@[w]) == s0[w].id,
                forall|q: int| j <= q < n ==> (#[trigger] self.blocks@[q]) == s0[q],
                forall|q: int|
                    0 <= q < j ==> (#[trigger] self.blocks@[q]).id.0 == q && self.blocks@[
                    q].instructions@ == s0[q].instructions@ && edges_relabeled(
                        s0,
                        s0[q].outgoing_jumps@,
                        self.blocks@[q].outgoing_jumps@,
                    ) && edges_relabeled(
                        s0,
                        s0[q].incoming_jumps@,
                        self.blocks@[q].incoming_jumps@,
                    ),
            decreases n - j,
        {
            self.blocks[j].id = BasicBlockId(j);
            relabel_edges(&mut self.blocks[j].outgoing_jumps, &ids, Ghost(s0));
            relabel_edges(&mut self.blocks[j].incoming_jumps, &ids, Ghost(s0));
            j = j + 1;
        }
    }
}

} // verus!

//! Basic blocks: straight-line instruction runs with typed conditional
//! edges, referenced by stable numeric ids.

use vstd::prelude::*;
use crate::instruction::Instruction;
use crate::jump_flag::JumpFlag;

verus! {

/// A stable identifier of a block, unique within its graph. The id equal
/// to the graph's block count is the end-block sentinel.
#[derive(Clone, Copy, Debug, PartialEq, Eq, Structural)]
pub struct BasicBlockId(pub usize);

/// A basic block: its id, its non-jump instructions, its outgoing edges
/// in textual order, and the inverse index of edges that reach it.
#[derive(Debug)]
pub struct BasicBlock {
    pub id: BasicBlockId,
    pub instructions: Vec<Instruction>,
    pub outgoing_jumps: Vec<(BasicBlockId, JumpFlag)>,
    pub incoming_jumps: Vec<(BasicBlockId, JumpFlag)>,
}

/// The union of all flags of an edge list.
pub open spec fn or_flags(edges: Seq<(BasicBlockId, JumpFlag)>) -> JumpFlag
    decreases edges.len(),
{
    if edges.len() == 0 {
        JumpFlag::Never
    } else {
        or_flags(edges.drop_last()).spec_or(edges.last().1)
    }
}

/// The edges cover every sign class: their union is `Always`.
pub open spec fn covers_always(edges: Seq<(BasicBlockId, JumpFlag)>) -> bool {
    or_flags(edges) == JumpFlag::Always
}

/// No two edges share a sign class.
pub open spec fn flags_disjoint(edges: Seq<(BasicBlockId, JumpFlag)>) -> bool {
    forall|i: int, j: int|
        0 <= i < j < edges.len() ==> (#[trigger] edges[i]).1.spec_and((#[trigger] edges[j]).1)
            == JumpFlag::Never
}

/// No two edges name the same target.
pub open spec fn targets_unique(edges: Seq<(BasicBlockId, JumpFlag)>) -> bool {
    forall|i: int, j: int|
        0 <= i < j < edges.len() ==> (#[trigger] edges[i]).0 != (#[trigger] edges[j]).0
}

/// No edge carries the empty flag.
pub open spec fn no_never(edges: Seq<(BasicBlockId, JumpFlag)>) -> bool {
    forall|i: int| 0 <= i < edges.len() ==> (#[trigger] edges[i]).1 != JumpFlag::Never
}

/// A canonical edge list: disjoint flags, distinct targets, no empty
/// flag. Such edges commute: their order carries no meaning.
pub open spec fn edges_canonical(edges: Seq<(BasicBlockId, JumpFlag)>) -> bool {
    flags_disjoint(edges) && targets_unique(edges) && no_never(edges)
}

/// The target the machine takes under textual first-match semantics when
/// the held datum's sign class is `atom`.
pub open spec fn first_match(
    edges: Seq<(BasicBlockId, JumpFlag)>,
    atom: JumpFlag,
) -> Option<BasicBlockId>
    decreases edges.len(),
{
    if edges.len() == 0 {
        None
    } else if edges[0].1.spec_and(atom) != JumpFlag::Never {
        Some(edges[0].0)
    } else {
        first_match(edges.drop_first(), atom)
    }
}

impl BasicBlock {
    /// This block's outgoing edges are canonical.
    pub open spec fn canonical(&self) -> bool {
        edges_canonical(self.outgoing_jumps@)
    }

    /// This block's outgoing edges cover every sign class.
    pub open spec fn covers(&self) -> bool {
        covers_always(self.outgoing_jumps@)
    }
}

/// The union distributes over concatenation of edge lists.
pub proof fn lemma_or_flags_concat(a: Seq<(BasicBlockId, JumpFlag)>, b: Seq<(BasicBlockId, JumpFlag)>)
    ensures
        or_flags(a + b) == or_flags(a).spec_or(or_flags(b)),
    decreases b.len(),
{
    if b.len() == 0 {
        assert(a + b =~= a);
        crate::jump_flag::lemma_or_never(or_flags(a));
    } else {
        assert((a + b).drop_last() =~= a + b.drop_last());
        assert((a + b).last() == b.last());
        lemma_or_flags_concat(a, b.drop_last());
        crate::jump_flag::lemma_or_associative(or_flags(a), or_flags(b.drop_last()), b.last().1);
    }
}

/// The union over one more edge of a prefix.
pub proof fn lemma_or_flags_take_succ(e: Seq<(BasicBlockId, JumpFlag)>, i: int)
    requires
        0 <= i < e.len(),
    ensures
        or_flags(e.take(i + 1)) == or_flags(e.take(i)).spec_or(e[i].1),
{
    assert(e.take(i + 1).drop_last() =~= e.take(i));
    assert(e.take(i + 1).last() == e[i]);
}

/// A structural copy of an edge list.
pub fn copy_edges(edges: &Vec<(BasicBlockId, JumpFlag)>) -> (r: Vec<(BasicBlockId, JumpFlag)>)
    ensures
        r@ == edges@,
{
    let mut r: Vec<(BasicBlockId, JumpFlag)> = Vec::new();
    let n = edges.len();
    let mut i: usize = 0;
    while i < n
        invariant
            0 <= i <= n,
            n == edges@.len(),
            r@ == edges@.take(i as int),
        decreases n - i,
    {
        r.push(edges[i]);
        proof {
            assert(r@ =~= edges@.take(i as int + 1));
        }
        i = i + 1;
    }
    proof {
        assert(edges@.take(n as int) =~= edges@);
    }
    r
}

/// Structural equality of two edge lists.
pub fn edges_eq(a: &Vec<(BasicBlockId, JumpFlag)>, b: &Vec<(BasicBlockId, JumpFlag)>) -> (r: bool)
    ensures
        r == (a@ == b@),
{
    let n = a.len();
    if n != b.len() {
        return false;
    }
    let mut i: usize = 0;
    while i < n
        invariant
            0 <= i <= n,
            n == a@.len(),
            n == b@.len(),
            forall|j: int| 0 <= j < i ==> a@[j] == b@[j],
        decreases n - i,
    {
        let x = a[i];
        let y = b[i];
        if x.0.0 != y.0.0 || x.1 != y.1 {
            return false;
        }
        i = i + 1;
    }
    proof {
        assert(a@ =~= b@);
    }
    true
}

/// No two blocks share an id.
pub open spec fn ids_unique(blocks: Seq<BasicBlock>) -> bool {
    forall|i: int, j: int|
        0 <= i < j < blocks.len() ==> (#[trigger] blocks[i]).id != (#[trigger] blocks[j]).id
}

/// The position of the block carrying the given id.
pub fn find_block_index(blocks: &Vec<BasicBlock>, t: BasicBlockId) -> (r: Option<usize>)
    ensures
        match r {
            Some(j) => j < blocks@.len() && blocks@[j as int].id == t,
            None => forall|j: int| 0 <= j < blocks@.len() ==> (#[trigger] blocks@[j]).id != t,
        },
{
    let n = blocks.len();
    let mut j: usize = 0;
    while j < n
        invariant
            0 <= j <= n,
            n == blocks@.len(),
            forall|k: int| 0 <= k < j ==> (#[trigger] blocks@[k]).id != t,
        decreases n - j,
    {
        if blocks[j].id.0 == t.0 {
            return Some(j);
        }
        j = j + 1;
    }
    None
}

} // verus!

verus! {

/// The number of outgoing edges over all blocks.
pub open spec fn total_edges(s: Seq<BasicBlock>) -> int
    decreases s.len(),
{
    if s.len() == 0 {
        0int
    } else {
        total_edges(s.drop_last()) + s.last().outgoing_jumps@.len()
    }
}

/// The number of instructions over all blocks.
pub open spec fn total_instructions(s: Seq<BasicBlock>) -> int
    decreases s.len(),
{
    if s.len() == 0 {
        0int
    } else {
        total_instructions(s.drop_last()) + s.last().instructions@.len()
    }
}

/// How many blocks still carry a non-canonical edge list.
pub open spec fn noncanon_count(s: Seq<BasicBlock>) -> int
    decreases s.len(),
{
    if s.len() == 0 {
        0int
    } else {
        noncanon_count(s.drop_last()) + if edges_canonical(s.last().outgoing_jumps@) {
            0int
        } else {
            1int
        }
    }
}

/// Pointwise bounds on blocks bound the graph totals; the totals are
/// never negative.
pub proof fn lemma_totals_pointwise(a: Seq<BasicBlock>, b: Seq<BasicBlock>)
    requires
        a.len() == b.len(),
        forall|j: int|
            0 <= j < a.len() ==> (#[trigger] a[j]).outgoing_jumps@.len()
                <= b[j].outgoing_jumps@.len(),
        forall|j: int|
            0 <= j < a.len() ==> (#[trigger] a[j]).instructions@.len()
                <= b[j].instructions@.len(),
        forall|j: int|
            0 <= j < a.len() ==> (edges_canonical(b[j].outgoing_jumps@) ==> edges_canonical(
                (#[trigger] a[j]).outgoing_jumps@,
            )),
    ensures
        total_edges(a) <= total_edges(b),
        total_instructions(a) <= total_instructions(b),
        noncanon_count(a) <= noncanon_count(b),
    decreases a.len(),
{
    if a.len() > 0 {
        assert(a[a.len() - 1] == a.last() && b[a.len() - 1] == b.last());
        lemma_pointwise_prefix(a, b);
        lemma_totals_pointwise(a.drop_last(), b.drop_last());
    }
}

/// The pointwise bounds pass from a pair of lists to their prefixes.
proof fn lemma_pointwise_prefix(a: Seq<BasicBlock>, b: Seq<BasicBlock>)
    requires
        a.len() == b.len(),
        a.len() > 0,
        forall|j: int|
            0 <= j < a.len() ==> (#[trigger] a[j]).outgoing_jumps@.len()
                <= b[j].outgoing_jumps@.len(),
        forall|j: int|
            0 <= j < a.len() ==> (#[trigger] a[j]).instructions@.len()
                <= b[j].instructions@.len(),
        forall|j: int|
            0 <= j < a.len() ==> (edges_canonical(b[j].outgoing_jumps@) ==> edges_canonical(
                (#[trigger] a[j]).outgoing_jumps@,
            )),
    ensures
        forall|j: int|
            0 <= j < a.drop_last().len() ==> (#[trigger] a.drop_last()[j]).outgoing_jumps@.len()
                <= b.drop_last()[j].outgoing_jumps@.len(),
        forall|j: int|
            0 <= j < a.drop_last().len() ==> (#[trigger] a.drop_last()[j]).instructions@.len()
                <= b.drop_last()[j].instructions@.len(),
        forall|j: int|
            0 <= j < a.drop_last().len() ==> (edges_canonical(b.drop_last()[j].outgoing_jumps@)
                ==> edges_canonical((#[trigger] a.drop_last()[j]).outgoing_jumps@)),
{
    assert forall|j: int| 0 <= j < a.drop_last().len() implies (#[trigger] a.drop_last()[
        j
    ]).outgoing_jumps@.len() <= b.drop_last()[j].outgoing_jumps@.len() && a.drop_last()[
        j
    ].instructions@.len() <= b.drop_last()[j].instructions@.len() && (edges_canonical(
        b.drop_last()[j].outgoing_jumps@,
    ) ==> edges_canonical(a.drop_last()[j].outgoing_jumps@)) by {
        assert(a.drop_last()[j] == a[j]);
        assert(b.drop_last()[j] == b[j]);
    }
}

/// The totals are never negative.
pub proof fn lemma_totals_nonneg(s: Seq<BasicBlock>)
    ensures
        total_edges(s) >= 0,
        total_instructions(s) >= 0,
        noncanon_count(s) >= 0,
    decreases s.len(),
{
    if s.len() > 0 {
        lemma_totals_nonneg(s.drop_last());
    }
}

/// With one block's instruction list strictly shorter, the total is
/// strictly smaller.
pub proof fn lemma_total_instructions_strict(a: Seq<BasicBlock>, b: Seq<BasicBlock>, w: int)
    requires
        a.len() == b.len(),
        0 <= w < a.len(),
        forall|j: int|
            0 <= j < a.len() ==> (#[trigger] a[j]).instructions@.len()
                <= b[j].instructions@.len(),
        a[w].instructions@.len() < b[w].instructions@.len(),
    ensures
        total_instructions(a) < total_instructions(b),
    decreases a.len(),
{
    assert(a[a.len() - 1] == a.last() && b[a.len() - 1] == b.last());
    assert forall|j: int| 0 <= j < a.drop_last().len() implies (#[trigger] a.drop_last()[
        j
    ]).instructions@.len() <= b.drop_last()[j].instructions@.len() by {
        assert(a.drop_last()[j] == a[j]);
        assert(b.drop_last()[j] == b[j]);
    }
    if w == a.len() - 1 {
        lemma_totals_pointwise_instr(a.drop_last(), b.drop_last());
    } else {
        assert(a.drop_last()[w] == a[w] && b.drop_last()[w] == b[w]);
        lemma_total_instructions_strict(a.drop_last(), b.drop_last(), w);
    }
}

/// Pointwise instruction bounds alone bound the instruction total.
pub proof fn lemma_totals_pointwise_instr(a: Seq<BasicBlock>, b: Seq<BasicBlock>)
    requires
        a.len() == b.len(),
        forall|j: int|
            0 <= j < a.len() ==> (#[trigger] a[j]).instructions@.len()
                <= b[j].instructions@.len(),
    ensures
        total_instructions(a) <= total_instructions(b),
    decreases a.len(),
{
    if a.len() > 0 {
        assert(a[a.len() - 1] == a.last() && b[a.len() - 1] == b.last());
        assert forall|j: int| 0 <= j < a.drop_last().len() implies (#[trigger] a.drop_last()[
            j
        ]).instructions@.len() <= b.drop_last()[j].instructions@.len() by {
            assert(a.drop_last()[j] == a[j]);
            assert(b.drop_last()[j] == b[j]);
        }
        lemma_totals_pointwise_instr(a.drop_last(), b.drop_last());
    }
}

/// No block is non-canonical exactly when the count is zero, and a
/// non-canonical block makes it positive.
pub proof fn lemma_noncanon_zero(s: Seq<BasicBlock>)
    ensures
        noncanon_count(s) == 0 <==> forall|j: int|
            0 <= j < s.len() ==> edges_canonical((#[trigger] s[j]).outgoing_jumps@),
    decreases s.len(),
{
    lemma_totals_nonneg(s);
    if s.len() > 0 {
        lemma_noncanon_zero(s.drop_last());
        lemma_totals_nonneg(s.drop_last());
        assert(s[s.len() - 1] == s.last());
        if noncanon_count(s) == 0 {
            assert forall|j: int| 0 <= j < s.len() implies edges_canonical(
                (#[trigger] s[j]).outgoing_jumps@,
            ) by {
                if j < s.len() - 1 {
                    assert(s.drop_last()[j] == s[j]);
                }
            }
        }
        if forall|j: int| 0 <= j < s.len() ==> edges_canonical((#[trigger] s[j]).outgoing_jumps@) {
            assert forall|j: int| 0 <= j < s.drop_last().len() implies edges_canonical(
                (#[trigger] s.drop_last()[j]).outgoing_jumps@,
            ) by {
                assert(s.drop_last()[j] == s[j]);
            }
        }
    }
}

/// A flag `Always` anywhere makes the union `Always`.
pub proof fn lemma_or_with_always(s: Seq<(BasicBlockId, JumpFlag)>, k: int)
    requires
        0 <= k < s.len(),
        s[k].1 == JumpFlag::Always,
    ensures
        or_flags(s) == JumpFlag::Always,
    decreases s.len(),
{
    let x = or_flags(s.drop_last()).bits();
    let y = s.last().1.bits();
    crate::jump_flag::lemma_flag_op_bits(or_flags(s.drop_last()), s.last().1);
    if k == s.len() - 1 {
        assert(x < 8 ==> (x | 0x7u8) == 0x7) by (bit_vector);
        crate::jump_flag::lemma_bits_injective(or_flags(s), JumpFlag::Always);
    } else {
        assert(s.drop_last()[k] == s[k]);
        lemma_or_with_always(s.drop_last(), k);
        assert(y < 8 ==> (0x7u8 | y) == 0x7) by (bit_vector);
        crate::jump_flag::lemma_bits_injective(or_flags(s), JumpFlag::Always);
    }
}

} // verus!

verus! {

/// Blocks that agree on edges and instructions give equal totals.
pub proof fn lemma_totals_congruent(a: Seq<BasicBlock>, b: Seq<BasicBlock>)
    requires
        a.len() == b.len(),
        forall|j: int|
            0 <= j < a.len() ==> (#[trigger] a[j]).outgoing_jumps@ == b[j].outgoing_jumps@,
        forall|j: int|
            0 <= j < a.len() ==> (#[trigger] a[j]).instructions@ == b[j].instructions@,
    ensures
        total_edges(a) == total_edges(b),
        total_instructions(a) == total_instructions(b),
        noncanon_count(a) == noncanon_count(b),
{
    lemma_totals_pointwise(a, b);
    lemma_totals_pointwise(b, a);
}

} // verus!

verus! {

/// Instruction totals add over concatenation.
pub proof fn lemma_total_instr_concat(a: Seq<BasicBlock>, b: Seq<BasicBlock>)
    ensures
        total_instructions(a + b) == total_instructions(a) + total_instructions(b),
    decreases b.len(),
{
    if b.len() == 0 {
        assert(a + b =~= a);
    } else {
        assert((a + b).drop_last() =~= a + b.drop_last());
        assert((a + b).last() == b.last());
        lemma_total_instr_concat(a, b.drop_last());
    }
}

/// The instruction total around one position.
pub proof fn lemma_total_instr_split(s: Seq<BasicBlock>, w: int)
    requires
        0 <= w < s.len(),
    ensures
        total_instructions(s) == total_instructions(s.take(w)) + s[w].instructions@.len()
            + total_instructions(s.skip(w + 1)),
{
    assert(s =~= s.take(w + 1) + s.skip(w + 1));
    lemma_total_instr_concat(s.take(w + 1), s.skip(w + 1));
    assert(s.take(w + 1).drop_last() =~= s.take(w));
    assert(s.take(w + 1).last() == s[w]);
}

} // verus!

verus! {

/// Some block of the list carries the given id.
pub open spec fn contains_id(s: Seq<BasicBlock>, x: BasicBlockId) -> bool
    decreases s.len(),
{
    s.len() > 0 && (s.last().id == x || contains_id(s.drop_last(), x))
}

/// Every block of the first list carries an id some block of the second
/// list carries.
pub open spec fn ids_from(t: Seq<BasicBlock>, s: Seq<BasicBlock>) -> bool {
    forall|j: int| 0 <= j < t.len() ==> contains_id(s, (#[trigger] t[j]).id)
}

/// An id found at a position is carried.
pub proof fn lemma_contains_id_at(s: Seq<BasicBlock>, k: int)
    requires
        0 <= k < s.len(),
    ensures
        contains_id(s, s[k].id),
    decreases s.len(),
{
    if k < s.len() - 1 {
        assert(s.drop_last()[k] == s[k]);
        lemma_contains_id_at(s.drop_last(), k);
    }
}

/// Id provenance is reflexive.
pub proof fn lemma_ids_from_refl(s: Seq<BasicBlock>)
    ensures
        ids_from(s, s),
{
    assert forall|j: int| 0 <= j < s.len() implies contains_id(s, (#[trigger] s[j]).id) by {
        lemma_contains_id_at(s, j);
    }
}

/// A carried id stays carried through provenance.
pub proof fn lemma_contains_id_through(b: Seq<BasicBlock>, a: Seq<BasicBlock>, x: BasicBlockId)
    requires
        contains_id(b, x),
        ids_from(b, a),
    ensures
        contains_id(a, x),
    decreases b.len(),
{
    if b.last().id == x {
        assert(b[b.len() - 1].id == x);
        assert(contains_id(a, b[b.len() - 1].id));
    } else {
        assert(forall|j: int|
            0 <= j < b.drop_last().len() ==> #[trigger] b.drop_last()[j] == b[j]);
        lemma_contains_id_through(b.drop_last(), a, x);
    }
}

/// Id provenance composes.
pub proof fn lemma_ids_from_compose(a: Seq<BasicBlock>, b: Seq<BasicBlock>, c: Seq<BasicBlock>)
    requires
        ids_from(c, b),
        ids_from(b, a),
    ensures
        ids_from(c, a),
{
    assert forall|j: int| 0 <= j < c.len() implies contains_id(a, (#[trigger] c[j]).id) by {
        lemma_contains_id_through(b, a, c[j].id);
    }
}

/// Pointwise equal ids give provenance.
pub proof fn lemma_ids_from_pointwise(t: Seq<BasicBlock>, s: Seq<BasicBlock>)
    requires
        t.len() == s.len(),
        forall|j: int| 0 <= j < t.len() ==> (#[trigger] t[j]).id == s[j].id,
    ensures
        ids_from(t, s),
{
    assert forall|j: int| 0 <= j < t.len() implies contains_id(s, (#[trigger] t[j]).id) by {
        lemma_contains_id_at(s, j);
    }
}

} // verus!

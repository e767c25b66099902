use hrm_optimizer::basic_blocks::{BasicBlock, BasicBlockId};
use hrm_optimizer::block_optimizations::{
    combine_sequential_blocks, remove_dead_blocks, remove_empty_blocks,
};
use hrm_optimizer::control_flow_graph::ProgramControlFlowGraph;
use hrm_optimizer::datacube::DataCube;
use hrm_optimizer::instruction::{Address, Instruction};
use hrm_optimizer::jump_flag::JumpFlag;
use hrm_optimizer::local_optimizations::{
    local_optimization, outbox_consumer_warnings, peephole_optimizations, simplify_outgoing_jumps,
    LocalPass,
};
use hrm_optimizer::program::Program;

const HEADER: &str = "-- HUMAN RESOURCE MACHINE PROGRAM --";

fn block(id: usize, instrs: Vec<Instruction>, out: Vec<(usize, JumpFlag)>) -> BasicBlock {
    BasicBlock {
        id: BasicBlockId(id),
        instructions: instrs,
        outgoing_jumps: out.into_iter().map(|(t, f)| (BasicBlockId(t), f)).collect(),
        incoming_jumps: vec![],
    }
}

#[test]
fn jump_inversion() {
    // JUMPZ a; JUMP b leaves edges (a, IfZero), (b, Always); after
    // canonicalization the two edges commute and cover every sign class
    let mut b0 = block(0, vec![], vec![(1, JumpFlag::IfZero), (2, JumpFlag::Always)]);
    let changed = simplify_outgoing_jumps(&mut b0);
    assert!(changed);
    assert_eq!(
        b0.outgoing_jumps,
        vec![(BasicBlockId(1), JumpFlag::IfZero), (BasicBlockId(2), JumpFlag::IfNotZero)]
    );
    let or = b0.outgoing_jumps[0].1.or(b0.outgoing_jumps[1].1);
    assert_eq!(or, JumpFlag::Always);
    assert_eq!(
        b0.outgoing_jumps[0].1.and(b0.outgoing_jumps[1].1),
        JumpFlag::Never
    );
}

#[test]
fn simplify_merges_same_target() {
    let mut b0 = block(
        0,
        vec![],
        vec![(1, JumpFlag::IfZero), (1, JumpFlag::IfNegative), (2, JumpFlag::Always)],
    );
    assert!(simplify_outgoing_jumps(&mut b0));
    assert_eq!(
        b0.outgoing_jumps,
        vec![
            (BasicBlockId(1), JumpFlag::IfNotPositive),
            (BasicBlockId(2), JumpFlag::IfPositive)
        ]
    );
}

#[test]
fn simplify_is_idempotent() {
    let mut b0 = block(0, vec![], vec![(1, JumpFlag::IfZero), (2, JumpFlag::Always)]);
    assert!(simplify_outgoing_jumps(&mut b0));
    assert!(!simplify_outgoing_jumps(&mut b0));
}

#[test]
fn dead_block_removal() {
    // the middle block has a label nothing jumps to
    let text = format!("{}\nJUMP a\nb:\nINBOX\nJUMP a\na:\nOUTBOX\n", HEADER);
    let p = Program::from_asm(&text).unwrap();
    let mut g = ProgramControlFlowGraph::new(&p);
    let before = g.blocks.len();
    assert!(remove_dead_blocks(&mut g));
    assert!(g.blocks.len() < before);
    assert!(g.blocks.iter().all(|b| b.id.0 == 0 || !b.incoming_jumps.is_empty()));
}

#[test]
fn dead_block_removal_preserves_output() {
    let text = format!("{}\nJUMP a\nb:\nINBOX\nJUMP a\na:\nINBOX\nOUTBOX\n", HEADER);
    let p = Program::from_asm(&text).unwrap();
    let input = vec![DataCube::Number(4), DataCube::Number(9)];
    let (_, out_before) = p.simulate(input.clone()).unwrap();
    let mut g = ProgramControlFlowGraph::new(&p);
    let before = g.blocks.len();
    g.optimize_to_fixed_point();
    assert!(g.blocks.len() < before);
    let q = g.to_program();
    let (_, out_after) = q.simulate(input).unwrap();
    assert_eq!(out_before, out_after);
}

#[test]
fn combine_sequential_pair() {
    let mut g = ProgramControlFlowGraph {
        initial_floor: vec![],
        blocks: vec![
            block(0, vec![Instruction::Inbox], vec![(1, JumpFlag::Always)]),
            block(1, vec![Instruction::Outbox], vec![(2, JumpFlag::Always)]),
        ],
    };
    g.refresh_incoming_jumps();
    assert!(combine_sequential_blocks(&mut g));
    assert_eq!(g.blocks.len(), 1);
    assert_eq!(g.blocks[0].instructions.len(), 2);
    assert_eq!(g.blocks[0].outgoing_jumps, vec![(BasicBlockId(2), JumpFlag::Always)]);
}

#[test]
fn empty_block_bypass() {
    // w (block 1) holds no instructions; its incoming edge is narrowed
    // onto its own outgoing edges, then w is removed
    let mut g = ProgramControlFlowGraph {
        initial_floor: vec![],
        blocks: vec![
            block(
                0,
                vec![Instruction::Inbox],
                vec![(1, JumpFlag::IfNegative), (2, JumpFlag::IfNotNegative)],
            ),
            block(1, vec![], vec![(2, JumpFlag::IfZero), (3, JumpFlag::IfNotZero)]),
            block(2, vec![Instruction::Outbox], vec![(4, JumpFlag::Always)]),
            block(3, vec![Instruction::Inbox], vec![(4, JumpFlag::Always)]),
        ],
    };
    g.refresh_incoming_jumps();
    assert!(remove_empty_blocks(&mut g));
    assert_eq!(g.blocks.len(), 3);
    assert_eq!(g.blocks[0].id, BasicBlockId(0));
    // the edge into w became w's edges, each narrowed by IfNegative
    assert_eq!(
        g.blocks[0].outgoing_jumps,
        vec![
            (BasicBlockId(2), JumpFlag::IfNotNegative),
            (BasicBlockId(2), JumpFlag::Never),
            (BasicBlockId(3), JumpFlag::IfNegative)
        ]
    );
    // a subsequent canonicalization coalesces and drops the dead edge
    g.refresh_incoming_jumps();
    assert!(local_optimization(&LocalPass::SimplifyOutgoingJumps, &mut g));
    assert_eq!(
        g.blocks[0].outgoing_jumps,
        vec![
            (BasicBlockId(2), JumpFlag::IfNotNegative),
            (BasicBlockId(3), JumpFlag::IfNegative)
        ]
    );
}

#[test]
fn peephole_keeps_indirect_rewrites() {
    // with tile 2 holding 2, COPYTO [2]; COPYFROM [2] reloads through the
    // tile just written, so deleting the reload would be unsound
    let mut b0 = block(
        0,
        vec![
            Instruction::CopyTo(Address::Indirect(2)),
            Instruction::CopyFrom(Address::Indirect(2)),
        ],
        vec![(1, JumpFlag::Always)],
    );
    assert!(!peephole_optimizations(&mut b0));
    assert_eq!(b0.instructions.len(), 2);

    let mut b1 = block(
        0,
        vec![
            Instruction::BumpUp(Address::Indirect(2)),
            Instruction::BumpDn(Address::Indirect(2)),
        ],
        vec![(1, JumpFlag::Always)],
    );
    assert!(!peephole_optimizations(&mut b1));
    assert_eq!(b1.instructions.len(), 2);
}

#[test]
fn indirect_self_pointer_shows_the_difference() {
    // the same window over direct addresses is deleted; rerunning the
    // program shows why the indirect form must stay
    let p = Program {
        instructions: vec![
            Instruction::Inbox,
            Instruction::CopyTo(Address::Indirect(0)),
            Instruction::CopyFrom(Address::Indirect(0)),
            Instruction::Outbox,
        ],
        initial_floor: vec![Some(DataCube::Number(0))],
        jump_label_lines: vec![],
    };
    // tile 0 points at itself; after writing 5 through it, reading
    // through it reads tile 5, which fails
    assert!(p.simulate(vec![DataCube::Number(5)]).is_err());
}

#[test]
fn peephole_deletes_direct_reload() {
    let mut b0 = block(
        0,
        vec![
            Instruction::CopyTo(Address::Direct(3)),
            Instruction::CopyFrom(Address::Direct(3)),
        ],
        vec![(1, JumpFlag::Always)],
    );
    assert!(peephole_optimizations(&mut b0));
    assert_eq!(b0.instructions, vec![Instruction::CopyTo(Address::Direct(3))]);
}

#[test]
fn peephole_deletes_overwritten_load() {
    let mut b0 = block(
        0,
        vec![
            Instruction::CopyFrom(Address::Direct(1)),
            Instruction::CopyFrom(Address::Direct(2)),
        ],
        vec![(1, JumpFlag::Always)],
    );
    assert!(peephole_optimizations(&mut b0));
    assert_eq!(b0.instructions, vec![Instruction::CopyFrom(Address::Direct(2))]);
}

#[test]
fn peephole_deletes_inverse_arithmetic() {
    let mut b0 = block(
        0,
        vec![
            Instruction::Add(Address::Indirect(1)),
            Instruction::Sub(Address::Indirect(1)),
        ],
        vec![(1, JumpFlag::Always)],
    );
    assert!(peephole_optimizations(&mut b0));
    assert_eq!(b0.instructions.len(), 0);

    let mut b1 = block(
        0,
        vec![
            Instruction::BumpUp(Address::Direct(1)),
            Instruction::BumpDn(Address::Direct(1)),
        ],
        vec![(1, JumpFlag::Always)],
    );
    assert!(peephole_optimizations(&mut b1));
    assert_eq!(b1.instructions.len(), 0);
}

#[test]
fn outbox_consumer_warning_positions() {
    let b0 = block(
        0,
        vec![
            Instruction::Inbox,
            Instruction::Outbox,
            Instruction::Outbox,
            Instruction::Inbox,
            Instruction::Outbox,
            Instruction::Add(Address::Direct(0)),
        ],
        vec![(1, JumpFlag::Always)],
    );
    assert_eq!(outbox_consumer_warnings(&b0), vec![1, 4]);
}

#[test]
fn cfg_construction_blocks_and_edges() {
    let text = format!("{}\na:\nINBOX\nOUTBOX\nJUMP a\n", HEADER);
    let p = Program::from_asm(&text).unwrap();
    let g = ProgramControlFlowGraph::new(&p);
    assert_eq!(g.blocks.len(), 1);
    assert_eq!(g.blocks[0].id, BasicBlockId(0));
    assert_eq!(g.blocks[0].instructions.len(), 2);
    assert_eq!(g.blocks[0].outgoing_jumps, vec![(BasicBlockId(0), JumpFlag::Always)]);
    // the self loop is recorded in the incoming index
    assert_eq!(g.blocks[0].incoming_jumps, vec![(BasicBlockId(0), JumpFlag::Always)]);
}

#[test]
fn cfg_labels_head_blocks_and_fall_through() {
    let text = format!("{}\nINBOX\nJUMPZ z\nOUTBOX\nz:\nINBOX\n", HEADER);
    let p = Program::from_asm(&text).unwrap();
    let g = ProgramControlFlowGraph::new(&p);
    // blocks: [INBOX | JUMPZ z], [OUTBOX], [INBOX]
    assert_eq!(g.blocks.len(), 3);
    assert_eq!(g.blocks[0].instructions.len(), 1);
    assert_eq!(
        g.blocks[0].outgoing_jumps,
        vec![(BasicBlockId(2), JumpFlag::IfZero), (BasicBlockId(1), JumpFlag::Always)]
    );
    assert_eq!(g.blocks[1].outgoing_jumps, vec![(BasicBlockId(2), JumpFlag::Always)]);
    // the label target heads block 2
    assert_eq!(g.blocks[2].instructions.len(), 1);
    assert_eq!(g.blocks[2].outgoing_jumps, vec![(BasicBlockId(3), JumpFlag::Always)]);
}

#[test]
fn incoming_index_is_inverse() {
    let text = format!("{}\nINBOX\nJUMPZ z\nOUTBOX\nz:\nINBOX\n", HEADER);
    let p = Program::from_asm(&text).unwrap();
    let mut g = ProgramControlFlowGraph::new(&p);
    g.refresh_incoming_jumps();
    for v in 0..g.blocks.len() {
        for &(u, f) in &g.blocks[v].incoming_jumps {
            let w = g.blocks.iter().position(|b| b.id == u).unwrap();
            let outgoing_count = g.blocks[w]
                .outgoing_jumps
                .iter()
                .filter(|&&(t, f2)| t == g.blocks[v].id && f2 == f)
                .count();
            let incoming_count = g.blocks[v]
                .incoming_jumps
                .iter()
                .filter(|&&(u2, f2)| u2 == u && f2 == f)
                .count();
            assert_eq!(outgoing_count, incoming_count);
        }
    }
}

#[test]
fn optimize_reaches_a_fixed_point() {
    let text = format!(
        "{}\nJUMP s\nd:\nINBOX\nJUMP d\ns:\nINBOX\nCOPYFROM 0\nCOPYFROM 1\nOUTBOX\nJUMP s\n",
        HEADER
    );
    let p = Program::from_asm(&text).unwrap();
    let mut g = ProgramControlFlowGraph::new(&p);
    g.optimize_to_fixed_point();
    // every block is canonical and reachable, and no rewrite applies
    let mut g2 = ProgramControlFlowGraph { initial_floor: vec![], blocks: g.blocks };
    assert!(!remove_dead_blocks(&mut g2));
    assert!(!combine_sequential_blocks(&mut g2));
    assert!(!remove_empty_blocks(&mut g2));
    assert!(!local_optimization(&LocalPass::SimplifyOutgoingJumps, &mut g2));
    assert!(!local_optimization(&LocalPass::PeepholeOptimizations, &mut g2));
}

#[test]
fn emission_round_trip_preserves_output() {
    let text = format!(
        "{}\nbegin:\nINBOX\nJUMPZ skip\nCOPYTO 0\nBUMPUP 0\nOUTBOX\nJUMP begin\nskip:\nOUTBOX\nJUMP begin\n",
        HEADER
    );
    let p = Program::from_asm(&text).unwrap();
    let p2 = Program {
        instructions: p.instructions,
        initial_floor: vec![None],
        jump_label_lines: p.jump_label_lines,
    };
    let input = vec![DataCube::Number(0), DataCube::Number(7), DataCube::Number(-2)];
    let (_, out_before) = p2.simulate(input.clone()).unwrap();
    let mut g = ProgramControlFlowGraph::new(&p2);
    g.optimize_to_fixed_point();
    let q = g.to_program();
    let (_, out_after) = q.simulate(input).unwrap();
    assert_eq!(out_before, out_after);
}

#[test]
fn relabel_compacts_ids() {
    let mut g = ProgramControlFlowGraph {
        initial_floor: vec![],
        blocks: vec![
            block(0, vec![Instruction::Inbox], vec![(5, JumpFlag::Always)]),
            block(5, vec![Instruction::Outbox], vec![(9, JumpFlag::Always)]),
        ],
    };
    g.refresh_incoming_jumps();
    g.relabel_blocks();
    assert_eq!(g.blocks[0].id, BasicBlockId(0));
    assert_eq!(g.blocks[1].id, BasicBlockId(1));
    assert_eq!(g.blocks[0].outgoing_jumps, vec![(BasicBlockId(1), JumpFlag::Always)]);
    // the stale target 9 maps to the end sentinel, the block count
    assert_eq!(g.blocks[1].outgoing_jumps, vec![(BasicBlockId(2), JumpFlag::Always)]);
}

//! The reference simulator: a small-step machine over program states.
//! Its behavior is the semantic contract the optimizer must preserve.

use vstd::prelude::*;
use crate::datacube::DataCube;
use crate::errors::HRMRuntimeError;
use crate::instruction::{Address, Instruction};
use crate::program::{jump_target, Program};

verus! {

/// A machine state: program counter, step counter, floor, accumulator,
/// remaining input, and output so far. The step counter saturates at
/// `usize::MAX`.
pub ghost struct SimState {
    pub pc: int,
    pub steps: int,
    pub floor: Seq<Option<DataCube>>,
    pub held: Option<DataCube>,
    pub inbox: Seq<DataCube>,
    pub outbox: Seq<DataCube>,
}

/// The machine after some number of steps: still running, halted
/// normally, or stopped by a runtime error.
pub ghost enum SimOutcome {
    Running(SimState),
    Halted(SimState),
    Failed(HRMRuntimeError),
}

/// The step counter after one more executed instruction.
pub open spec fn bump_steps(s: int) -> int {
    if s < usize::MAX {
        s + 1
    } else {
        s
    }
}

/// A number result written to the accumulator, or `Overflow` when it
/// leaves the representable range.
pub open spec fn arith_outcome(s: SimState, v: int) -> SimOutcome {
    if -999 <= v <= 999 {
        SimOutcome::Running(
            SimState {
                pc: s.pc + 1,
                steps: bump_steps(s.steps),
                held: Some(DataCube::Number(v as i16)),
                ..s
            },
        )
    } else {
        SimOutcome::Failed(HRMRuntimeError::Overflow)
    }
}

impl Program {
    /// The state a run starts from.
    pub open spec fn init_state(&self, inbox: Seq<DataCube>) -> SimState {
        SimState {
            pc: 0,
            steps: 0,
            floor: self.initial_floor@,
            held: None,
            inbox,
            outbox: Seq::empty(),
        }
    }

    /// One step of the machine from a running state.
    pub open spec fn spec_step(&self, s: SimState) -> SimOutcome {
        if !(0 <= s.pc < self.instructions@.len()) {
            SimOutcome::Halted(s)
        } else {
            match self.instructions@[s.pc] {
                Instruction::Inbox => {
                    if s.inbox.len() == 0 {
                        SimOutcome::Halted(s)
                    } else {
                        SimOutcome::Running(
                            SimState {
                                pc: s.pc + 1,
                                steps: bump_steps(s.steps),
                                held: Some(s.inbox[0]),
                                inbox: s.inbox.drop_first(),
                                ..s
                            },
                        )
                    }
                },
                Instruction::Outbox => {
                    match s.held {
                        None => SimOutcome::Failed(HRMRuntimeError::EmptyHands),
                        Some(c) => SimOutcome::Running(
                            SimState {
                                pc: s.pc + 1,
                                steps: bump_steps(s.steps),
                                held: None,
                                outbox: s.outbox.push(c),
                                ..s
                            },
                        ),
                    }
                },
                Instruction::CopyFrom(a) => {
                    match a.spec_follow(s.floor) {
                        Err(e) => SimOutcome::Failed(e),
                        Ok(None) => SimOutcome::Failed(HRMRuntimeError::EmptyFloor),
                        Ok(Some(c)) => SimOutcome::Running(
                            SimState {
                                pc: s.pc + 1,
                                steps: bump_steps(s.steps),
                                held: Some(c),
                                ..s
                            },
                        ),
                    }
                },
                Instruction::CopyTo(a) => {
                    // an empty accumulator fails before the address is
                    // even resolved
                    if s.held is None {
                        SimOutcome::Failed(HRMRuntimeError::EmptyHands)
                    } else {
                        match a.spec_follow(s.floor) {
                            Err(e) => SimOutcome::Failed(e),
                            Ok(_) => SimOutcome::Running(
                                SimState {
                                    pc: s.pc + 1,
                                    steps: bump_steps(s.steps),
                                    floor: s.floor.update(
                                        a.spec_raw_address(s.floor)->Ok_0,
                                        s.held,
                                    ),
                                    ..s
                                },
                            ),
                        }
                    }
                },
                Instruction::Add(a) => {
                    if s.held is None {
                        SimOutcome::Failed(HRMRuntimeError::EmptyHands)
                    } else {
                        match a.spec_follow(s.floor) {
                            Err(e) => SimOutcome::Failed(e),
                            Ok(tile) => match (s.held, tile) {
                                (None, _) => SimOutcome::Failed(HRMRuntimeError::EmptyHands),
                                (_, None) => SimOutcome::Failed(HRMRuntimeError::EmptyFloor),
                                (Some(DataCube::Letter(_)), _) => SimOutcome::Failed(
                                    HRMRuntimeError::LetterMath,
                                ),
                                (_, Some(DataCube::Letter(_))) => SimOutcome::Failed(
                                    HRMRuntimeError::LetterMath,
                                ),
                                (Some(DataCube::Number(x)), Some(DataCube::Number(y))) => arith_outcome(
                                    s,
                                    x + y,
                                ),
                            },
                        }
                    }
                },
                Instruction::Sub(a) => {
                    if s.held is None {
                        SimOutcome::Failed(HRMRuntimeError::EmptyHands)
                    } else {
                        match a.spec_follow(s.floor) {
                            Err(e) => SimOutcome::Failed(e),
                            Ok(tile) => match (s.held, tile) {
                                (None, _) => SimOutcome::Failed(HRMRuntimeError::EmptyHands),
                                (_, None) => SimOutcome::Failed(HRMRuntimeError::EmptyFloor),
                                (Some(DataCube::Letter(x)), Some(DataCube::Letter(y))) => arith_outcome(
                                    s,
                                    x - y,
                                ),
                                (Some(DataCube::Letter(_)), _) => SimOutcome::Failed(
                                    HRMRuntimeError::LetterMath,
                                ),
                                (_, Some(DataCube::Letter(_))) => SimOutcome::Failed(
                                    HRMRuntimeError::LetterMath,
                                ),
                                (Some(DataCube::Number(x)), Some(DataCube::Number(y))) => arith_outcome(
                                    s,
                                    x - y,
                                ),
                            },
                        }
                    }
                },
                Instruction::BumpUp(a) => {
                    match a.spec_follow(s.floor) {
                        Err(e) => SimOutcome::Failed(e),
                        Ok(None) => SimOutcome::Failed(HRMRuntimeError::EmptyFloor),
                        Ok(Some(DataCube::Letter(_))) => SimOutcome::Failed(
                            HRMRuntimeError::LetterMath,
                        ),
                        Ok(Some(DataCube::Number(x))) => {
                            if x >= 999 {
                                SimOutcome::Failed(HRMRuntimeError::Overflow)
                            } else {
                                SimOutcome::Running(
                                    SimState {
                                        pc: s.pc + 1,
                                        steps: bump_steps(s.steps),
                                        floor: s.floor.update(
                                            a.spec_raw_address(s.floor)->Ok_0,
                                            Some(DataCube::Number((x + 1) as i16)),
                                        ),
                                        held: Some(DataCube::Number((x + 1) as i16)),
                                        ..s
                                    },
                                )
                            }
                        },
                    }
                },
                Instruction::BumpDn(a) => {
                    match a.spec_follow(s.floor) {
                        Err(e) => SimOutcome::Failed(e),
                        Ok(None) => SimOutcome::Failed(HRMRuntimeError::EmptyFloor),
                        Ok(Some(DataCube::Letter(_))) => SimOutcome::Failed(
                            HRMRuntimeError::LetterMath,
                        ),
                        Ok(Some(DataCube::Number(x))) => {
                            if x <= -999 {
                                SimOutcome::Failed(HRMRuntimeError::Overflow)
                            } else {
                                SimOutcome::Running(
                                    SimState {
                                        pc: s.pc + 1,
                                        steps: bump_steps(s.steps),
                                        floor: s.floor.update(
                                            a.spec_raw_address(s.floor)->Ok_0,
                                            Some(DataCube::Number((x - 1) as i16)),
                                        ),
                                        held: Some(DataCube::Number((x - 1) as i16)),
                                        ..s
                                    },
                                )
                            }
                        },
                    }
                },
                Instruction::_Label(_) => {
                    // a label marks a place and does nothing when executed
                    SimOutcome::Running(
                        SimState { pc: s.pc + 1, steps: bump_steps(s.steps), ..s },
                    )
                },
                Instruction::Jump(l) => {
                    SimOutcome::Running(
                        SimState { pc: self.labels()[l@] as int, steps: bump_steps(s.steps), ..s },
                    )
                },
                Instruction::JumpZ(l) => {
                    match s.held {
                        None => SimOutcome::Failed(HRMRuntimeError::EmptyHands),
                        Some(DataCube::Number(x)) => {
                            if x == 0 {
                                SimOutcome::Running(
                                    SimState {
                                        pc: self.labels()[l@] as int,
                                        steps: bump_steps(s.steps),
                                        ..s
                                    },
                                )
                            } else {
                                SimOutcome::Running(
                                    SimState { pc: s.pc + 1, steps: bump_steps(s.steps), ..s },
                                )
                            }
                        },
                        Some(DataCube::Letter(_)) => SimOutcome::Running(
                            SimState { pc: s.pc + 1, steps: bump_steps(s.steps), ..s },
                        ),
                    }
                },
                Instruction::JumpN(l) => {
                    match s.held {
                        None => SimOutcome::Failed(HRMRuntimeError::EmptyHands),
                        Some(DataCube::Number(x)) => {
                            if x < 0 {
                                SimOutcome::Running(
                                    SimState {
                                        pc: self.labels()[l@] as int,
                                        steps: bump_steps(s.steps),
                                        ..s
                                    },
                                )
                            } else {
                                SimOutcome::Running(
                                    SimState { pc: s.pc + 1, steps: bump_steps(s.steps), ..s },
                                )
                            }
                        },
                        Some(DataCube::Letter(_)) => SimOutcome::Running(
                            SimState { pc: s.pc + 1, steps: bump_steps(s.steps), ..s },
                        ),
                    }
                },
            }
        }
    }

    /// The machine after `n` steps; halted and failed outcomes absorb.
    pub open spec fn spec_run(&self, s: SimState, n: nat) -> SimOutcome
        decreases n,
    {
        if n == 0 {
            SimOutcome::Running(s)
        } else {
            match self.spec_run(s, (n - 1) as nat) {
                SimOutcome::Running(t) => self.spec_step(t),
                done => done,
            }
        }
    }

    /// Some finite run from the start state halts normally with this step
    /// count and this output.
    pub open spec fn sim_halts_with(
        &self,
        inbox: Seq<DataCube>,
        steps: usize,
        outbox: Seq<DataCube>,
    ) -> bool {
        exists|n: nat|
            #[trigger] self.spec_run(self.init_state(inbox), n) matches SimOutcome::Halted(t)
                && t.steps == steps && t.outbox == outbox
    }

    /// Some finite run from the start state stops with this error.
    pub open spec fn sim_fails_with(&self, inbox: Seq<DataCube>, e: HRMRuntimeError) -> bool {
        exists|n: nat|
            self.spec_run(self.init_state(inbox), n) == SimOutcome::Failed(e)
    }

    /// The machine settles on this input: some finite run halts or fails.
    /// A program that loops forever never produces a result, and
    /// `simulate` would not return on it.
    pub open spec fn sim_settles(&self, inbox: Seq<DataCube>) -> bool {
        exists|n: nat| !(#[trigger] self.spec_run(self.init_state(inbox), n) is Running)
    }
}

/// Once halted or failed, longer runs return the same outcome.
pub proof fn lemma_run_absorbs(p: &Program, s: SimState, n: nat, m: nat)
    requires
        n <= m,
        !(p.spec_run(s, n) is Running),
    ensures
        p.spec_run(s, m) == p.spec_run(s, n),
    decreases m,
{
    if m > n {
        lemma_run_absorbs(p, s, n, (m - 1) as nat);
    }
}

/// The machine is deterministic: any two settled outcomes of runs from
/// the same state agree.
pub proof fn lemma_run_deterministic(p: &Program, s: SimState, n1: nat, n2: nat)
    requires
        !(p.spec_run(s, n1) is Running),
        !(p.spec_run(s, n2) is Running),
    ensures
        p.spec_run(s, n1) == p.spec_run(s, n2),
{
    if n1 <= n2 {
        lemma_run_absorbs(p, s, n1, n2);
    } else {
        lemma_run_absorbs(p, s, n2, n1);
    }
}

} // verus!

verus! {

/// One more executed instruction, saturating at `usize::MAX`.
fn sat_inc(s: usize) -> (r: usize)
    ensures
        r as int == bump_steps(s as int),
{
    if s < usize::MAX {
        s + 1
    } else {
        s
    }
}

impl Program {
    /// Runs the program on the given input until it halts or fails,
    /// returning the step count and the output. The result is exactly
    /// what the step machine `spec_run` settles on.
    pub fn simulate(&self, inbox: Vec<DataCube>) -> (r: Result<
        (usize, Vec<DataCube>),
        HRMRuntimeError,
    >)
        requires
            self.wf(),
            self.sim_settles(inbox@),
        ensures
            r matches Ok(out) ==> self.sim_halts_with(inbox@, out.0, out.1@),
            r matches Err(e) ==> self.sim_fails_with(inbox@, e),
    {
        let ghost init = self.init_state(inbox@);
        let ghost fuel: nat = choose|m: nat| !(self.spec_run(init, m) is Running);
        let mut floor: Vec<Option<DataCube>> = Vec::new();
        let mut k: usize = 0;
        while k < self.initial_floor.len()
            invariant
                0 <= k <= self.initial_floor@.len(),
                floor@ == self.initial_floor@.subrange(0, k as int),
            decreases self.initial_floor@.len() - k,
        {
            floor.push(self.initial_floor[k]);
            proof {
                assert(floor@ =~= self.initial_floor@.subrange(0, k as int + 1));
            }
            k = k + 1;
        }
        proof {
            assert(floor@ =~= self.initial_floor@);
        }

        let mut pc: usize = 0;
        let mut steps: usize = 0;
        let mut head: usize = 0;
        let mut held: Option<DataCube> = None;
        let mut outbox: Vec<DataCube> = Vec::new();
        let ghost mut n: nat = 0;
        proof {
            assert(inbox@.subrange(0, inbox@.len() as int) =~= inbox@);
        }

        loop
            invariant
                self.wf(),
                head <= inbox@.len(),
                init == self.init_state(inbox@),
                self.spec_run(init, n) == SimOutcome::Running(
                    SimState {
                        pc: pc as int,
                        steps: steps as int,
                        floor: floor@,
                        held: held,
                        inbox: inbox@.subrange(head as int, inbox@.len() as int),
                        outbox: outbox@,
                    },
                ),
                !(self.spec_run(init, fuel) is Running),
            decreases fuel - n,
        {
            proof {
                if n >= fuel {
                    lemma_run_absorbs(self, init, fuel, n);
                    assert(false);
                }
            }
            let ghost cur = SimState {
                pc: pc as int,
                steps: steps as int,
                floor: floor@,
                held: held,
                inbox: inbox@.subrange(head as int, inbox@.len() as int),
                outbox: outbox@,
            };

            if pc >= self.instructions.len() {
                proof {
                    assert(self.spec_run(self.init_state(inbox@), n + 1) == SimOutcome::Halted(
                        cur,
                    ));
                }
                return Ok((steps, outbox));
            }

            match &self.instructions[pc] {
                Instruction::Inbox => {
                    if head < inbox.len() {
                        held = Some(inbox[head]);
                        head = head + 1;
                        steps = sat_inc(steps);
                        pc = pc + 1;
                        proof {
                            assert(cur.inbox[0] == inbox@[head as int - 1]);
                            assert(cur.inbox.drop_first() =~= inbox@.subrange(
                                head as int,
                                inbox@.len() as int,
                            ));
                            n = n + 1;
                        }
                    } else {
                        proof {
                            assert(cur.inbox.len() == 0);
                            assert(self.spec_run(self.init_state(inbox@), n + 1)
                                == SimOutcome::Halted(cur));
                        }
                        return Ok((steps, outbox));
                    }
                },
                Instruction::Outbox => {
                    match held {
                        Some(c) => {
                            outbox.push(c);
                            held = None;
                            steps = sat_inc(steps);
                            pc = pc + 1;
                            proof {
                                n = n + 1;
                            }
                        },
                        None => {
                            proof {
                                assert(self.spec_run(init, n + 1) == SimOutcome::Failed(
                                    HRMRuntimeError::EmptyHands,
                                ));
                            }
                            return Err(HRMRuntimeError::EmptyHands);
                        },
                    }
                },
                Instruction::CopyFrom(a) => {
                    match a.follow(&floor) {
                        Err(e) => {
                            proof {
                                assert(self.spec_run(init, n + 1) == SimOutcome::Failed(e));
                            }
                            return Err(e);
                        },
                        Ok(None) => {
                            proof {
                                assert(self.spec_run(init, n + 1) == SimOutcome::Failed(
                                    HRMRuntimeError::EmptyFloor,
                                ));
                            }
                            return Err(HRMRuntimeError::EmptyFloor);
                        },
                        Ok(Some(c)) => {
                            held = Some(c);
                            steps = sat_inc(steps);
                            pc = pc + 1;
                            proof {
                                n = n + 1;
                            }
                        },
                    }
                },
                Instruction::CopyTo(a) => {
                    if held.is_none() {
                        proof {
                            assert(self.spec_run(init, n + 1) == SimOutcome::Failed(
                                HRMRuntimeError::EmptyHands,
                            ));
                        }
                        return Err(HRMRuntimeError::EmptyHands);
                    }
                    match a.follow_mut(&floor) {
                        Err(e) => {
                            proof {
                                assert(self.spec_run(init, n + 1) == SimOutcome::Failed(e));
                            }
                            return Err(e);
                        },
                        Ok(i) => {
                            floor[i] = held;
                            steps = sat_inc(steps);
                            pc = pc + 1;
                            proof {
                                n = n + 1;
                            }
                        },
                    }
                },
                Instruction::Add(a) => {
                    if held.is_none() {
                        proof {
                            assert(self.spec_run(init, n + 1) == SimOutcome::Failed(
                                HRMRuntimeError::EmptyHands,
                            ));
                        }
                        return Err(HRMRuntimeError::EmptyHands);
                    }
                    match a.follow(&floor) {
                        Err(e) => {
                            proof {
                                assert(self.spec_run(init, n + 1) == SimOutcome::Failed(e));
                            }
                            return Err(e);
                        },
                        Ok(tile) => match (held, tile) {
                            (None, _) => {
                                proof {
                                    assert(self.spec_run(init, n + 1) == SimOutcome::Failed(
                                        HRMRuntimeError::EmptyHands,
                                    ));
                                }
                                return Err(HRMRuntimeError::EmptyHands);
                            },
                            (_, None) => {
                                proof {
                                    assert(self.spec_run(init, n + 1) == SimOutcome::Failed(
                                        HRMRuntimeError::EmptyFloor,
                                    ));
                                }
                                return Err(HRMRuntimeError::EmptyFloor);
                            },
                            (Some(DataCube::Letter(_)), _) | (_, Some(DataCube::Letter(_))) => {
                                proof {
                                    assert(self.spec_run(init, n + 1) == SimOutcome::Failed(
                                        HRMRuntimeError::LetterMath,
                                    ));
                                }
                                return Err(HRMRuntimeError::LetterMath);
                            },
                            (Some(DataCube::Number(x)), Some(DataCube::Number(y))) => {
                                let sum: i32 = x as i32 + y as i32;
                                if sum < -999 || sum > 999 {
                                    proof {
                                        assert(self.spec_run(init, n + 1) == SimOutcome::Failed(
                                            HRMRuntimeError::Overflow,
                                        ));
                                    }
                                    return Err(HRMRuntimeError::Overflow);
                                }
                                held = Some(DataCube::Number(sum as i16));
                                steps = sat_inc(steps);
                                pc = pc + 1;
                                proof {
                                    n = n + 1;
                                }
                            },
                        },
                    }
                },
                Instruction::Sub(a) => {
                    if held.is_none() {
                        proof {
                            assert(self.spec_run(init, n + 1) == SimOutcome::Failed(
                                HRMRuntimeError::EmptyHands,
                            ));
                        }
                        return Err(HRMRuntimeError::EmptyHands);
                    }
                    match a.follow(&floor) {
                        Err(e) => {
                            proof {
                                assert(self.spec_run(init, n + 1) == SimOutcome::Failed(e));
                            }
                            return Err(e);
                        },
                        Ok(tile) => match (held, tile) {
                            (None, _) => {
                                proof {
                                    assert(self.spec_run(init, n + 1) == SimOutcome::Failed(
                                        HRMRuntimeError::EmptyHands,
                                    ));
                                }
                                return Err(HRMRuntimeError::EmptyHands);
                            },
                            (_, None) => {
                                proof {
                                    assert(self.spec_run(init, n + 1) == SimOutcome::Failed(
                                        HRMRuntimeError::EmptyFloor,
                                    ));
                                }
                                return Err(HRMRuntimeError::EmptyFloor);
                            },
                            (Some(DataCube::Letter(x)), Some(DataCube::Letter(y))) => {
                                let diff: i32 = x as i32 - y as i32;
                                if diff < -999 || diff > 999 {
                                    proof {
                                        assert(self.spec_run(init, n + 1) == SimOutcome::Failed(
                                            HRMRuntimeError::Overflow,
                                        ));
                                    }
                                    return Err(HRMRuntimeError::Overflow);
                                }
                                held = Some(DataCube::Number(diff as i16));
                                steps = sat_inc(steps);
                                pc = pc + 1;
                                proof {
                                    n = n + 1;
                                }
                            },
                            (Some(DataCube::Letter(_)), _) | (_, Some(DataCube::Letter(_))) => {
                                proof {
                                    assert(self.spec_run(init, n + 1) == SimOutcome::Failed(
                                        HRMRuntimeError::LetterMath,
                                    ));
                                }
                                return Err(HRMRuntimeError::LetterMath);
                            },
                            (Some(DataCube::Number(x)), Some(DataCube::Number(y))) => {
                                let diff: i32 = x as i32 - y as i32;
                                if diff < -999 || diff > 999 {
                                    proof {
                                        assert(self.spec_run(init, n + 1) == SimOutcome::Failed(
                                            HRMRuntimeError::Overflow,
                                        ));
                                    }
                                    return Err(HRMRuntimeError::Overflow);
                                }
                                held = Some(DataCube::Number(diff as i16));
                                steps = sat_inc(steps);
                                pc = pc + 1;
                                proof {
                                    n = n + 1;
                                }
                            },
                        },
                    }
                },
                Instruction::BumpUp(a) => {
                    match a.follow_mut(&floor) {
                        Err(e) => {
                            proof {
                                assert(self.spec_run(init, n + 1) == SimOutcome::Failed(e));
                            }
                            return Err(e);
                        },
                        Ok(i) => match floor[i] {
                            None => {
                                proof {
                                    assert(self.spec_run(init, n + 1) == SimOutcome::Failed(
                                        HRMRuntimeError::EmptyFloor,
                                    ));
                                }
                                return Err(HRMRuntimeError::EmptyFloor);
                            },
                            Some(DataCube::Letter(_)) => {
                                proof {
                                    assert(self.spec_run(init, n + 1) == SimOutcome::Failed(
                                        HRMRuntimeError::LetterMath,
                                    ));
                                }
                                return Err(HRMRuntimeError::LetterMath);
                            },
                            Some(DataCube::Number(x)) => {
                                if x >= 999 {
                                    proof {
                                        assert(self.spec_run(init, n + 1) == SimOutcome::Failed(
                                            HRMRuntimeError::Overflow,
                                        ));
                                    }
                                    return Err(HRMRuntimeError::Overflow);
                                }
                                floor[i] = Some(DataCube::Number(x + 1));
                                held = Some(DataCube::Number(x + 1));
                                steps = sat_inc(steps);
                                pc = pc + 1;
                                proof {
                                    n = n + 1;
                                }
                            },
                        },
                    }
                },
                Instruction::BumpDn(a) => {
                    match a.follow_mut(&floor) {
                        Err(e) => {
                            proof {
                                assert(self.spec_run(init, n + 1) == SimOutcome::Failed(e));
                            }
                            return Err(e);
                        },
                        Ok(i) => match floor[i] {
                            None => {
                                proof {
                                    assert(self.spec_run(init, n + 1) == SimOutcome::Failed(
                                        HRMRuntimeError::EmptyFloor,
                                    ));
                                }
                                return Err(HRMRuntimeError::EmptyFloor);
                            },
                            Some(DataCube::Letter(_)) => {
                                proof {
                                    assert(self.spec_run(init, n + 1) == SimOutcome::Failed(
                                        HRMRuntimeError::LetterMath,
                                    ));
                                }
                                return Err(HRMRuntimeError::LetterMath);
                            },
                            Some(DataCube::Number(x)) => {
                                if x <= -999 {
                                    proof {
                                        assert(self.spec_run(init, n + 1) == SimOutcome::Failed(
                                            HRMRuntimeError::Overflow,
                                        ));
                                    }
                                    return Err(HRMRuntimeError::Overflow);
                                }
                                floor[i] = Some(DataCube::Number(x - 1));
                                held = Some(DataCube::Number(x - 1));
                                steps = sat_inc(steps);
                                pc = pc + 1;
                                proof {
                                    n = n + 1;
                                }
                            },
                        },
                    }
                },
                Instruction::_Label(_) => {
                    steps = sat_inc(steps);
                    pc = pc + 1;
                    proof {
                        n = n + 1;
                    }
                },
                Instruction::Jump(l) => {
                    match crate::program::lookup_label(&self.jump_label_lines, l.as_str()) {
                        Some(ix) => {
                            pc = ix;
                            steps = sat_inc(steps);
                            proof {
                                n = n + 1;
                            }
                        },
                        None => {
                            proof {
                                assert(jump_target(self.instructions@[cur.pc]) == Some(l@));
                                assert(false);
                            }
                            return Err(HRMRuntimeError::EmptyHands);
                        },
                    }
                },
                Instruction::JumpZ(l) => {
                    match held {
                        None => {
                            proof {
                                assert(self.spec_run(init, n + 1) == SimOutcome::Failed(
                                    HRMRuntimeError::EmptyHands,
                                ));
                            }
                            return Err(HRMRuntimeError::EmptyHands);
                        },
                        Some(DataCube::Number(x)) => {
                            if x == 0 {
                                match crate::program::lookup_label(
                                    &self.jump_label_lines,
                                    l.as_str(),
                                ) {
                                    Some(ix) => {
                                        pc = ix;
                                        steps = sat_inc(steps);
                                        proof {
                                            n = n + 1;
                                        }
                                    },
                                    None => {
                                        proof {
                                            assert(jump_target(self.instructions@[cur.pc])
                                                == Some(l@));
                                            assert(false);
                                        }
                                        return Err(HRMRuntimeError::EmptyHands);
                                    },
                                }
                            } else {
                                steps = sat_inc(steps);
                                pc = pc + 1;
                                proof {
                                    n = n + 1;
                                }
                            }
                        },
                        Some(DataCube::Letter(_)) => {
                            steps = sat_inc(steps);
                            pc = pc + 1;
                            proof {
                                n = n + 1;
                            }
                        },
                    }
                },
                Instruction::JumpN(l) => {
                    match held {
                        None => {
                            proof {
                                assert(self.spec_run(init, n + 1) == SimOutcome::Failed(
                                    HRMRuntimeError::EmptyHands,
                                ));
                            }
                            return Err(HRMRuntimeError::EmptyHands);
                        },
                        Some(DataCube::Number(x)) => {
                            if x < 0 {
                                match crate::program::lookup_label(
                                    &self.jump_label_lines,
                                    l.as_str(),
                                ) {
                                    Some(ix) => {
                                        pc = ix;
                                        steps = sat_inc(steps);
                                        proof {
                                            n = n + 1;
                                        }
                                    },
                                    None => {
                                        proof {
                                            assert(jump_target(self.instructions@[cur.pc])
                                                == Some(l@));
                                            assert(false);
                                        }
                                        return Err(HRMRuntimeError::EmptyHands);
                                    },
                                }
                            } else {
                                steps = sat_inc(steps);
                                pc = pc + 1;
                                proof {
                                    n = n + 1;
                                }
                            }
                        },
                        Some(DataCube::Letter(_)) => {
                            steps = sat_inc(steps);
                            pc = pc + 1;
                            proof {
                                n = n + 1;
                            }
                        },
                    }
                },
            }
        }
    }
}

} // verus!

verus! {

/// A program's observable result on one input is unique: if runs settle
/// on two step counts and outputs, they are the same ones.
pub proof fn lemma_sim_result_unique(
    p: &Program,
    inbox: Seq<DataCube>,
    s1: usize,
    o1: Seq<DataCube>,
    s2: usize,
    o2: Seq<DataCube>,
)
    requires
        p.sim_halts_with(inbox, s1, o1),
        p.sim_halts_with(inbox, s2, o2),
    ensures
        s1 == s2,
        o1 == o2,
{
    let init = p.init_state(inbox);
    let n1 = choose|n: nat|
        #[trigger] p.spec_run(init, n) matches SimOutcome::Halted(t) && t.steps == s1 && t.outbox
            == o1;
    let n2 = choose|n: nat|
        #[trigger] p.spec_run(init, n) matches SimOutcome::Halted(t) && t.steps == s2 && t.outbox
            == o2;
    lemma_run_deterministic(p, init, n1, n2);
}

} // verus!

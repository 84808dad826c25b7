//! A stepwise machine environment: the same instruction semantics as the
//! engine, exposed one step at a time, so a caller can watch every
//! intermediate register file and bound a run that would never halt on its
//! own.

use vstd::prelude::*;

use crate::semantics::{
    instr_registers, is_running, lemma_instr_regs_referenced, lemma_seq_max_bound, references,
    registers_of, seq_max, spec_memory_len, step, MachineState,
};
use crate::urm::Instruction;

verus! {

/// A program together with its register file and current (1-based) line.
pub struct Environment {
    app: Vec<Instruction>,
    registers: Vec<u64>,
    line: usize,
}

/// A zeroed register file big enough for every register the instructions
/// reference; register 0 is always present.
pub fn initialize_registers(instructions: &Vec<Instruction>) -> (regs: Vec<u64>)
    requires
        spec_memory_len(instructions@) <= usize::MAX as int,
    ensures
        regs@.len() as int == spec_memory_len(instructions@),
        forall|j: int| 0 <= j < regs@.len() ==> regs@[j] == 0,
{
    let ghost p = instructions@;
    let mut max: usize = 0;
    let mut i: usize = 0;
    while i < instructions.len()
        invariant
            i <= instructions.len(),
            p == instructions@,
            max == seq_max(registers_of(p.take(i as int))),
        decreases instructions.len() - i,
    {
        let ghost before = registers_of(p.take(i as int));
        let rs = instructions[i].iter_registers();
        let mut k: usize = 0;
        while k < rs.len()
            invariant
                k <= rs.len(),
                rs@ == instr_registers(p[i as int]),
                0 <= i < p.len(),
                before == registers_of(p.take(i as int)),
                max == seq_max(before + rs@.take(k as int)),
            decreases rs.len() - k,
        {
            if rs[k] > max {
                max = rs[k];
            }
            k = k + 1;
            proof {
                assert((before + rs@.take(k as int)).drop_last() =~= before + rs@.take(k - 1));
                assert((before + rs@.take(k as int)).last() == rs@[k - 1]);
            }
        }
        i = i + 1;
        proof {
            assert(rs@.take(rs.len() as int) =~= rs@);
            assert(p.take(i as int).drop_last() =~= p.take(i - 1));
            assert(p.take(i as int).last() == p[i - 1]);
            assert(registers_of(p.take(i as int)) == before + rs@);
        }
    }
    proof {
        assert(p.take(instructions.len() as int) =~= p);
    }
    let size = max + 1;
    let mut regs: Vec<u64> = Vec::new();
    let mut j: usize = 0;
    while j < size
        invariant
            j <= size,
            regs@.len() == j,
            forall|a: int| 0 <= a < j ==> regs@[a] == 0,
        decreases size - j,
    {
        regs.push(0);
        j = j + 1;
    }
    regs
}

impl Environment {
    /// The loaded program.
    pub closed spec fn prog(self) -> Seq<Instruction> {
        self.app@
    }

    /// The register file, as stored.
    pub closed spec fn register_file(self) -> Seq<u64> {
        self.registers@
    }

    /// The current line.
    pub closed spec fn current_line(self) -> int {
        self.line as int
    }

    /// The register file as one total map: indices beyond the file hold 0.
    pub open spec fn regs_map(self) -> Map<int, u64> {
        Map::total(
            |r: int|
                if 0 <= r < self.register_file().len() {
                    self.register_file()[r]
                } else {
                    0
                },
        )
    }

    /// The machine state this environment is in.
    pub open spec fn state(self) -> MachineState {
        MachineState { pc: self.current_line(), regs: self.regs_map() }
    }

    /// The register file covers the program, and lines can always advance.
    pub closed spec fn wf(self) -> bool {
        &&& forall|r: usize| references(self.prog(), r) ==> (r as int) < self.register_file().len()
        &&& self.register_file().len() >= 1
        &&& self.prog().len() < usize::MAX
    }

    /// Load a program: all registers 0, execution about to run line 1.
    pub fn new(instructions: Vec<Instruction>) -> (env: Environment)
        requires
            spec_memory_len(instructions@) <= usize::MAX as int,
            instructions@.len() < usize::MAX,
        ensures
            env.wf(),
            env.prog() == instructions@,
            env.state().pc == 1,
            env.register_file().len() as int == spec_memory_len(instructions@),
            forall|r: int| env.state().regs[r] == 0,
    {
        let ghost p = instructions@;
        let regs = initialize_registers(&instructions);
        proof {
            lemma_seq_max_bound(registers_of(p));
            assert forall|r: usize| references(p, r) implies (r as int) < regs@.len() by {
                let k = choose|k: int|
                    0 <= k < registers_of(p).len() && registers_of(p)[k] == r;
                assert(registers_of(p)[k] <= seq_max(registers_of(p)));
            }
        }
        Environment { app: instructions, registers: regs, line: 1 }
    }

    /// A copy of the register file.
    pub fn regs(&self) -> (out: Vec<u64>)
        ensures
            out@ == self.register_file(),
    {
        let mut out: Vec<u64> = Vec::new();
        let mut i: usize = 0;
        while i < self.registers.len()
            invariant
                i <= self.registers.len(),
                out@.len() == i,
                forall|j: int| 0 <= j < i ==> out@[j] == self.register_file()[j],
            decreases self.registers.len() - i,
        {
            out.push(self.registers[i]);
            i = i + 1;
        }
        proof {
            assert(out@ =~= self.register_file());
        }
        out
    }

    /// Execute the instruction at the current line, if the machine is still
    /// running: the new line and a copy of the register file after the step.
    /// Once the counter has left the program this returns `None` forever.
    pub fn next(&mut self) -> (r: Option<(usize, Vec<u64>)>)
        requires
            old(self).wf(),
        ensures
            final(self).wf(),
            final(self).prog() == old(self).prog(),
            final(self).register_file().len() == old(self).register_file().len(),
            if is_running(old(self).prog(), old(self).state()) {
                &&& final(self).state() == step(old(self).prog(), old(self).state())
                &&& (match r {
                    Some(t) => {
                        t.0 as int == final(self).state().pc
                            && t.1@ == final(self).register_file()
                    },
                    None => false,
                })
            } else {
                &&& final(self).state() == old(self).state()
                &&& r is None
            },
    {
        if self.line == 0 || self.line > self.app.len() {
            return None;
        }
        let ghost s = old(self).state();
        let ghost p = self.prog();
        proof {
            lemma_instr_regs_referenced(p, self.line - 1);
        }
        let ins = self.app[self.line - 1];
        match ins {
            Instruction::Zero(reg) => {
                proof {
                    assert(instr_registers(p[self.line - 1])[0] == reg);
                    assert(references(p, reg));
                }
                self.registers.set(reg, 0);
                self.line = self.line + 1;
            }
            Instruction::Increase(reg) => {
                proof {
                    assert(instr_registers(p[self.line - 1])[0] == reg);
                    assert(references(p, reg));
                }
                let v = self.registers[reg];
                let bumped = if v == u64::MAX {
                    0
                } else {
                    v + 1
                };
                self.registers.set(reg, bumped);
                self.line = self.line + 1;
            }
            Instruction::Translate { from, to } => {
                proof {
                    assert(instr_registers(p[self.line - 1])[0] == from);
                    assert(instr_registers(p[self.line - 1])[1] == to);
                    assert(references(p, from));
                    assert(references(p, to));
                }
                let v = self.registers[from];
                self.registers.set(to, v);
                self.line = self.line + 1;
            }
            Instruction::Jump { reg1, reg2, goto } => {
                proof {
                    assert(instr_registers(p[self.line - 1])[0] == reg1);
                    assert(instr_registers(p[self.line - 1])[1] == reg2);
                    assert(references(p, reg1));
                    assert(references(p, reg2));
                }
                if self.registers[reg1] == self.registers[reg2] {
                    self.line = goto;
                } else {
                    self.line = self.line + 1;
                }
            }
        }
        proof {
            assert(self.regs_map() =~= step(p, s).regs);
        }
        let file = self.regs();
        Some((self.line, file))
    }
}

} // verus!

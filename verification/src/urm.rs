//! The instruction set, programs, and the execution engine.

use vstd::prelude::*;

use crate::compaction::{
    compress_spec, dense_enough, distinct_firsts, lemma_compacted_references,
    lemma_distinct_bounded, lemma_index_of_unique, lemma_mapped_registers, lemma_new_index,
    lemma_registers_of_referenced, lemma_remap_order, lemma_sim_init, lemma_sim_outcome,
    map_instruction, mapped_init_state, mapped_program, new_index, nonzero, remap_order,
    renamed_in_order,
};
use crate::memory::Memory;
use crate::semantics::{
    addition_program, agrees, computes_from, halts_from, init_state, instr_registers, is_running,
    lemma_addition_program,
    lemma_agreement_outcome, lemma_execution_deterministic, lemma_halted_absorbing,
    lemma_instr_regs_referenced, lemma_step_sequence_agreement,
    lemma_seq_max_bound, lemma_seq_max_le, references, registers_of, seq_max, spec_memory_len,
    step, steps, MachineState,
};

verus! {

/// One primitive operation of the machine. `Zero` clears a register,
/// `Increase` adds one, `Translate` copies one register into another, and
/// `Jump` moves control to the (1-based) line `goto` when two registers hold
/// equal values. A `goto` outside the program is a deliberate halt target.
#[derive(Clone, Copy, Debug, PartialEq, Eq, Structural)]
pub enum Instruction {
    Zero(usize),
    Increase(usize),
    Translate { from: usize, to: usize },
    Jump { reg1: usize, reg2: usize, goto: usize },
}

impl Instruction {
    /// The registers this instruction touches, in field order.
    pub fn iter_registers(&self) -> (regs: Vec<usize>)
        ensures
            regs@ == instr_registers(*self),
    {
        let mut regs: Vec<usize> = Vec::new();
        match *self {
            Instruction::Zero(r) => {
                regs.push(r);
                assert(regs@ =~= instr_registers(*self));
            }
            Instruction::Increase(r) => {
                regs.push(r);
                assert(regs@ =~= instr_registers(*self));
            }
            Instruction::Translate { from, to } => {
                regs.push(from);
                regs.push(to);
                assert(regs@ =~= instr_registers(*self));
            }
            Instruction::Jump { reg1, reg2, .. } => {
                regs.push(reg1);
                regs.push(reg2);
                assert(regs@ =~= instr_registers(*self));
            }
        }
        regs
    }
}

/// Whether `v` holds `x`.
fn vec_contains(v: &Vec<usize>, x: usize) -> (b: bool)
    ensures
        b == v@.contains(x),
{
    let mut k: usize = 0;
    while k < v.len()
        invariant
            k <= v.len(),
            forall|a: int| 0 <= a < k ==> v@[a] != x,
        decreases v.len() - k,
    {
        if v[k] == x {
            return true;
        }
        k = k + 1;
    }
    proof {
        if v@.contains(x) {
            let a = choose|a: int| 0 <= a < v@.len() && v@[a] == x;
            assert(false);
        }
    }
    false
}

/// Where register `r` goes: 0 stays 0, any other register of `order` moves
/// to one more than its place there.
fn remap_lookup(order: &Vec<usize>, r: usize) -> (nr: usize)
    requires
        order@.no_duplicates(),
        r == 0 || order@.contains(r),
    ensures
        r == 0 ==> nr == 0,
        r != 0 ==> nr as int == order@.index_of(r) + 1,
{
    if r == 0 {
        return 0;
    }
    let mut k: usize = 0;
    loop
        invariant
            r != 0,
            order@.no_duplicates(),
            order@.contains(r),
            k <= order@.len(),
            forall|a: int| 0 <= a < k ==> order@[a] != r,
        decreases order@.len() - k,
    {
        if k >= order.len() {
            proof {
                let a = choose|a: int| 0 <= a < order@.len() && order@[a] == r;
                assert(false);
            }
            return 0;
        }
        if order[k] == r {
            proof {
                lemma_index_of_unique(order@, k as int);
            }
            return k + 1;
        }
        k = k + 1;
    }
}


/// The distinct values of `refs`, each at its first occurrence, in order.
fn distinct_list(refs: &Vec<usize>) -> (firsts: Vec<usize>)
    ensures
        firsts@ == distinct_firsts(refs@),
{
    let mut firsts: Vec<usize> = Vec::new();
    let mut i: usize = 0;
    while i < refs.len()
        invariant
            i <= refs.len(),
            firsts@ == distinct_firsts(refs@.take(i as int)),
        decreases refs.len() - i,
    {
        let x = refs[i];
        if !vec_contains(&firsts, x) {
            firsts.push(x);
        }
        i = i + 1;
        proof {
            assert(refs@.take(i as int).drop_last() =~= refs@.take(i - 1));
            assert(refs@.take(i as int).last() == refs@[i - 1]);
        }
    }
    proof {
        assert(refs@.take(refs.len() as int) =~= refs@);
    }
    firsts
}

/// The distinct non-zero values of `refs`, in first-occurrence order: the
/// renumbering assigns 1, 2, 3, … along this list.
fn order_list(refs: &Vec<usize>) -> (order: Vec<usize>)
    ensures
        order@ == distinct_firsts(nonzero(refs@)),
{
    let mut order: Vec<usize> = Vec::new();
    let mut i: usize = 0;
    while i < refs.len()
        invariant
            i <= refs.len(),
            order@ == distinct_firsts(nonzero(refs@.take(i as int))),
        decreases refs.len() - i,
    {
        let x = refs[i];
        if x != 0 {
            if !vec_contains(&order, x) {
                order.push(x);
            }
        }
        i = i + 1;
        proof {
            assert(refs@.take(i as int).drop_last() =~= refs@.take(i - 1));
            assert(refs@.take(i as int).last() == refs@[i - 1]);
            let prev = nonzero(refs@.take(i - 1));
            if refs@[i - 1] != 0 {
                assert(nonzero(refs@.take(i as int)) == prev.push(refs@[i - 1]));
                assert(prev.push(refs@[i - 1]).drop_last() =~= prev);
                assert(prev.push(refs@[i - 1]).last() == refs@[i - 1]);
            } else {
                assert(nonzero(refs@.take(i as int)) == prev);
            }
        }
    }
    proof {
        assert(refs@.take(refs.len() as int) =~= refs@);
    }
    order
}

/// An ordered sequence of instructions; line numbers are 1-based.
pub struct Program(Vec<Instruction>);

impl View for Program {
    type V = Seq<Instruction>;

    closed spec fn view(&self) -> Seq<Instruction> {
        self.0@
    }
}

impl Program {
    pub fn new(instructions: Vec<Instruction>) -> (p: Program)
        ensures
            p@ == instructions@,
    {
        Program(instructions)
    }

    pub fn len(&self) -> (n: usize)
        ensures
            n == self@.len(),
    {
        self.0.len()
    }

    /// Every register index the program references, in instruction order;
    /// an instruction contributes one or two indices.
    pub fn iter_registers(&self) -> (regs: Vec<usize>)
        ensures
            regs@ == registers_of(self@),
    {
        let mut regs: Vec<usize> = Vec::new();
        let mut i: usize = 0;
        while i < self.0.len()
            invariant
                i <= self.0.len(),
                regs@ == registers_of(self@.take(i as int)),
            decreases self.0.len() - i,
        {
            let mut more = self.0[i].iter_registers();
            regs.append(&mut more);
            i = i + 1;
            proof {
                assert(self@.take(i as int).drop_last() =~= self@.take(i - 1));
                assert(self@.take(i as int).last() == self@[i - 1]);
            }
        }
        proof {
            assert(self@.take(self.0.len() as int) =~= self@);
        }
        regs
    }

    /// Number of memory cells the program needs: one more than the largest
    /// referenced register, or 1 when no register is referenced.
    pub fn memory_len(&self) -> (n: usize)
        requires
            spec_memory_len(self@) <= usize::MAX as int,
        ensures
            n as int == spec_memory_len(self@),
    {
        let regs = self.iter_registers();
        let mut max: usize = 0;
        let mut i: usize = 0;
        while i < regs.len()
            invariant
                i <= regs.len(),
                regs@ == registers_of(self@),
                max == seq_max(regs@.take(i as int)),
            decreases regs.len() - i,
        {
            if regs[i] > max {
                max = regs[i];
            }
            i = i + 1;
            proof {
                assert(regs@.take(i as int).drop_last() =~= regs@.take(i - 1));
                assert(regs@.take(i as int).last() == regs@[i - 1]);
            }
        }
        proof {
            assert(regs@.take(regs.len() as int) =~= regs@);
        }
        max + 1
    }

    /// Register compaction: renumber the distinct non-zero registers to
    /// 1, 2, 3, … in first-occurrence order, leaving every `goto` alone, and
    /// skip the pass when the occupancy ratio is above 0.70. Returns the
    /// program and the memory size it needs.
    pub fn compress(self) -> (r: (Program, usize))
        requires
            spec_memory_len(self@) <= usize::MAX as int,
        ensures
            (r.0)@ == compress_spec(self@),
            r.1 as int == spec_memory_len(compress_spec(self@)),
    {
        let ghost p = self@;
        let memory_len = self.memory_len();
        let refs = self.iter_registers();
        let firsts = distinct_list(&refs);
        if 10 * (firsts.len() as u128) > 7 * (memory_len as u128) {
            proof {
                assert(dense_enough(p));
            }
            return (self, memory_len);
        }
        proof {
            assert(!dense_enough(p));
        }
        let order = order_list(&refs);
        proof {
            assert(order@ == remap_order(p));
            lemma_remap_order(p);
            lemma_new_index(p);
        }
        let mut out: Vec<Instruction> = Vec::new();
        let mut j: usize = 0;
        while j < self.0.len()
            invariant
                j <= self.0.len(),
                self@ == p,
                order@ == remap_order(p),
                order@.no_duplicates(),
                forall|r: usize| #[trigger] order@.contains(r) <==> references(p, r) && r != 0,
                forall|r: usize| renamed_in_order(p, r),
                out@.len() == j,
                forall|i2: int| 0 <= i2 < j ==> out@[i2] == map_instruction(p, p[i2]),
            decreases self.0.len() - j,
        {
            let ins = self.0[j];
            proof {
                lemma_instr_regs_referenced(p, j as int);
            }
            let mapped: Instruction;
            match ins {
                Instruction::Zero(reg) => {
                    proof {
                        assert(instr_registers(p[j as int])[0] == reg);
                        assert(references(p, reg));
                    }
                    let nr = remap_lookup(&order, reg);
                    proof {
                        assert(nr == new_index(p, reg));
                    }
                    mapped = Instruction::Zero(nr);
                }
                Instruction::Increase(reg) => {
                    proof {
                        assert(instr_registers(p[j as int])[0] == reg);
                        assert(references(p, reg));
                    }
                    let nr = remap_lookup(&order, reg);
                    proof {
                        assert(nr == new_index(p, reg));
                    }
                    mapped = Instruction::Increase(nr);
                }
                Instruction::Translate { from, to } => {
                    proof {
                        assert(instr_registers(p[j as int])[0] == from);
                        assert(instr_registers(p[j as int])[1] == to);
                        assert(references(p, from));
                        assert(references(p, to));
                    }
                    let nfrom = remap_lookup(&order, from);
                    let nto = remap_lookup(&order, to);
                    proof {
                        assert(nfrom == new_index(p, from));
                        assert(nto == new_index(p, to));
                    }
                    mapped = Instruction::Translate { from: nfrom, to: nto };
                }
                Instruction::Jump { reg1, reg2, goto } => {
                    proof {
                        assert(instr_registers(p[j as int])[0] == reg1);
                        assert(instr_registers(p[j as int])[1] == reg2);
                        assert(references(p, reg1));
                        assert(references(p, reg2));
                    }
                    let n1 = remap_lookup(&order, reg1);
                    let n2 = remap_lookup(&order, reg2);
                    proof {
                        assert(n1 == new_index(p, reg1));
                        assert(n2 == new_index(p, reg2));
                    }
                    mapped = Instruction::Jump { reg1: n1, reg2: n2, goto };
                }
            }
            proof {
                assert(mapped == map_instruction(p, p[j as int]));
            }
            out.push(mapped);
            j = j + 1;
        }
        let compressed = Program(out);
        proof {
            assert(compressed@ =~= compress_spec(p));
            let q = compress_spec(p);
            assert(q =~= mapped_program(p, p.len()));
            lemma_mapped_registers(p, p.len());
            assert(p.take(p.len() as int) =~= p);
            lemma_registers_of_referenced(p);
            lemma_seq_max_bound(registers_of(p));
            let bound = (memory_len - 1) as usize;
            assert forall|i2: int|
                0 <= i2 < order@.len() implies 1 <= #[trigger] order@[i2] <= bound by {
                assert(order@.contains(order@[i2]));
                assert(references(p, order@[i2]) && order@[i2] != 0);
                let k = choose|k: int|
                    0 <= k < registers_of(p).len() && registers_of(p)[k] == order@[i2];
                assert(registers_of(p)[k] <= seq_max(registers_of(p)));
            }
            lemma_distinct_bounded(order@, bound);
            assert(registers_of(q) == registers_of(mapped_program(p, p.len())));
            assert(registers_of(p.take(p.len() as int)) == registers_of(p));
            assert forall|i2: int|
                0 <= i2 < registers_of(q).len() implies #[trigger] registers_of(q)[i2]
                <= bound by {
                assert(registers_of(q)[i2] == new_index(p, registers_of(p)[i2]));
                let y = registers_of(p)[i2];
                assert(references(p, y));
                if y == 0 {
                } else {
                    assert(renamed_in_order(p, y));
                    assert(new_index(p, y) <= remap_order(p).len());
                }
            }
            lemma_seq_max_le(registers_of(q), bound);
            assert(spec_memory_len(q) <= memory_len as int);
        }
        let new_len = compressed.memory_len();
        (compressed, new_len)
    }

    /// The memory has a cell for register 0, where the result is read, and
    /// for every register the program references: no access ever misses.
    pub open spec fn covered_by(self, m: Memory) -> bool {
        &&& m.registered(0)
        &&& forall|r: usize| references(self@, r) ==> m.registered(r as int)
    }

    /// Execute the instruction at line `pc` — the fetch-decode-execute core —
    /// and return the next line. A returned line outside `1..=len` is the
    /// halt. `Increase` wraps on overflow of the 64-bit cell.
    pub fn step(&self, memory: &mut Memory, pc: usize) -> (next: usize)
        requires
            old(memory).wf(),
            self.covered_by(*old(memory)),
            1 <= pc <= self@.len(),
            self@.len() < usize::MAX,
        ensures
            final(memory).wf(),
            forall|q: int| final(memory).registered(q) == old(memory).registered(q),
            next as int == step(
                self@,
                MachineState { pc: pc as int, regs: old(memory).reads() },
            ).pc,
            final(memory).reads() == step(
                self@,
                MachineState { pc: pc as int, regs: old(memory).reads() },
            ).regs,
    {
        let ghost s = MachineState { pc: pc as int, regs: old(memory).reads() };
        proof {
            lemma_instr_regs_referenced(self@, pc - 1);
        }
        let instruction = self.0[pc - 1];
        let next: usize;
        match instruction {
            Instruction::Zero(r) => {
                proof {
                    assert(instr_registers(self@[pc - 1])[0] == r);
                    assert(references(self@, r));
                }
                memory.set(r, 0);
                next = pc + 1;
            }
            Instruction::Increase(r) => {
                proof {
                    assert(instr_registers(self@[pc - 1])[0] == r);
                    assert(references(self@, r));
                }
                let v = memory.get(r);
                let bumped = if v == u64::MAX {
                    0
                } else {
                    v + 1
                };
                memory.set(r, bumped);
                next = pc + 1;
            }
            Instruction::Translate { from, to } => {
                proof {
                    assert(instr_registers(self@[pc - 1])[0] == from);
                    assert(instr_registers(self@[pc - 1])[1] == to);
                    assert(references(self@, from));
                    assert(references(self@, to));
                }
                let v = memory.get(from);
                memory.set(to, v);
                next = pc + 1;
            }
            Instruction::Jump { reg1, reg2, goto } => {
                proof {
                    assert(instr_registers(self@[pc - 1])[0] == reg1);
                    assert(instr_registers(self@[pc - 1])[1] == reg2);
                    assert(references(self@, reg1));
                    assert(references(self@, reg2));
                }
                let a = memory.get(reg1);
                let b = memory.get(reg2);
                next = if a == b {
                    goto
                } else {
                    pc + 1
                };
            }
        }
        proof {
            assert(memory.reads() =~= step(self@, s).regs);
        }
        next
    }

    /// Run from line 1 until the program counter leaves the program, and
    /// return what register 0 then holds. Execution must halt from the given
    /// memory contents: the machine itself imposes no step limit, so a
    /// non-halting program is outside this entry point's domain (a caller
    /// that needs a bound must drive single steps itself).
    pub fn execute(&self, memory: &mut Memory) -> (result: u64)
        requires
            old(memory).wf(),
            self.covered_by(*old(memory)),
            self@.len() < usize::MAX,
            halts_from(self@, MachineState { pc: 1, regs: old(memory).reads() }),
        ensures
            final(memory).wf(),
            forall|q: int| final(memory).registered(q) == old(memory).registered(q),
            computes_from(self@, MachineState { pc: 1, regs: old(memory).reads() }, result),
    {
        let ghost s0 = MachineState { pc: 1, regs: old(memory).reads() };
        let ghost total = choose|n: nat| !is_running(self@, steps(self@, s0, n));
        let ghost mut k: nat = 0;
        let mut pc: usize = 1;
        while 1 <= pc && pc <= self.0.len()
            invariant
                memory.wf(),
                forall|q: int| memory.registered(q) == old(memory).registered(q),
                self.covered_by(*memory),
                self@.len() < usize::MAX,
                !is_running(self@, steps(self@, s0, total)),
                steps(self@, s0, k).pc == pc as int,
                steps(self@, s0, k).regs == memory.reads(),
            decreases total - k,
        {
            proof {
                if k >= total {
                    lemma_halted_absorbing(self@, s0, total, k);
                    assert(false);
                }
                assert(MachineState { pc: pc as int, regs: memory.reads() } == steps(
                    self@,
                    s0,
                    k,
                ));
            }
            pc = self.step(memory, pc);
            proof {
                k = k + 1nat;
            }
        }
        let result = memory.get(0);
        proof {
            assert(!is_running(self@, steps(self@, s0, k)));
            assert(steps(self@, s0, k).regs[0] == result);
            assert(computes_from(self@, s0, result));
        }
        result
    }
}

/// The execution engine: a compacted program, a memory sized for it, and
/// the register order the compaction produced, so that arguments can be
/// seeded into the registers they name in the source program.
pub struct Application {
    memory: Memory,
    program: Program,
    order: Vec<usize>,
    remapped: bool,
    source: Ghost<Seq<Instruction>>,
}

impl Application {
    /// The program as it was loaded, before compaction. `run`'s contract
    /// speaks of this program's semantics.
    pub closed spec fn source_program(self) -> Seq<Instruction> {
        self.source@
    }

    /// The compacted program the engine actually executes.
    pub closed spec fn prog(self) -> Seq<Instruction> {
        self.program@
    }

    /// The memory covers the compacted program, which is the compaction of
    /// the source program; the order records where each register went.
    pub closed spec fn wf(self) -> bool {
        &&& self.memory.wf()
        &&& self.program.covered_by(self.memory)
        &&& self.prog().len() < usize::MAX
        &&& spec_memory_len(self.prog()) <= usize::MAX as int
        &&& self.prog() == compress_spec(self.source@)
        &&& self.remapped == !dense_enough(self.source@)
        &&& self.order@ == remap_order(self.source@)
    }

    /// Load a program: compact it, then allocate a dense memory of exactly
    /// the cells the compacted program addresses, all 0.
    pub fn new(program: Program) -> (app: Application)
        requires
            spec_memory_len(program@) <= usize::MAX as int,
            program@.len() < usize::MAX,
        ensures
            app.wf(),
            app.source_program() == program@,
            app.prog() == compress_spec(program@),
    {
        let ghost p0 = program@;
        let original_len = program.memory_len();
        let refs = program.iter_registers();
        let firsts = distinct_list(&refs);
        let remapped = !(10 * (firsts.len() as u128) > 7 * (original_len as u128));
        let order = order_list(&refs);
        let (program, memory_len) = program.compress();
        let memory = Memory::from_size(memory_len);
        proof {
            let q = program@;
            lemma_seq_max_bound(registers_of(q));
            assert forall|r: usize| references(q, r) implies memory.registered(r as int) by {
                let k = choose|k: int|
                    0 <= k < registers_of(q).len() && registers_of(q)[k] == r;
                assert(registers_of(q)[k] <= seq_max(registers_of(q)));
            }
        }
        Application { memory, program, order, remapped, source: Ghost(p0) }
    }

    /// Reset every register to 0, seed the arguments, run to the halt, and
    /// return register 0. Argument `i` names register `i` of the *source*
    /// program: where compaction renamed that register, the seed follows it,
    /// so the result is the source program's own — compaction stays
    /// invisible. The source program must halt on these arguments: the
    /// machine imposes no step limit, so a non-halting program is outside
    /// this entry point's domain (drive single steps to bound such a run
    /// externally). A fresh call never sees state from an earlier one.
    pub fn run(&mut self, arguments: &Vec<u64>) -> (result: u64)
        requires
            old(self).wf(),
            halts_from(old(self).source_program(), init_state(arguments@)),
        ensures
            final(self).wf(),
            final(self).source_program() == old(self).source_program(),
            final(self).prog() == old(self).prog(),
            computes_from(old(self).source_program(), init_state(arguments@), result),
    {
        let ghost src = self.source@;
        let ghost q = self.program@;
        let ghost ideal = init_state(arguments@);
        self.memory.reset();
        if self.remapped {
            let mut idx: usize = 0;
            while idx < self.order.len()
                invariant
                    self.program == old(self).program,
                    self.order == old(self).order,
                    self.remapped == old(self).remapped,
                    self.source == old(self).source,
                    old(self).wf(),
                    self.memory.wf(),
                    forall|c: int| self.memory.registered(c) == old(self).memory.registered(c),
                    idx <= self.order.len(),
                    forall|c: int|
                        self.memory.read(c) == if 1 <= c <= idx && self.memory.registered(c) && 1
                            <= self.order@[c - 1] <= arguments@.len() {
                            arguments@[self.order@[c - 1] - 1]
                        } else {
                            0
                        },
                decreases self.order.len() - idx,
            {
                let source_register = self.order[idx];
                let cell = idx + 1;
                if 1 <= source_register && source_register <= arguments.len() {
                    if self.memory.is_registered(cell) {
                        self.memory.set(cell, arguments[source_register - 1]);
                    }
                }
                idx = idx + 1;
            }
            proof {
                let actual = MachineState { pc: 1, regs: self.memory.reads() };
                let mapped = mapped_init_state(src, arguments@);
                lemma_remap_order(src);
                lemma_new_index(src);
                assert(q == mapped_program(src, src.len()));
                lemma_compacted_references(src);
                let m = remap_order(src).len();
                assert forall|r: usize| references(q, r) implies actual.regs[r as int]
                    == mapped.regs[r as int] by {
                    assert(self.memory.registered(r as int));
                    assert(actual.regs[r as int] == self.memory.read(r as int));
                    if r != 0 {
                        assert(1 <= r <= m);
                        assert(mapped.regs[r as int] == (
                        if 1 <= r as int <= m && 1 <= remap_order(src)[r - 1]
                            <= arguments@.len() {
                            arguments@[remap_order(src)[r - 1] - 1]
                        } else {
                            0
                        }));
                    }
                }
                assert(actual.regs[0] == self.memory.read(0));
                assert(agrees(q, actual.regs, mapped.regs));
                lemma_agreement_outcome(q, actual, mapped);
                lemma_sim_init(src, arguments@);
                lemma_sim_outcome(src, ideal, mapped);
                assert(halts_from(q, actual));
                assert(forall|r: u64|
                    computes_from(q, actual, r) == computes_from(src, ideal, r));
            }
        } else {
            let mut idx: usize = 0;
            while idx < arguments.len()
                invariant
                    self.program == old(self).program,
                    self.order == old(self).order,
                    self.remapped == old(self).remapped,
                    self.source == old(self).source,
                    old(self).wf(),
                    self.memory.wf(),
                    forall|c: int| self.memory.registered(c) == old(self).memory.registered(c),
                    idx <= arguments.len(),
                    forall|c: int|
                        self.memory.read(c) == if 1 <= c <= idx && self.memory.registered(c) {
                            arguments@[c - 1]
                        } else {
                            0
                        },
                decreases arguments.len() - idx,
            {
                let reg = idx + 1;
                if self.memory.is_registered(reg) {
                    self.memory.set(reg, arguments[idx]);
                }
                idx = idx + 1;
            }
            proof {
                let actual = MachineState { pc: 1, regs: self.memory.reads() };
                assert(q == src);
                assert forall|r: usize| references(q, r) implies actual.regs[r as int]
                    == ideal.regs[r as int] by {
                    assert(self.memory.registered(r as int));
                    assert(actual.regs[r as int] == self.memory.read(r as int));
                }
                assert(actual.regs[0] == self.memory.read(0));
                assert(agrees(q, actual.regs, ideal.regs));
                lemma_agreement_outcome(q, actual, ideal);
                assert(halts_from(q, actual));
                assert(forall|r: u64|
                    computes_from(q, actual, r) == computes_from(src, ideal, r));
            }
        }
        proof {
            let actual = MachineState { pc: 1, regs: self.memory.reads() };
            assert(halts_from(q, actual));
            assert(forall|r: u64| computes_from(q, actual, r) == computes_from(src, ideal, r));
        }
        let result = self.program.execute(&mut self.memory);
        result
    }
}

/// What a freshly loaded engine computes for a program: since seeding
/// follows the compaction renaming, it is the program's own semantics on the
/// plainly seeded start state.
pub open spec fn engine_computes(p: Seq<Instruction>, args: Seq<u64>, r: u64) -> bool {
    computes_from(p, init_state(args), r)
}

/// Whether a freshly loaded engine halts at all on these arguments.
pub open spec fn engine_halts(p: Seq<Instruction>, args: Seq<u64>) -> bool {
    halts_from(p, init_state(args))
}

/// Determinism: two engines freshly loaded with the same program return the
/// same result for the same arguments.
pub proof fn lemma_engine_deterministic(p: Seq<Instruction>, args: Seq<u64>, r1: u64, r2: u64)
    requires
        engine_computes(p, args, r1),
        engine_computes(p, args, r2),
    ensures
        r1 == r2,
{
    lemma_execution_deterministic(p, init_state(args), r1, r2);
}

/// The renumbering leaves the seeded window alone: no seeded source register
/// moves, and no register moves into the seeded range from outside it. When
/// the occupancy gate skips the remap this holds of every argument list.
pub open spec fn seeding_commutes(p: Seq<Instruction>, args: Seq<u64>) -> bool {
    dense_enough(p) || forall|x: int|
        (1 <= x <= remap_order(p).len() && (x <= args.len() || #[trigger] remap_order(p)[x - 1]
            <= args.len())) ==> remap_order(p)[x - 1] == x
}

/// Compaction transparency: where the renumbering leaves the seeded window
/// alone, an engine loaded with `p` and one loaded with the compacted `p`
/// halt alike and return the same results. (Without that condition the two
/// differ: positional arguments attach to register names, and compaction
/// renames them — seeding register 2 of `Translate{from: 2, to: 0}` means
/// register 1 of its compacted form.)
pub proof fn lemma_compaction_transparent(p: Seq<Instruction>, args: Seq<u64>)
    requires
        seeding_commutes(p, args),
    ensures
        engine_halts(p, args) == engine_halts(compress_spec(p), args),
        forall|r: u64| engine_computes(p, args, r) == engine_computes(compress_spec(p), args, r),
{
    if !dense_enough(p) {
        let q = compress_spec(p);
        let ideal = init_state(args);
        let mapped = mapped_init_state(p, args);
        let m = remap_order(p).len();
        lemma_remap_order(p);
        lemma_new_index(p);
        assert(q == mapped_program(p, p.len()));
        lemma_compacted_references(p);
        lemma_sim_init(p, args);
        lemma_sim_outcome(p, ideal, mapped);
        assert forall|x: usize| references(q, x) implies mapped.regs[x as int]
            == ideal.regs[x as int] by {
            if x != 0 {
                assert(1 <= x <= m);
                let y = remap_order(p)[x - 1];
                if y as int <= args.len() || x as int <= args.len() {
                    assert(y == x);
                } else {
                    assert(mapped.regs[x as int] == 0);
                    assert(ideal.regs[x as int] == 0);
                }
            }
        }
        assert(mapped.regs[0] == ideal.regs[0]);
        assert(agrees(q, mapped.regs, ideal.regs));
        lemma_agreement_outcome(q, mapped, ideal);
    }
}


/// The addition idiom through the engine: whatever a run of the canonical
/// addition program returns for arguments `a, b` is `a + b` (for sums that
/// fit the 64-bit cell), and such a run is always in the engine's domain.
pub proof fn lemma_engine_addition(a: u64, b: u64, r: u64)
    requires
        a + b <= u64::MAX,
        engine_computes(addition_program(), seq![a, b], r),
    ensures
        r == (a + b) as u64,
        engine_halts(addition_program(), seq![a, b]),
{
    lemma_addition_program(a, b);
    lemma_execution_deterministic(addition_program(), init_state(seq![a, b]), r, (a + b) as u64);
}

/// The state a memory-driven run starts from: line 1, the memory's contents.
pub open spec fn loaded_state(m: Memory) -> MachineState {
    MachineState { pc: 1, regs: m.reads() }
}

/// Layout equivalence: two memories that agree on register 0 and on every
/// register the program references — as a dense and a sparse layout loaded
/// with the same contents do — show the same program counter and the same
/// observable register values at every step, and compute the same results.
pub proof fn lemma_layout_equivalence(p: Seq<Instruction>, m1: Memory, m2: Memory)
    requires
        m1.read(0) == m2.read(0),
        forall|r: usize| references(p, r) ==> m1.read(r as int) == m2.read(r as int),
    ensures
        forall|n: nat| #[trigger] steps(p, loaded_state(m1), n).pc == steps(
            p,
            loaded_state(m2),
            n,
        ).pc,
        forall|n: nat, r: usize|
            references(p, r) ==> #[trigger] steps(p, loaded_state(m1), n).regs[r as int]
                == steps(p, loaded_state(m2), n).regs[r as int],
        forall|n: nat| #[trigger] steps(p, loaded_state(m1), n).regs[0] == steps(
            p,
            loaded_state(m2),
            n,
        ).regs[0],
        forall|r: u64| computes_from(p, loaded_state(m1), r) == computes_from(
            p,
            loaded_state(m2),
            r,
        ),
{
    let s1 = loaded_state(m1);
    let s2 = loaded_state(m2);
    assert(agrees(p, s1.regs, s2.regs));
    assert forall|n: nat| #[trigger] steps(p, s1, n).pc == steps(p, s2, n).pc by {
        lemma_step_sequence_agreement(p, s1, s2, n);
    }
    assert forall|n: nat, r: usize|
        references(p, r) implies #[trigger] steps(p, s1, n).regs[r as int] == steps(
        p,
        s2,
        n,
    ).regs[r as int] by {
        lemma_step_sequence_agreement(p, s1, s2, n);
    }
    assert forall|n: nat| #[trigger] steps(p, s1, n).regs[0] == steps(p, s2, n).regs[0] by {
        lemma_step_sequence_agreement(p, s1, s2, n);
    }
    lemma_agreement_outcome(p, s1, s2);
}

} // verus!

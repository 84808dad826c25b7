//! The mathematical model of the machine: which registers a program
//! references, and the small-step execution relation that every exec-mode
//! runner in this crate is proved against.

use vstd::prelude::*;

use crate::urm::Instruction;

verus! {

/// The registers an instruction touches, in field order. A jump's target is
/// a line number, never a register.
pub open spec fn instr_registers(i: Instruction) -> Seq<usize> {
    match i {
        Instruction::Zero(r) => seq![r],
        Instruction::Increase(r) => seq![r],
        Instruction::Translate { from, to } => seq![from, to],
        Instruction::Jump { reg1, reg2, .. } => seq![reg1, reg2],
    }
}

/// Every register index a program references, in instruction order.
pub open spec fn registers_of(p: Seq<Instruction>) -> Seq<usize>
    decreases p.len(),
{
    if p.len() == 0 {
        Seq::empty()
    } else {
        registers_of(p.drop_last()) + instr_registers(p.last())
    }
}

/// Whether some instruction of `p` reads or writes register `r`.
pub open spec fn references(p: Seq<Instruction>, r: usize) -> bool {
    registers_of(p).contains(r)
}

/// Largest value in a sequence of register indices; 0 when empty.
pub open spec fn seq_max(s: Seq<usize>) -> usize
    decreases s.len(),
{
    if s.len() == 0 {
        0
    } else if s.last() >= seq_max(s.drop_last()) {
        s.last()
    } else {
        seq_max(s.drop_last())
    }
}

/// One more than the largest referenced register. Register 0 is always
/// addressable, so a program that references nothing still needs one cell.
pub open spec fn spec_memory_len(p: Seq<Instruction>) -> int {
    seq_max(registers_of(p)) + 1
}

/// A snapshot of the machine: the 1-based program counter and the value of
/// every register. The register map is total: registers the program never
/// seeds or writes hold 0.
pub ghost struct MachineState {
    pub pc: int,
    pub regs: Map<int, u64>,
}

/// The machine is running while the program counter points at a line of the
/// program; any other counter value is the halted state.
pub open spec fn is_running(p: Seq<Instruction>, s: MachineState) -> bool {
    1 <= s.pc <= p.len()
}

/// `Increase` wraps on overflow of the fixed-width cell: the one explicit
/// overflow policy of this crate.
pub open spec fn wrap_inc(v: u64) -> u64 {
    if v == u64::MAX {
        0
    } else {
        (v + 1) as u64
    }
}

/// Fetch-decode-execute for one instruction; the identity on a halted state.
pub open spec fn step(p: Seq<Instruction>, s: MachineState) -> MachineState {
    if !is_running(p, s) {
        s
    } else {
        match p[s.pc - 1] {
            Instruction::Zero(r) => MachineState { pc: s.pc + 1, regs: s.regs.insert(r as int, 0) },
            Instruction::Increase(r) => MachineState {
                pc: s.pc + 1,
                regs: s.regs.insert(r as int, wrap_inc(s.regs[r as int])),
            },
            Instruction::Translate { from, to } => MachineState {
                pc: s.pc + 1,
                regs: s.regs.insert(to as int, s.regs[from as int]),
            },
            Instruction::Jump { reg1, reg2, goto } => MachineState {
                pc: if s.regs[reg1 as int] == s.regs[reg2 as int] {
                    goto as int
                } else {
                    s.pc + 1
                },
                regs: s.regs,
            },
        }
    }
}

/// The state after `n` steps.
pub open spec fn steps(p: Seq<Instruction>, s0: MachineState, n: nat) -> MachineState
    decreases n,
{
    if n == 0 {
        s0
    } else {
        step(p, steps(p, s0, (n - 1) as nat))
    }
}

/// Registers 1..=k seeded with the k arguments; every other register is 0.
pub open spec fn init_regs(args: Seq<u64>) -> Map<int, u64> {
    Map::total(|r: int| if 1 <= r <= args.len() { args[r - 1] } else { 0 })
}

/// The state a run starts from: line 1, arguments seeded.
pub open spec fn init_state(args: Seq<u64>) -> MachineState {
    MachineState { pc: 1, regs: init_regs(args) }
}

/// Whether execution from `s0` ever halts.
pub open spec fn halts_from(p: Seq<Instruction>, s0: MachineState) -> bool {
    exists|n: nat| !is_running(p, steps(p, s0, n))
}

/// Whether execution from `s0` halts with `r` in register 0.
pub open spec fn computes_from(p: Seq<Instruction>, s0: MachineState, r: u64) -> bool {
    exists|n: nat| !is_running(p, steps(p, s0, n)) && steps(p, s0, n).regs[0] == r
}

/// A halted state is final: stepping past the halt changes nothing.
pub proof fn lemma_halted_absorbing(p: Seq<Instruction>, s0: MachineState, n: nat, m: nat)
    requires
        n <= m,
        !is_running(p, steps(p, s0, n)),
    ensures
        steps(p, s0, m) == steps(p, s0, n),
    decreases m - n,
{
    if m > n {
        lemma_halted_absorbing(p, s0, n, (m - 1) as nat);
    }
}

/// Determinism: a run from one start state can halt with only one result,
/// no matter after how many steps the halt is observed.
pub proof fn lemma_execution_deterministic(
    p: Seq<Instruction>,
    s0: MachineState,
    r1: u64,
    r2: u64,
)
    requires
        computes_from(p, s0, r1),
        computes_from(p, s0, r2),
    ensures
        r1 == r2,
{
    let n1 = choose|n: nat| !is_running(p, steps(p, s0, n)) && steps(p, s0, n).regs[0] == r1;
    let n2 = choose|n: nat| !is_running(p, steps(p, s0, n)) && steps(p, s0, n).regs[0] == r2;
    if n1 <= n2 {
        lemma_halted_absorbing(p, s0, n1, n2);
    } else {
        lemma_halted_absorbing(p, s0, n2, n1);
    }
}

/// Every register an instruction of `p` touches is referenced by `p`.
pub proof fn lemma_instr_regs_referenced(p: Seq<Instruction>, i: int)
    requires
        0 <= i < p.len(),
    ensures
        forall|r: usize| instr_registers(p[i]).contains(r) ==> references(p, r),
    decreases p.len(),
{
    let regs = registers_of(p);
    let prefix = registers_of(p.drop_last());
    if i == p.len() - 1 {
        assert forall|r: usize| instr_registers(p[i]).contains(r) implies references(p, r) by {
            let j = choose|j: int|
                0 <= j < instr_registers(p[i]).len() && instr_registers(p[i])[j] == r;
            assert(regs[prefix.len() + j] == r);
        }
    } else {
        lemma_instr_regs_referenced(p.drop_last(), i);
        assert forall|r: usize| instr_registers(p[i]).contains(r) implies references(p, r) by {
            assert(p.drop_last()[i] == p[i]);
            assert(references(p.drop_last(), r));
            let j = choose|j: int| 0 <= j < prefix.len() && prefix[j] == r;
            assert(regs[j] == r);
        }
    }
}

/// Two register files agree as far as `p` can observe: on register 0, where
/// the result is read, and on every register `p` references.
pub open spec fn agrees(p: Seq<Instruction>, m1: Map<int, u64>, m2: Map<int, u64>) -> bool {
    &&& m1[0] == m2[0]
    &&& forall|r: usize| references(p, r) ==> m1[r as int] == m2[r as int]
}

proof fn lemma_step_agreement(p: Seq<Instruction>, s1: MachineState, s2: MachineState)
    requires
        s1.pc == s2.pc,
        agrees(p, s1.regs, s2.regs),
    ensures
        step(p, s1).pc == step(p, s2).pc,
        agrees(p, step(p, s1).regs, step(p, s2).regs),
{
    if is_running(p, s1) {
        let i = s1.pc - 1;
        lemma_instr_regs_referenced(p, i);
        match p[i] {
            Instruction::Zero(r) => {
                assert(instr_registers(p[i])[0] == r);
                assert(references(p, r));
            }
            Instruction::Increase(r) => {
                assert(instr_registers(p[i])[0] == r);
                assert(references(p, r));
            }
            Instruction::Translate { from, to } => {
                assert(instr_registers(p[i])[0] == from);
                assert(instr_registers(p[i])[1] == to);
                assert(references(p, from));
                assert(references(p, to));
            }
            Instruction::Jump { reg1, reg2, .. } => {
                assert(instr_registers(p[i])[0] == reg1);
                assert(instr_registers(p[i])[1] == reg2);
                assert(references(p, reg1));
                assert(references(p, reg2));
            }
        }
    }
}

/// Layout equivalence, on the model: start two machines at the same line
/// with register files that agree on everything the program can observe, and
/// after any number of steps the lines are equal and the files still agree.
/// A dense and a sparse memory loaded with the same contents agree in
/// exactly this sense, so the per-step register values they show are equal.
pub proof fn lemma_step_sequence_agreement(
    p: Seq<Instruction>,
    s1: MachineState,
    s2: MachineState,
    n: nat,
)
    requires
        s1.pc == s2.pc,
        agrees(p, s1.regs, s2.regs),
    ensures
        steps(p, s1, n).pc == steps(p, s2, n).pc,
        agrees(p, steps(p, s1, n).regs, steps(p, s2, n).regs),
    decreases n,
{
    if n > 0 {
        lemma_step_sequence_agreement(p, s1, s2, (n - 1) as nat);
        lemma_step_agreement(p, steps(p, s1, (n - 1) as nat), steps(p, s2, (n - 1) as nat));
    }
}

/// Start states that agree on everything the program can observe halt
/// together and compute the same results.
pub proof fn lemma_agreement_outcome(p: Seq<Instruction>, s1: MachineState, s2: MachineState)
    requires
        s1.pc == s2.pc,
        agrees(p, s1.regs, s2.regs),
    ensures
        halts_from(p, s1) == halts_from(p, s2),
        forall|r: u64| computes_from(p, s1, r) == computes_from(p, s2, r),
{
    if halts_from(p, s1) {
        let n = choose|n: nat| !is_running(p, steps(p, s1, n));
        lemma_step_sequence_agreement(p, s1, s2, n);
        assert(!is_running(p, steps(p, s2, n)));
    }
    if halts_from(p, s2) {
        let n = choose|n: nat| !is_running(p, steps(p, s2, n));
        lemma_step_sequence_agreement(p, s1, s2, n);
        assert(!is_running(p, steps(p, s1, n)));
    }
    assert forall|r: u64| computes_from(p, s1, r) == computes_from(p, s2, r) by {
        if computes_from(p, s1, r) {
            let n = choose|n: nat|
                !is_running(p, steps(p, s1, n)) && steps(p, s1, n).regs[0] == r;
            lemma_step_sequence_agreement(p, s1, s2, n);
            assert(!is_running(p, steps(p, s2, n)) && steps(p, s2, n).regs[0] == r);
        }
        if computes_from(p, s2, r) {
            let n = choose|n: nat|
                !is_running(p, steps(p, s2, n)) && steps(p, s2, n).regs[0] == r;
            lemma_step_sequence_agreement(p, s1, s2, n);
            assert(!is_running(p, steps(p, s1, n)) && steps(p, s1, n).regs[0] == r);
        }
    }
}

/// The one program shape that halts at once: a single jump that compares a
/// register with itself and lands one line past the end. Register 0 is left
/// untouched, so the result is whatever it held before execution.
pub proof fn lemma_jump_past_end_halts(r: usize, s0: MachineState)
    requires
        s0.pc == 1,
    ensures
        !is_running(
            seq![Instruction::Jump { reg1: r, reg2: r, goto: 2 }],
            steps(seq![Instruction::Jump { reg1: r, reg2: r, goto: 2 }], s0, 1),
        ),
        computes_from(seq![Instruction::Jump { reg1: r, reg2: r, goto: 2 }], s0, s0.regs[0]),
{
    let p = seq![Instruction::Jump { reg1: r, reg2: r, goto: 2 }];
    assert(steps(p, s0, 1) == step(p, steps(p, s0, 0)));
    assert(steps(p, s0, 1).pc == 2);
    assert(!is_running(p, steps(p, s0, 1)) && steps(p, s0, 1).regs[0] == s0.regs[0]);
}

/// The canonical unconditional loop: bump a register, jump back while it
/// equals itself.
pub open spec fn busy_loop_program() -> Seq<Instruction> {
    seq![Instruction::Increase(1), Instruction::Jump { reg1: 1, reg2: 1, goto: 1 }]
}

proof fn lemma_busy_loop_running(s0: MachineState, n: nat)
    requires
        s0.pc == 1 || s0.pc == 2,
    ensures
        steps(busy_loop_program(), s0, n).pc == 1 || steps(busy_loop_program(), s0, n).pc == 2,
    decreases n,
{
    if n > 0 {
        lemma_busy_loop_running(s0, (n - 1) as nat);
    }
}

/// Non-termination: however it is seeded, the busy loop never halts. No step
/// count is a witness, so a harness that drives it must bound the steps
/// itself.
pub proof fn lemma_busy_loop_never_halts(args: Seq<u64>)
    ensures
        !halts_from(busy_loop_program(), init_state(args)),
{
    if halts_from(busy_loop_program(), init_state(args)) {
        let n = choose|n: nat| !is_running(busy_loop_program(), steps(busy_loop_program(), init_state(args), n));
        lemma_busy_loop_running(init_state(args), n);
    }
}

/// Every element of `s` is at most `seq_max(s)`.
pub proof fn lemma_seq_max_bound(s: Seq<usize>)
    ensures
        forall|i: int| 0 <= i < s.len() ==> s[i] <= seq_max(s),
    decreases s.len(),
{
    if s.len() > 0 {
        lemma_seq_max_bound(s.drop_last());
        assert forall|i: int| 0 <= i < s.len() implies s[i] <= seq_max(s) by {
            if i < s.len() - 1 {
                assert(s.drop_last()[i] == s[i]);
            }
        }
    }
}

/// A sequence whose elements all stay at or below `b` has its maximum there
/// too.
pub proof fn lemma_seq_max_le(s: Seq<usize>, b: usize)
    requires
        forall|i: int| 0 <= i < s.len() ==> s[i] <= b,
    ensures
        seq_max(s) <= b,
    decreases s.len(),
{
    if s.len() > 0 {
        assert forall|i: int| 0 <= i < s.drop_last().len() implies s.drop_last()[i] <= b by {
            assert(s.drop_last()[i] == s[i]);
        }
        lemma_seq_max_le(s.drop_last(), b);
    }
}


/// The canonical addition idiom: copy register 1 into register 0, then walk
/// a counter up to register 2, bumping register 0 once per step. The only
/// way a URM "decrements" is to count a fresh register up to the bound.
pub open spec fn addition_program() -> Seq<Instruction> {
    seq![
        Instruction::Translate { from: 1, to: 0 },
        Instruction::Zero(3),
        Instruction::Jump { reg1: 3, reg2: 2, goto: 7 },
        Instruction::Increase(0),
        Instruction::Increase(3),
        Instruction::Jump { reg1: 3, reg2: 3, goto: 3 },
    ]
}

/// The state at the loop head after `j` rounds: the sum so far in register
/// 0, the counter in register 3.
spec fn addition_loop_state(a: u64, b: u64, j: u64) -> MachineState {
    MachineState {
        pc: 3,
        regs: Map::total(
            |r: int|
                if r == 0 {
                    (a + j) as u64
                } else if r == 1 {
                    a
                } else if r == 2 {
                    b
                } else if r == 3 {
                    j
                } else {
                    0
                },
        ),
    }
}

proof fn lemma_addition_loop(a: u64, b: u64, j: u64)
    requires
        j <= b,
        a + b <= u64::MAX,
    ensures
        steps(addition_program(), init_state(seq![a, b]), (2 + 4 * j) as nat)
            == addition_loop_state(a, b, j),
    decreases j,
{
    let p = addition_program();
    let s0 = init_state(seq![a, b]);
    if j == 0 {
        assert(s0.regs[1] == a);
        assert(s0.regs[2] == b);
        assert(steps(p, s0, 0) == s0);
        let s1 = step(p, s0);
        assert(steps(p, s0, 1) == step(p, steps(p, s0, 0)));
        assert(s1.pc == 2);
        let s2 = step(p, s1);
        assert(steps(p, s0, 2) == step(p, steps(p, s0, 1)));
        assert(s2.pc == 3);
        assert(s2.regs =~= addition_loop_state(a, b, 0).regs);
        assert(steps(p, s0, (2 + 4 * j) as nat) == s2);
    } else {
        lemma_addition_loop(a, b, (j - 1) as u64);
        let m = (2 + 4 * (j - 1)) as nat;
        let t0 = steps(p, s0, m);
        assert(t0 == addition_loop_state(a, b, (j - 1) as u64));
        assert(t0.regs[3] == (j - 1) as u64);
        assert(t0.regs[2] == b);
        assert((j - 1) as u64 != b);
        let t1 = step(p, t0);
        assert(steps(p, s0, (m + 1) as nat) == step(p, steps(p, s0, m)));
        assert(t1.pc == 4);
        let t2 = step(p, t1);
        assert(steps(p, s0, (m + 2) as nat) == step(p, steps(p, s0, (m + 1) as nat)));
        assert(t2.pc == 5);
        assert(t1.regs[0] == (a + j - 1) as u64);
        assert(wrap_inc((a + j - 1) as u64) == (a + j) as u64);
        let t3 = step(p, t2);
        assert(steps(p, s0, (m + 3) as nat) == step(p, steps(p, s0, (m + 2) as nat)));
        assert(t3.pc == 6);
        assert(t2.regs[3] == (j - 1) as u64);
        assert(wrap_inc((j - 1) as u64) == j);
        let t4 = step(p, t3);
        assert(steps(p, s0, (m + 4) as nat) == step(p, steps(p, s0, (m + 3) as nat)));
        assert(t4.pc == 3);
        assert((2 + 4 * j) as nat == m + 4);
        assert(t4.regs =~= addition_loop_state(a, b, j).regs);
        assert(steps(p, s0, (2 + 4 * j) as nat) == t4);
    }
}

/// The addition idiom adds: seeded with `a` and `b`, the canonical addition
/// program halts with `a + b` in register 0 (stated for sums that fit the
/// 64-bit cell; past that the wrap policy takes over).
pub proof fn lemma_addition_program(a: u64, b: u64)
    requires
        a + b <= u64::MAX,
    ensures
        halts_from(addition_program(), init_state(seq![a, b])),
        computes_from(addition_program(), init_state(seq![a, b]), (a + b) as u64),
{
    let p = addition_program();
    let s0 = init_state(seq![a, b]);
    lemma_addition_loop(a, b, b);
    let m = (2 + 4 * b) as nat;
    let t = steps(p, s0, m);
    assert(t == addition_loop_state(a, b, b));
    assert(t.regs[3] == b);
    assert(t.regs[2] == b);
    let t1 = step(p, t);
    assert(steps(p, s0, (m + 1) as nat) == step(p, steps(p, s0, m)));
    assert(t1.pc == 7);
    assert(!is_running(p, steps(p, s0, (m + 1) as nat)));
    assert(steps(p, s0, (m + 1) as nat).regs[0] == (a + b) as u64);
}

} // verus!

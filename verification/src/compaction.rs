//! Register compaction: a load-time renumbering of the referenced registers
//! into a contiguous range, skipped when addressing is already near dense.

use vstd::prelude::*;
use vstd::set_lib::lemma_int_range;
use vstd::set_lib::lemma_len_subset;
use vstd::set_lib::set_int_range;

use crate::semantics::{
    computes_from, halts_from, init_state, instr_registers, is_running,
    lemma_instr_regs_referenced, references, registers_of, spec_memory_len, step, steps,
    MachineState,
};
use crate::urm::Instruction;

verus! {

/// The distinct values of `s`, each kept at its first occurrence, in order.
pub open spec fn distinct_firsts(s: Seq<usize>) -> Seq<usize>
    decreases s.len(),
{
    if s.len() == 0 {
        Seq::empty()
    } else {
        let rest = distinct_firsts(s.drop_last());
        if rest.contains(s.last()) {
            rest
        } else {
            rest.push(s.last())
        }
    }
}

/// The nonzero values of `s`, in order.
pub open spec fn nonzero(s: Seq<usize>) -> Seq<usize>
    decreases s.len(),
{
    if s.len() == 0 {
        Seq::empty()
    } else if s.last() == 0 {
        nonzero(s.drop_last())
    } else {
        nonzero(s.drop_last()).push(s.last())
    }
}

/// The distinct non-zero registers of `p` in first-occurrence order: the
/// renumbering assigns 1, 2, 3, … along this sequence.
pub open spec fn remap_order(p: Seq<Instruction>) -> Seq<usize> {
    distinct_firsts(nonzero(registers_of(p)))
}

/// Where register `r` goes under compaction of `p`: register 0 is never
/// remapped, every other referenced register moves to one more than its
/// place in first-occurrence order.
pub open spec fn new_index(p: Seq<Instruction>, r: usize) -> usize {
    if r == 0 {
        0
    } else {
        (remap_order(p).index_of(r) + 1) as usize
    }
}

/// One instruction with its register fields renumbered; a jump's `goto` is a
/// line number and stays as it is.
pub open spec fn map_instruction(p: Seq<Instruction>, i: Instruction) -> Instruction {
    match i {
        Instruction::Zero(r) => Instruction::Zero(new_index(p, r)),
        Instruction::Increase(r) => Instruction::Increase(new_index(p, r)),
        Instruction::Translate { from, to } => Instruction::Translate {
            from: new_index(p, from),
            to: new_index(p, to),
        },
        Instruction::Jump { reg1, reg2, goto } => Instruction::Jump {
            reg1: new_index(p, reg1),
            reg2: new_index(p, reg2),
            goto,
        },
    }
}

/// Occupancy ratio `distinct registers / (max register + 1)` above 0.70:
/// addressing is already near dense and the renumbering would not shrink
/// memory enough to pay for itself.
pub open spec fn dense_enough(p: Seq<Instruction>) -> bool {
    10 * distinct_firsts(registers_of(p)).len() > 7 * spec_memory_len(p)
}

/// The compaction transform: renumber every instruction's registers, unless
/// the occupancy ratio says to leave the program alone.
pub open spec fn compress_spec(p: Seq<Instruction>) -> Seq<Instruction> {
    if dense_enough(p) {
        p
    } else {
        Seq::new(p.len(), |i: int| map_instruction(p, p[i]))
    }
}

/// `distinct_firsts` keeps exactly the values of `s`, one copy each.
pub proof fn lemma_distinct_firsts(s: Seq<usize>)
    ensures
        distinct_firsts(s).no_duplicates(),
        forall|x: usize| #[trigger] distinct_firsts(s).contains(x) <==> s.contains(x),
    decreases s.len(),
{
    if s.len() > 0 {
        lemma_distinct_firsts(s.drop_last());
        let rest = distinct_firsts(s.drop_last());
        let d = distinct_firsts(s);
        assert forall|x: usize| #[trigger] d.contains(x) <==> s.contains(x) by {
            if d.contains(x) {
                if rest.contains(x) {
                    assert(s.drop_last().contains(x));
                    let j = choose|j: int|
                        0 <= j < s.drop_last().len() && s.drop_last()[j] == x;
                    assert(s[j] == x);
                } else {
                    let j = choose|j: int| 0 <= j < d.len() && d[j] == x;
                    assert(d == rest.push(s.last()));
                    if j < rest.len() {
                        assert(rest[j] == x);
                        assert(rest.contains(x));
                        assert(false);
                    }
                    assert(x == s.last());
                    assert(s[s.len() - 1] == x);
                }
            }
            if s.contains(x) {
                let j = choose|j: int| 0 <= j < s.len() && s[j] == x;
                if j < s.len() - 1 {
                    assert(s.drop_last()[j] == x);
                    assert(s.drop_last().contains(x));
                    assert(rest.contains(x));
                    if !rest.contains(s.last()) {
                        let k = choose|k: int| 0 <= k < rest.len() && rest[k] == x;
                        assert(d[k] == x);
                    }
                } else {
                    if rest.contains(x) {
                        let k = choose|k: int| 0 <= k < rest.len() && rest[k] == x;
                        assert(d[k] == x);
                    } else {
                        assert(d == rest.push(s.last()));
                        assert(d[d.len() - 1] == x);
                    }
                }
            }
        }
        if !rest.contains(s.last()) {
            assert forall|i: int, j: int|
                0 <= i < d.len() && 0 <= j < d.len() && i != j implies d[i] != d[j] by {
                if i < rest.len() && j < rest.len() {
                } else if i == rest.len() {
                    if d[i] == d[j] {
                        assert(rest[j] == s.last());
                        assert(rest.contains(s.last()));
                    }
                } else if j == rest.len() {
                    if d[i] == d[j] {
                        assert(rest[i] == s.last());
                        assert(rest.contains(s.last()));
                    }
                }
            }
        }
    }
}

/// `nonzero` keeps exactly the nonzero values of `s`.
pub proof fn lemma_nonzero(s: Seq<usize>)
    ensures
        forall|x: usize| #[trigger] nonzero(s).contains(x) <==> s.contains(x) && x != 0,
        forall|i: int| 0 <= i < nonzero(s).len() ==> nonzero(s)[i] != 0,
    decreases s.len(),
{
    if s.len() > 0 {
        lemma_nonzero(s.drop_last());
        let rest = nonzero(s.drop_last());
        let d = nonzero(s);
        assert forall|x: usize| #[trigger] d.contains(x) <==> s.contains(x) && x != 0 by {
            if d.contains(x) {
                let j = choose|j: int| 0 <= j < d.len() && d[j] == x;
                if s.last() != 0 && j == d.len() - 1 {
                    assert(d == rest.push(s.last()));
                    assert(x == s.last());
                    assert(s[s.len() - 1] == x);
                    assert(s.contains(x));
                } else {
                    assert(rest[j] == x);
                    assert(rest.contains(x));
                    assert(x != 0);
                    assert(s.drop_last().contains(x));
                    let k = choose|k: int|
                        0 <= k < s.drop_last().len() && s.drop_last()[k] == x;
                    assert(s[k] == x);
                    assert(s.contains(x));
                }
            }
            if s.contains(x) && x != 0 {
                let j = choose|j: int| 0 <= j < s.len() && s[j] == x;
                if j < s.len() - 1 {
                    assert(s.drop_last()[j] == x);
                    assert(s.drop_last().contains(x));
                    assert(rest.contains(x));
                    let k = choose|k: int| 0 <= k < rest.len() && rest[k] == x;
                    if s.last() != 0 {
                        assert(d == rest.push(s.last()));
                        assert(d[k] == x);
                    } else {
                        assert(d == rest);
                        assert(d[k] == x);
                    }
                    assert(d.contains(x));
                } else {
                    assert(s[j] == s.last());
                    assert(s.last() == x);
                    assert(d == rest.push(s.last()));
                    assert(d[d.len() - 1] == x);
                    assert(d.contains(x));
                }
            }
        }
    }
}

/// A sequence of distinct values drawn from `1..=b` has at most `b` entries.
pub proof fn lemma_distinct_bounded(s: Seq<usize>, b: usize)
    requires
        s.no_duplicates(),
        forall|i: int| 0 <= i < s.len() ==> 1 <= #[trigger] s[i] <= b,
    ensures
        s.len() <= b,
{
    let ints = s.map_values(|x: usize| x as int);
    assert(ints.no_duplicates());
    ints.unique_seq_to_set();
    let range = set_int_range(1, b + 1);
    lemma_int_range(1, b + 1);
    assert forall|x: int| ints.to_set().contains(x) implies range.contains(x) by {
        let j = choose|j: int| 0 <= j < ints.len() && ints[j] == x;
        assert(1 <= s[j] <= b);
    }
    lemma_len_subset(ints.to_set(), range);
}

/// In a sequence without duplicates, `index_of` inverts indexing.
pub proof fn lemma_index_of_unique(s: Seq<usize>, i: int)
    requires
        s.no_duplicates(),
        0 <= i < s.len(),
    ensures
        s.index_of(s[i]) == i,
{
    assert(s.contains(s[i]));
}

/// The renumbering order: no duplicates, no zero, exactly the nonzero
/// referenced registers, and never longer than the register values allow.
pub proof fn lemma_remap_order(p: Seq<Instruction>)
    ensures
        remap_order(p).no_duplicates(),
        forall|i: int| 0 <= i < remap_order(p).len() ==> remap_order(p)[i] != 0,
        forall|r: usize| #[trigger] remap_order(p).contains(r) <==> references(p, r) && r != 0,
        remap_order(p).len() <= usize::MAX,
{
    let regs = registers_of(p);
    let order = remap_order(p);
    lemma_nonzero(regs);
    lemma_distinct_firsts(nonzero(regs));
    assert forall|i: int| 0 <= i < order.len() implies order[i] != 0 by {
        assert(order.contains(order[i]));
        assert(nonzero(regs).contains(order[i]));
    }
    assert forall|i: int| 0 <= i < order.len() implies 1 <= #[trigger] order[i] <= usize::MAX by {
        assert(order.contains(order[i]));
        assert(nonzero(regs).contains(order[i]));
    }
    lemma_distinct_bounded(order, usize::MAX);
}

/// A nonzero referenced register moves to one more than its place in the
/// order; that slot of the order holds it.
pub open spec fn renamed_in_order(p: Seq<Instruction>, r: usize) -> bool {
    references(p, r) && r != 0 ==> {
        &&& 1 <= new_index(p, r) <= remap_order(p).len()
        &&& remap_order(p)[new_index(p, r) - 1] == r
    }
}

/// The renumbering never merges two referenced registers.
pub open spec fn renamed_apart(p: Seq<Instruction>, r1: usize, r2: usize) -> bool {
    references(p, r1) && references(p, r2) && new_index(p, r1) == new_index(p, r2) ==> r1 == r2
}

/// Of the referenced registers, only register 0 lands on 0.
pub open spec fn renamed_to_zero(p: Seq<Instruction>, r: usize) -> bool {
    references(p, r) ==> (new_index(p, r) == 0 <==> r == 0)
}

/// What the renumbering does to a referenced register: a nonzero one moves
/// to one more than its place in the order, injectively; register 0 stays.
pub proof fn lemma_new_index(p: Seq<Instruction>)
    ensures
        forall|r: usize| renamed_in_order(p, r),
        forall|r1: usize, r2: usize| renamed_apart(p, r1, r2),
        forall|r: usize| renamed_to_zero(p, r),
{
    let order = remap_order(p);
    lemma_remap_order(p);
    assert forall|r: usize| renamed_in_order(p, r) by {
        if references(p, r) && r != 0 {
            assert(order.contains(r));
            let i = order.index_of(r);
            assert(0 <= i < order.len() && order[i] == r);
            assert(new_index(p, r) as int == i + 1);
        }
    }
    assert forall|r1: usize, r2: usize| renamed_apart(p, r1, r2) by {
        if references(p, r1) && references(p, r2) && new_index(p, r1) == new_index(p, r2) {
            assert(renamed_in_order(p, r1));
            assert(renamed_in_order(p, r2));
            if r1 != 0 && r2 != 0 {
                assert(order[new_index(p, r1) - 1] == r1);
                assert(order[new_index(p, r2) - 1] == r2);
            } else if r1 == 0 && r2 != 0 {
                assert(order[new_index(p, r2) - 1] == r2);
                assert(false);
            } else if r2 == 0 && r1 != 0 {
                assert(order[new_index(p, r1) - 1] == r1);
                assert(false);
            }
        }
    }
    assert forall|r: usize| renamed_to_zero(p, r) by {
        if r != 0 && references(p, r) {
            assert(renamed_in_order(p, r));
            assert(new_index(p, r) >= 1);
        }
    }
}

/// The first `j` instructions of `p`, renumbered.
pub open spec fn mapped_program(p: Seq<Instruction>, j: nat) -> Seq<Instruction> {
    Seq::new(j, |i: int| map_instruction(p, p[i]))
}

/// Renumbering the instructions renumbers the referenced-register sequence,
/// position by position.
pub proof fn lemma_mapped_registers(p: Seq<Instruction>, j: nat)
    requires
        j <= p.len(),
    ensures
        registers_of(mapped_program(p, j)).len() == registers_of(p.take(j as int)).len(),
        forall|i: int|
            0 <= i < registers_of(p.take(j as int)).len() ==> #[trigger] registers_of(
                mapped_program(p, j),
            )[i] == new_index(p, registers_of(p.take(j as int))[i]),
    decreases j,
{
    if j > 0 {
        lemma_mapped_registers(p, (j - 1) as nat);
        let q = mapped_program(p, j);
        let qd = mapped_program(p, (j - 1) as nat);
        let s = p.take(j as int);
        let sd = p.take(j - 1);
        assert(q.drop_last() =~= qd);
        assert(s.drop_last() =~= sd);
        assert(q.last() == map_instruction(p, p[j - 1]));
        assert(s.last() == p[j - 1]);
        assert(registers_of(q) == registers_of(qd) + instr_registers(map_instruction(p, p[j - 1])));
        assert(registers_of(s) == registers_of(sd) + instr_registers(p[j - 1]));
        let a = instr_registers(map_instruction(p, p[j - 1]));
        let b = instr_registers(p[j - 1]);
        assert(a.len() == b.len() && forall|i: int|
            0 <= i < b.len() ==> a[i] == new_index(p, b[i])) by {
            match p[j - 1] {
                Instruction::Zero(r) => {}
                Instruction::Increase(r) => {}
                Instruction::Translate { from, to } => {}
                Instruction::Jump { reg1, reg2, .. } => {}
            }
        }
    }
}

/// Every entry of the referenced-register sequence is a referenced register.
pub proof fn lemma_registers_of_referenced(p: Seq<Instruction>)
    ensures
        forall|i: int|
            0 <= i < registers_of(p).len() ==> references(p, #[trigger] registers_of(p)[i]),
{
    assert forall|i: int|
        0 <= i < registers_of(p).len() implies references(p, #[trigger] registers_of(p)[i]) by {
        assert(registers_of(p).contains(registers_of(p)[i]));
    }
}

/// `nonzero` commutes with the renumbering of a sequence of referenced
/// registers: zero stays zero and nothing else lands there.
proof fn lemma_nonzero_pointwise(p: Seq<Instruction>, s: Seq<usize>, t: Seq<usize>)
    requires
        t.len() == s.len(),
        forall|i: int| 0 <= i < s.len() ==> #[trigger] t[i] == new_index(p, s[i]),
        forall|i: int| 0 <= i < s.len() ==> references(p, #[trigger] s[i]),
    ensures
        nonzero(t).len() == nonzero(s).len(),
        forall|i: int|
            0 <= i < nonzero(s).len() ==> #[trigger] nonzero(t)[i] == new_index(
                p,
                nonzero(s)[i],
            ),
        forall|i: int| 0 <= i < nonzero(s).len() ==> references(p, #[trigger] nonzero(s)[i]),
    decreases s.len(),
{
    lemma_new_index(p);
    if s.len() > 0 {
        assert forall|i: int|
            0 <= i < s.drop_last().len() implies #[trigger] t.drop_last()[i] == new_index(
            p,
            s.drop_last()[i],
        ) && references(p, s.drop_last()[i]) by {
            assert(t[i] == new_index(p, s[i]));
            assert(references(p, s[i]));
        }
        lemma_nonzero_pointwise(p, s.drop_last(), t.drop_last());
        assert(t.last() == new_index(p, s.last()));
        assert(references(p, s.last()));
        assert(renamed_to_zero(p, s.last()));
        if s.last() == 0 {
            assert(t.last() == 0);
            assert(nonzero(s) == nonzero(s.drop_last()));
            assert(nonzero(t) == nonzero(t.drop_last()));
        } else {
            assert(t.last() != 0);
            assert(nonzero(s) == nonzero(s.drop_last()).push(s.last()));
            assert(nonzero(t) == nonzero(t.drop_last()).push(t.last()));
        }
    }
}

/// `distinct_firsts` commutes with the renumbering of a sequence of nonzero
/// referenced registers, because the renumbering is injective on them.
proof fn lemma_distinct_firsts_pointwise(p: Seq<Instruction>, s: Seq<usize>, t: Seq<usize>)
    requires
        t.len() == s.len(),
        forall|i: int| 0 <= i < s.len() ==> #[trigger] t[i] == new_index(p, s[i]),
        forall|i: int| 0 <= i < s.len() ==> references(p, #[trigger] s[i]),
    ensures
        distinct_firsts(t).len() == distinct_firsts(s).len(),
        forall|i: int|
            0 <= i < distinct_firsts(s).len() ==> #[trigger] distinct_firsts(t)[i] == new_index(
                p,
                distinct_firsts(s)[i],
            ),
        forall|i: int|
            0 <= i < distinct_firsts(s).len() ==> references(
                p,
                #[trigger] distinct_firsts(s)[i],
            ),
    decreases s.len(),
{
    lemma_new_index(p);
    if s.len() > 0 {
        assert forall|i: int|
            0 <= i < s.drop_last().len() implies #[trigger] t.drop_last()[i] == new_index(
            p,
            s.drop_last()[i],
        ) && references(p, s.drop_last()[i]) by {
            assert(t[i] == new_index(p, s[i]));
            assert(references(p, s[i]));
        }
        lemma_distinct_firsts_pointwise(p, s.drop_last(), t.drop_last());
        let ds = distinct_firsts(s.drop_last());
        let dt = distinct_firsts(t.drop_last());
        assert(t.last() == new_index(p, s.last()));
        assert(references(p, s.last()));
        if ds.contains(s.last()) {
            let k = choose|k: int| 0 <= k < ds.len() && ds[k] == s.last();
            assert(dt[k] == new_index(p, s.last()));
            assert(dt.contains(t.last()));
            assert(distinct_firsts(s) == ds);
            assert(distinct_firsts(t) == dt);
        } else {
            if dt.contains(t.last()) {
                let k = choose|k: int| 0 <= k < dt.len() && dt[k] == t.last();
                assert(dt[k] == new_index(p, ds[k]));
                assert(references(p, ds[k]));
                assert(renamed_apart(p, ds[k], s.last()));
                assert(ds[k] == s.last());
                assert(ds.contains(s.last()));
                assert(false);
            }
            assert(distinct_firsts(s) == ds.push(s.last()));
            assert(distinct_firsts(t) == dt.push(t.last()));
        }
    }
}

/// After one renumbering the order is canonical: the distinct non-zero
/// registers, in first-occurrence order, are exactly 1, 2, 3, …
pub proof fn lemma_mapped_order_canonical(p: Seq<Instruction>)
    ensures
        remap_order(mapped_program(p, p.len())).len() == remap_order(p).len(),
        forall|i: int|
            0 <= i < remap_order(p).len() ==> #[trigger] remap_order(
                mapped_program(p, p.len()),
            )[i] == i + 1,
{
    let q = mapped_program(p, p.len());
    lemma_new_index(p);
    lemma_remap_order(p);
    lemma_mapped_registers(p, p.len());
    assert(p.take(p.len() as int) =~= p);
    lemma_registers_of_referenced(p);
    lemma_nonzero_pointwise(p, registers_of(p), registers_of(q));
    lemma_distinct_firsts_pointwise(p, nonzero(registers_of(p)), nonzero(registers_of(q)));
    let op = remap_order(p);
    let oq = remap_order(q);
    assert forall|i: int| 0 <= i < op.len() implies #[trigger] oq[i] == i + 1 by {
        assert(oq[i] == new_index(p, op[i]));
        assert(op.contains(op[i]));
        assert(references(p, op[i]) && op[i] != 0);
        assert(renamed_in_order(p, op[i]));
        assert(op[new_index(p, op[i]) - 1] == op[i]);
        let k = new_index(p, op[i]) - 1;
        if k != i {
            assert(op[k] == op[i]);
            assert(false);
        }
    }
}

/// On a canonical program the renumbering is the identity, so compaction
/// leaves it alone whether or not the occupancy gate fires.
pub proof fn lemma_compress_idempotent(p: Seq<Instruction>)
    ensures
        compress_spec(compress_spec(p)) == compress_spec(p),
{
    if !dense_enough(p) {
        let q = compress_spec(p);
        assert(q =~= mapped_program(p, p.len()));
        lemma_mapped_order_canonical(p);
        lemma_new_index(q);
        assert forall|x: usize| references(q, x) implies #[trigger] new_index(q, x) == x by {
            if x == 0 {
            } else {
                assert(renamed_in_order(q, x));
                assert(remap_order(q)[new_index(q, x) - 1] == x);
                assert(remap_order(q).len() == remap_order(p).len());
                assert(remap_order(q)[new_index(q, x) - 1] == new_index(q, x) - 1 + 1);
            }
        }
        if !dense_enough(q) {
            assert forall|i: int|
                0 <= i < q.len() implies #[trigger] map_instruction(q, q[i]) == q[i] by {
                lemma_instr_regs_referenced(q, i);
                match q[i] {
                    Instruction::Zero(r) => {
                        assert(instr_registers(q[i])[0] == r);
                        assert(references(q, r));
                    }
                    Instruction::Increase(r) => {
                        assert(instr_registers(q[i])[0] == r);
                        assert(references(q, r));
                    }
                    Instruction::Translate { from, to } => {
                        assert(instr_registers(q[i])[0] == from);
                        assert(instr_registers(q[i])[1] == to);
                        assert(references(q, from));
                        assert(references(q, to));
                    }
                    Instruction::Jump { reg1, reg2, .. } => {
                        assert(instr_registers(q[i])[0] == reg1);
                        assert(instr_registers(q[i])[1] == reg2);
                        assert(references(q, reg1));
                        assert(references(q, reg2));
                    }
                }
            }
            assert(compress_spec(q) =~= q);
        }
    }
}


/// The renaming carried into the machine state: cell `new_index(p, r)` of the
/// compacted program plays the role of cell `r` of the source program, and
/// cell 0 — where the result is read — plays itself.
pub open spec fn simulates(p: Seq<Instruction>, s: MachineState, t: MachineState) -> bool {
    &&& t.pc == s.pc
    &&& t.regs[0] == s.regs[0]
    &&& forall|r: usize|
        references(p, r) ==> t.regs[new_index(p, r) as int] == s.regs[r as int]
}

proof fn lemma_sim_step(p: Seq<Instruction>, s: MachineState, t: MachineState)
    requires
        simulates(p, s, t),
    ensures
        simulates(p, step(p, s), step(mapped_program(p, p.len()), t)),
{
    let q = mapped_program(p, p.len());
    if is_running(p, s) {
        let i = s.pc - 1;
        lemma_instr_regs_referenced(p, i);
        lemma_new_index(p);
        assert(q[i] == map_instruction(p, p[i]));
        match p[i] {
            Instruction::Zero(r) => {
                assert(instr_registers(p[i])[0] == r);
                assert(references(p, r));
                assert(renamed_to_zero(p, r));
                assert forall|r2: usize| references(p, r2) implies step(q, t).regs[new_index(
                    p,
                    r2,
                ) as int] == step(p, s).regs[r2 as int] by {
                    if r2 != r {
                        assert(renamed_apart(p, r2, r));
                    }
                }
            }
            Instruction::Increase(r) => {
                assert(instr_registers(p[i])[0] == r);
                assert(references(p, r));
                assert(renamed_to_zero(p, r));
                assert(t.regs[new_index(p, r) as int] == s.regs[r as int]);
                assert forall|r2: usize| references(p, r2) implies step(q, t).regs[new_index(
                    p,
                    r2,
                ) as int] == step(p, s).regs[r2 as int] by {
                    if r2 != r {
                        assert(renamed_apart(p, r2, r));
                    }
                }
            }
            Instruction::Translate { from, to } => {
                assert(instr_registers(p[i])[0] == from);
                assert(instr_registers(p[i])[1] == to);
                assert(references(p, from));
                assert(references(p, to));
                assert(renamed_to_zero(p, to));
                assert(t.regs[new_index(p, from) as int] == s.regs[from as int]);
                assert forall|r2: usize| references(p, r2) implies step(q, t).regs[new_index(
                    p,
                    r2,
                ) as int] == step(p, s).regs[r2 as int] by {
                    if r2 != to {
                        assert(renamed_apart(p, r2, to));
                    }
                }
            }
            Instruction::Jump { reg1, reg2, .. } => {
                assert(instr_registers(p[i])[0] == reg1);
                assert(instr_registers(p[i])[1] == reg2);
                assert(references(p, reg1));
                assert(references(p, reg2));
                assert(t.regs[new_index(p, reg1) as int] == s.regs[reg1 as int]);
                assert(t.regs[new_index(p, reg2) as int] == s.regs[reg2 as int]);
            }
        }
    }
}

proof fn lemma_sim_steps(p: Seq<Instruction>, s: MachineState, t: MachineState, n: nat)
    requires
        simulates(p, s, t),
    ensures
        simulates(p, steps(p, s, n), steps(mapped_program(p, p.len()), t, n)),
    decreases n,
{
    if n > 0 {
        lemma_sim_steps(p, s, t, (n - 1) as nat);
        lemma_sim_step(
            p,
            steps(p, s, (n - 1) as nat),
            steps(mapped_program(p, p.len()), t, (n - 1) as nat),
        );
    }
}

/// Renaming the registers renames the run: from related start states the
/// compacted program halts exactly when the source program halts, and
/// computes exactly the same results.
pub proof fn lemma_sim_outcome(p: Seq<Instruction>, s: MachineState, t: MachineState)
    requires
        simulates(p, s, t),
    ensures
        halts_from(p, s) == halts_from(mapped_program(p, p.len()), t),
        forall|r: u64|
            computes_from(p, s, r) == computes_from(mapped_program(p, p.len()), t, r),
{
    let q = mapped_program(p, p.len());
    if halts_from(p, s) {
        let n = choose|n: nat| !is_running(p, steps(p, s, n));
        lemma_sim_steps(p, s, t, n);
        assert(!is_running(q, steps(q, t, n)));
    }
    if halts_from(q, t) {
        let n = choose|n: nat| !is_running(q, steps(q, t, n));
        lemma_sim_steps(p, s, t, n);
        assert(!is_running(p, steps(p, s, n)));
    }
    assert forall|r: u64| computes_from(p, s, r) == computes_from(q, t, r) by {
        if computes_from(p, s, r) {
            let n = choose|n: nat| !is_running(p, steps(p, s, n)) && steps(p, s, n).regs[0] == r;
            lemma_sim_steps(p, s, t, n);
            assert(!is_running(q, steps(q, t, n)) && steps(q, t, n).regs[0] == r);
        }
        if computes_from(q, t, r) {
            let n = choose|n: nat| !is_running(q, steps(q, t, n)) && steps(q, t, n).regs[0] == r;
            lemma_sim_steps(p, s, t, n);
            assert(!is_running(p, steps(p, s, n)) && steps(p, s, n).regs[0] == r);
        }
    }
}

/// The compacted program's register file when arguments seed the source
/// program's registers `1..=k`: cell `x` of the renumbered range holds the
/// argument of the source register that moved to `x`; everything else is 0.
pub open spec fn mapped_init_regs(p: Seq<Instruction>, args: Seq<u64>) -> Map<int, u64> {
    Map::total(
        |x: int|
            if 1 <= x <= remap_order(p).len() && 1 <= remap_order(p)[x - 1] <= args.len() {
                args[remap_order(p)[x - 1] - 1]
            } else {
                0
            },
    )
}

/// Line 1 of the compacted program, with the renamed seeding in place.
pub open spec fn mapped_init_state(p: Seq<Instruction>, args: Seq<u64>) -> MachineState {
    MachineState { pc: 1, regs: mapped_init_regs(p, args) }
}

/// The renamed seeding starts the compacted program in simulation with the
/// source program's plainly seeded start state.
pub proof fn lemma_sim_init(p: Seq<Instruction>, args: Seq<u64>)
    ensures
        simulates(p, init_state(args), mapped_init_state(p, args)),
{
    lemma_new_index(p);
    lemma_remap_order(p);
    let s = init_state(args);
    let t = mapped_init_state(p, args);
    assert(t.regs[0] == 0);
    assert(s.regs[0] == 0);
    assert forall|r: usize| references(p, r) implies t.regs[new_index(p, r) as int]
        == s.regs[r as int] by {
        if r == 0 {
            assert(t.regs[0] == 0);
        } else {
            assert(renamed_in_order(p, r));
            let x = new_index(p, r) as int;
            assert(remap_order(p)[x - 1] == r);
        }
    }
}

/// Where the engine starts the compacted program: the renamed seeding after
/// a remap, the plain seeding where the occupancy ratio said to leave the
/// program alone.
pub open spec fn engine_start(p: Seq<Instruction>, args: Seq<u64>) -> MachineState {
    if dense_enough(p) {
        init_state(args)
    } else {
        mapped_init_state(p, args)
    }
}

/// Compaction is semantics-preserving: whether or not the remap fired, the
/// compacted program run from the engine's seeding halts exactly when the
/// source program halts from the plain seeding, and computes the same
/// results.
pub proof fn lemma_compaction_preserves_semantics(p: Seq<Instruction>, args: Seq<u64>)
    ensures
        halts_from(compress_spec(p), engine_start(p, args)) == halts_from(p, init_state(args)),
        forall|r: u64|
            computes_from(compress_spec(p), engine_start(p, args), r) == computes_from(
                p,
                init_state(args),
                r,
            ),
{
    if !dense_enough(p) {
        assert(compress_spec(p) == mapped_program(p, p.len()));
        lemma_sim_init(p, args);
        lemma_sim_outcome(p, init_state(args), mapped_init_state(p, args));
    }
}


/// Every register of the compacted program is register 0 or a slot
/// `1..=len` of the renumbered range, and the order names the source
/// register that moved there.
pub proof fn lemma_compacted_references(p: Seq<Instruction>)
    ensures
        forall|x: usize|
            #[trigger] references(mapped_program(p, p.len()), x) ==> (x == 0 || (1 <= x
                <= remap_order(p).len() && remap_order(p)[x - 1] != 0 && references(
                p,
                remap_order(p)[x - 1],
            ) && new_index(p, remap_order(p)[x - 1]) == x)),
{
    let q = mapped_program(p, p.len());
    lemma_new_index(p);
    lemma_remap_order(p);
    lemma_mapped_registers(p, p.len());
    assert(p.take(p.len() as int) =~= p);
    lemma_registers_of_referenced(p);
    assert forall|x: usize| #[trigger] references(q, x) implies (x == 0 || (1 <= x
        <= remap_order(p).len() && remap_order(p)[x - 1] != 0 && references(
        p,
        remap_order(p)[x - 1],
    ) && new_index(p, remap_order(p)[x - 1]) == x)) by {
        let j = choose|j: int| 0 <= j < registers_of(q).len() && registers_of(q)[j] == x;
        assert(registers_of(q)[j] == new_index(p, registers_of(p)[j]));
        let y = registers_of(p)[j];
        assert(references(p, y));
        if y != 0 {
            assert(renamed_in_order(p, y));
            assert(remap_order(p)[new_index(p, y) - 1] == y);
            assert(remap_order(p).contains(y));
        }
    }
}

} // verus!

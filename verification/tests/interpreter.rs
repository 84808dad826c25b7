use rme::machine::{initialize_registers, Environment};
use rme::memory::Memory;
use rme::urm::{Application, Instruction, Program};

fn addition_program() -> Vec<Instruction> {
    // Copy reg 1 into reg 0, then repeatedly bump reg 0 while counting a
    // working register up to reg 2.
    vec![
        Instruction::Translate { from: 1, to: 0 },
        Instruction::Zero(3),
        Instruction::Jump { reg1: 3, reg2: 2, goto: 7 },
        Instruction::Increase(0),
        Instruction::Increase(3),
        Instruction::Jump { reg1: 3, reg2: 3, goto: 3 },
    ]
}

#[test]
fn addition_idiom_returns_sum() {
    let cases: Vec<(u64, u64, u64)> = vec![
        (3, 4, 7),
        (0, 0, 0),
        (5, 9, 14),
        (1, 0, 1),
        (0, 3, 3),
    ];
    for (a, b, want) in cases {
        let mut app = Application::new(Program::new(addition_program()));
        let got = app.run(&vec![a, b]);
        assert_eq!(got, want);
    }
}

#[test]
fn run_is_deterministic_across_fresh_engines() {
    let mut first = Application::new(Program::new(addition_program()));
    let mut second = Application::new(Program::new(addition_program()));
    let args = vec![11, 31];
    assert_eq!(first.run(&args), second.run(&args));
}

#[test]
fn rerunning_one_engine_sees_no_residual_state() {
    let mut app = Application::new(Program::new(addition_program()));
    assert_eq!(app.run(&vec![2, 2]), 4);
    assert_eq!(app.run(&vec![2, 2]), 4);
    assert_eq!(app.run(&vec![0, 0]), 0);
}

#[test]
fn jump_past_end_halts_immediately() {
    let mut app = Application::new(Program::new(vec![Instruction::Jump {
        reg1: 0,
        reg2: 0,
        goto: 2,
    }]));
    assert_eq!(app.run(&vec![]), 0);
}

#[test]
fn jump_past_end_returns_prior_register_zero() {
    let program = Program::new(vec![Instruction::Jump { reg1: 0, reg2: 0, goto: 2 }]);
    let mut memory = Memory::from_size(1);
    memory.set(0, 5);
    assert_eq!(program.execute(&mut memory), 5);
}

#[test]
fn translate_copies_a_seeded_register() {
    let program = Program::new(vec![Instruction::Translate { from: 2, to: 0 }]);
    let mut memory = Memory::from_size(3);
    memory.set(2, 7);
    assert_eq!(program.execute(&mut memory), 7);
}

#[test]
fn increase_wraps_at_the_cell_limit() {
    let program = Program::new(vec![Instruction::Increase(0)]);
    let mut memory = Memory::from_size(1);
    memory.set(0, u64::MAX);
    assert_eq!(program.execute(&mut memory), 0);
}

#[test]
fn busy_loop_is_still_running_after_a_bounded_walk() {
    let mut env = Environment::new(vec![
        Instruction::Increase(1),
        Instruction::Jump { reg1: 1, reg2: 1, goto: 1 },
    ]);
    for _ in 0..1000 {
        let observed = env.next();
        assert!(observed.is_some());
        let (line, _) = observed.unwrap();
        assert!(line == 1 || line == 2);
    }
}

#[test]
fn environment_steps_and_then_halts() {
    let mut env = Environment::new(vec![Instruction::Increase(0)]);
    assert_eq!(env.regs(), vec![0]);
    let step = env.next();
    assert_eq!(step, Some((2, vec![1])));
    assert_eq!(env.next(), None);
    assert_eq!(env.next(), None);
    assert_eq!(env.regs(), vec![1]);
}

#[test]
fn environment_jump_to_zero_halts() {
    let mut env = Environment::new(vec![Instruction::Jump { reg1: 0, reg2: 0, goto: 0 }]);
    assert_eq!(env.next(), Some((0, vec![0])));
    assert_eq!(env.next(), None);
}

#[test]
fn initialize_registers_covers_the_largest_register() {
    let regs = initialize_registers(&vec![Instruction::Zero(5)]);
    assert_eq!(regs, vec![0, 0, 0, 0, 0, 0]);
    let none = initialize_registers(&vec![]);
    assert_eq!(none, vec![0]);
}

#[test]
fn memory_len_counts_registers_not_lines() {
    assert_eq!(Program::new(vec![]).memory_len(), 1);
    assert_eq!(Program::new(vec![Instruction::Zero(0)]).memory_len(), 1);
    let jump = Program::new(vec![Instruction::Jump { reg1: 1, reg2: 7, goto: 9 }]);
    assert_eq!(jump.memory_len(), 8);
}

#[test]
fn iter_registers_walks_fields_in_instruction_order() {
    let program = Program::new(vec![
        Instruction::Translate { from: 2, to: 0 },
        Instruction::Jump { reg1: 4, reg2: 1, goto: 3 },
        Instruction::Increase(2),
    ]);
    assert_eq!(program.iter_registers(), vec![2, 0, 4, 1, 2]);
    let one = Instruction::Zero(9);
    assert_eq!(one.iter_registers(), vec![9]);
}

#[test]
fn compress_renumbers_in_first_occurrence_order() {
    let program = Program::new(vec![Instruction::Zero(4), Instruction::Increase(9)]);
    let (compressed, memory_len) = program.compress();
    assert_eq!(compressed.iter_registers(), vec![1, 2]);
    assert_eq!(memory_len, 3);
}

#[test]
fn compress_never_touches_register_zero_or_gotos() {
    let program = Program::new(vec![
        Instruction::Translate { from: 5, to: 0 },
        Instruction::Jump { reg1: 0, reg2: 5, goto: 40 },
    ]);
    let (compressed, memory_len) = program.compress();
    assert_eq!(compressed.iter_registers(), vec![1, 0, 0, 1]);
    assert_eq!(compressed.len(), 2);
    assert_eq!(memory_len, 2);
}

#[test]
fn compress_skips_near_dense_programs() {
    let (compressed, memory_len) = Program::new(addition_program()).compress();
    assert_eq!(compressed.iter_registers(), vec![1, 0, 3, 3, 2, 0, 3, 3, 3]);
    assert_eq!(memory_len, 4);
}

#[test]
fn compaction_is_transparent_to_the_engine() {
    let source = vec![Instruction::Translate { from: 5, to: 0 }, Instruction::Increase(0)];
    let mut direct = Application::new(Program::new(source.clone()));
    let (compressed, _) = Program::new(source).compress();
    let mut precompressed = Application::new(compressed);
    let args: Vec<u64> = vec![];
    let r1 = direct.run(&args);
    let r2 = precompressed.run(&args);
    assert_eq!(r1, r2);
    assert_eq!(r1, 1);
}

#[test]
fn compress_is_idempotent() {
    let source = vec![Instruction::Zero(4), Instruction::Increase(9)];
    let (once, len_once) = Program::new(source).compress();
    let regs_once = once.iter_registers();
    let (twice, len_twice) = once.compress();
    assert_eq!(twice.iter_registers(), regs_once);
    assert_eq!(len_twice, len_once);
}

#[test]
fn seeds_beyond_the_memory_are_ignored() {
    let mut app = Application::new(Program::new(vec![Instruction::Increase(0)]));
    assert_eq!(app.run(&vec![9, 9, 9]), 1);
}

#[test]
fn copy_semantics_survives_compaction() {
    // Compaction renames register 2 to 1; the seed of source register 2 must
    // follow it.
    let mut app = Application::new(Program::new(vec![Instruction::Translate { from: 2, to: 0 }]));
    assert_eq!(app.run(&vec![0, 7]), 7);
}

#[test]
fn addition_survives_compaction() {
    // Same addition idiom, with the working register pushed out to 7 so that
    // the occupancy gate fires and the registers are renumbered.
    let sparse_addition = vec![
        Instruction::Translate { from: 1, to: 0 },
        Instruction::Zero(7),
        Instruction::Jump { reg1: 7, reg2: 2, goto: 7 },
        Instruction::Increase(0),
        Instruction::Increase(7),
        Instruction::Jump { reg1: 7, reg2: 7, goto: 3 },
    ];
    let mut app = Application::new(Program::new(sparse_addition));
    assert_eq!(app.run(&vec![3, 4]), 7);
    assert_eq!(app.run(&vec![0, 0]), 0);
}

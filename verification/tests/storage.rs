use rme::memory::Memory;
use rme::urm::{Instruction, Program};

#[test]
fn dense_memory_reads_what_was_set() {
    let mut m = Memory::from_size(4);
    assert!(m.is_registered(0));
    assert!(m.is_registered(3));
    assert!(!m.is_registered(4));
    assert_eq!(m.get(2), 0);
    m.set(2, 41);
    assert_eq!(m.get(2), 41);
    assert_eq!(m.get(1), 0);
    m.reset();
    assert_eq!(m.get(2), 0);
}

#[test]
fn sparse_memory_holds_exactly_the_listed_registers() {
    let mut m = Memory::from_registers(&vec![0, 7, 3, 7]);
    assert!(m.is_registered(0));
    assert!(m.is_registered(3));
    assert!(m.is_registered(7));
    assert!(!m.is_registered(1));
    assert!(!m.is_registered(6));
    m.set(7, 9);
    assert_eq!(m.get(7), 9);
    assert_eq!(m.get(3), 0);
    m.set(7, 2);
    assert_eq!(m.get(7), 2);
    m.reset();
    assert_eq!(m.get(7), 0);
}

#[test]
fn dense_and_sparse_layouts_step_identically() {
    let program = Program::new(vec![
        Instruction::Zero(2),
        Instruction::Increase(2),
        Instruction::Increase(2),
        Instruction::Translate { from: 2, to: 0 },
    ]);
    let mut dense = Memory::from_size(3);
    let mut sparse = Memory::from_registers(&program.iter_registers());
    let mut pc_dense: usize = 1;
    let mut pc_sparse: usize = 1;
    let mut steps: usize = 0;
    while pc_dense >= 1 && pc_dense <= program.len() {
        pc_dense = program.step(&mut dense, pc_dense);
        pc_sparse = program.step(&mut sparse, pc_sparse);
        assert_eq!(pc_dense, pc_sparse);
        assert_eq!(dense.get(0), sparse.get(0));
        assert_eq!(dense.get(2), sparse.get(2));
        steps += 1;
        assert!(steps <= 10);
    }
    assert_eq!(dense.get(0), 2);
    assert_eq!(sparse.get(0), 2);
}

#[test]
fn sparse_memory_runs_a_program_to_the_same_result() {
    let program = Program::new(vec![
        Instruction::Increase(4),
        Instruction::Increase(4),
        Instruction::Translate { from: 4, to: 0 },
    ]);
    let mut dense = Memory::from_size(program.memory_len());
    let mut sparse = Memory::from_registers(&program.iter_registers());
    assert_eq!(program.execute(&mut dense), 2);
    assert_eq!(program.execute(&mut sparse), 2);
}

use gridvm::instr::{Instruction, Label};
use gridvm::node::{Node, Status};
use gridvm::parse::parse_instruction;
use gridvm::ports::{Dir, Port};

fn node_with(lines: &[&str]) -> Node {
    let mut n = Node::new();
    for line in lines {
        let inst = parse_instruction(line.as_bytes()).unwrap();
        n.append_instruction(inst);
    }
    n
}

#[test]
fn counter_wraps_after_exactly_n_plain_steps() {
    let mut n = node_with(&["nop", "swp", "sav", "neg", "# note"]);
    assert_eq!(n.pc, 0);
    for k in 1..5 {
        n.run_instruction();
        assert_eq!(n.pc, k);
    }
    n.run_instruction();
    assert_eq!(n.pc, 0);
    assert_eq!(n.status, Status::Running);
}

#[test]
fn jlz_fires_on_zero_and_below_jgz_on_the_complement() {
    for acc in [-3i64, -1, 0, 1, 2] {
        let mut n = node_with(&["nop", "here:", "jlz here"]);
        n.acc = acc;
        n.run_instruction();
        n.run_instruction();
        assert_eq!(n.pc, 2);
        n.run_instruction();
        let jlz_fired = n.pc == 1;
        assert_eq!(jlz_fired, acc <= 0, "jlz at acc {}", acc);

        let mut m = node_with(&["nop", "here:", "jgz here"]);
        m.acc = acc;
        m.run_instruction();
        m.run_instruction();
        m.run_instruction();
        let jgz_fired = m.pc == 1;
        assert_eq!(jgz_fired, acc > 0, "jgz at acc {}", acc);
        assert!(jlz_fired != jgz_fired);
    }
}

#[test]
fn jez_and_jnz_split_on_zero() {
    for acc in [-1i64, 0, 5] {
        let mut n = node_with(&["nop", "t:", "jez t"]);
        n.acc = acc;
        n.run_instruction();
        n.run_instruction();
        n.run_instruction();
        assert_eq!(n.pc == 1, acc == 0);

        let mut m = node_with(&["nop", "t:", "jnz t"]);
        m.acc = acc;
        m.run_instruction();
        m.run_instruction();
        m.run_instruction();
        assert_eq!(m.pc == 1, acc != 0);
    }
}

#[test]
fn neg_decrements_negative_and_spares_the_rest() {
    let mut n = node_with(&["neg"]);
    n.acc = -3;
    n.run_instruction();
    assert_eq!(n.acc, -4);

    let mut z = node_with(&["neg"]);
    z.acc = 0;
    z.run_instruction();
    assert_eq!(z.acc, 0);

    let mut p = node_with(&["neg"]);
    p.acc = 41;
    p.run_instruction();
    assert_eq!(p.acc, 41);
}

#[test]
fn unresolved_jump_advances_by_exactly_one() {
    let mut n = node_with(&["jmp loop", "nop"]);
    n.acc = 9;
    n.run_instruction();
    assert_eq!(n.pc, 1);
    assert_eq!(n.acc, 9);
    assert_eq!(n.status, Status::Running);
    assert!(n.label_positions.is_empty());
}

#[test]
fn labels_resolve_lazily_and_first_occurrence_wins() {
    let mut n = node_with(&["x:", "nop", "x:", "jmp x"]);
    n.run_instruction(); // declares x at 0
    n.run_instruction(); // nop
    n.run_instruction(); // second x: is ignored
    assert_eq!(n.label_positions.len(), 1);
    assert_eq!(n.label_positions[0].index, 0);
    n.run_instruction(); // jmp x
    assert_eq!(n.pc, 0);
}

#[test]
fn swp_and_sav_move_registers() {
    let mut n = node_with(&["sav", "swp"]);
    n.acc = 3;
    n.bak = 8;
    n.run_instruction();
    assert_eq!((n.acc, n.bak), (3, 3));
    n.acc = 11;
    n.run_instruction();
    assert_eq!((n.acc, n.bak), (3, 11));
}

#[test]
fn add_and_sub_on_local_ports() {
    let mut n = node_with(&["add 5", "sub 2", "add acc", "add nil"]);
    n.run_instruction();
    assert_eq!(n.acc, 5);
    n.run_instruction();
    assert_eq!(n.acc, 3);
    n.run_instruction();
    assert_eq!(n.acc, 6);
    n.run_instruction();
    assert_eq!(n.acc, 6);
}

#[test]
fn jro_jumps_relative_and_wraps_bad_targets_to_zero() {
    let mut n = node_with(&["jro 2", "nop", "neg"]);
    n.acc = -1;
    n.run_instruction();
    assert_eq!(n.pc, 2);
    n.run_instruction();
    assert_eq!(n.acc, -2);
    assert_eq!(n.pc, 0);
    let mut m = node_with(&["jro -5", "nop"]);
    m.run_instruction();
    assert_eq!(m.pc, 0);
}

#[test]
fn mov_between_local_ports_completes_in_one_step() {
    let mut n = node_with(&["mov 9 acc", "mov acc nil"]);
    n.run_instruction();
    assert_eq!(n.acc, 9);
    assert_eq!(n.pc, 1);
    n.run_instruction();
    assert_eq!(n.acc, 9);
    assert_eq!(n.pc, 0);
}

#[test]
fn port_instructions_suspend_on_directions() {
    let mut n = node_with(&["add left"]);
    n.run_instruction();
    assert!(matches!(n.status, Status::Waiting { .. }));
    assert_eq!(n.pc, 0);
    assert_eq!(n.acc, 0);
}

#[test]
fn empty_program_halts() {
    let mut n = Node::new();
    n.run_instruction();
    assert_eq!(n.status, Status::Halted);
}

#[test]
fn pop_drops_stale_labels_and_resets_counter() {
    let mut n = node_with(&["nop", "end:"]);
    n.run_instruction();
    n.run_instruction(); // declares end at index 1, pc wraps to 0
    assert_eq!(n.label_positions.len(), 1);
    let popped = n.pop_last_instruction().unwrap();
    assert_eq!(popped, Instruction::CreateLabel(Label(b"end".to_vec())));
    assert!(n.label_positions.is_empty());
    assert_eq!(n.instructions.len(), 1);
    assert!(n.pop_last_instruction().is_some());
    assert!(n.pop_last_instruction().is_none());
}

#[test]
fn clear_resets_program_and_keeps_registers() {
    let mut n = node_with(&["add 5"]);
    n.run_instruction();
    n.clear_instructions();
    assert_eq!(n.acc, 5);
    assert!(n.instructions.is_empty());
    assert!(n.label_positions.is_empty());
    assert_eq!(n.pc, 0);
    assert_eq!(n.status, Status::Running);
}

#[test]
fn restore_label_validates_index_and_name() {
    let mut n = node_with(&["nop", "nop"]);
    assert!(n.restore_label(Label(b"a".to_vec()), 1));
    assert!(!n.restore_label(Label(b"a".to_vec()), 0));
    assert!(!n.restore_label(Label(b"b".to_vec()), 2));
}

#[test]
fn registers_read_and_write_by_name() {
    let mut n = Node::new();
    n.write_register(false, 12);
    n.write_register(true, -4);
    assert_eq!(n.read_register(false), 12);
    assert_eq!(n.read_register(true), -4);
    assert_eq!((n.acc, n.bak), (12, -4));
}

#[test]
fn declare_label_is_idempotent() {
    let mut n = node_with(&["nop", "nop"]);
    n.run_instruction();
    n.declare_label(Label(b"mark".to_vec()));
    n.declare_label(Label(b"mark".to_vec()));
    assert_eq!(n.label_positions.len(), 1);
    assert_eq!(n.label_positions[0].index, 1);
    let mut empty = Node::new();
    empty.declare_label(Label(b"mark".to_vec()));
    assert!(empty.label_positions.is_empty());
}

#[test]
fn inspect_reports_the_observable_state() {
    let mut n = node_with(&["add 5", "nop"]);
    n.run_instruction();
    let (acc, bak, pc, insts) = n.inspect();
    assert_eq!((acc, bak, pc), (5, 0, 1));
    assert_eq!(insts, vec![Instruction::Add(Port::Value(5)), Instruction::Nop]);
}

#[test]
fn mirror_directions_pair_up() {
    assert_eq!(Dir::Left.mirror(), Dir::Right);
    assert_eq!(Dir::Right.mirror(), Dir::Left);
    assert_eq!(Dir::Up.mirror(), Dir::Down);
    assert_eq!(Dir::Down.mirror(), Dir::Up);
}

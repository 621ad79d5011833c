use gridvm::grid::{Pos, Program};
use gridvm::node::Status;
use gridvm::parse::parse_instruction;
use gridvm::ports::Dir;

fn add_program(prog: &mut Program, pos: Pos, lines: &[&str]) -> usize {
    let i = prog.get_node(pos);
    for line in lines {
        let inst = parse_instruction(line.as_bytes()).unwrap();
        prog.nodes[i].node.append_instruction(inst);
    }
    i
}

#[test]
fn get_node_creates_once_and_finds_again() {
    let mut prog = Program::new();
    let a = prog.get_node(Pos(2, -3));
    let b = prog.get_node(Pos(2, -3));
    assert_eq!(a, b);
    assert_eq!(prog.nodes.len(), 1);
    let c = prog.get_node(Pos(0, 0));
    assert_ne!(a, c);
    assert_eq!(prog.nodes.len(), 2);
}

#[test]
fn mov_chain_transfers_the_value_in_the_same_tick() {
    let mut prog = Program::new();
    let l = add_program(&mut prog, Pos(-1, 0), &["mov 5 right"]);
    let a = add_program(&mut prog, Pos(0, 0), &["mov left right"]);
    let b = add_program(&mut prog, Pos(1, 0), &["add left"]);
    let report = prog.tick();
    assert!(report.progressed);
    assert!(!report.deadlocked);
    // the exact value crossed both hops within the one tick
    assert_eq!(prog.nodes[b].node.acc, 5);
    assert_eq!(prog.nodes[b].node.status, Status::Running);
    assert_eq!(prog.nodes[a].node.status, Status::Running);
    assert_eq!(prog.nodes[a].node.acc, 0);
    assert_eq!(prog.nodes[l].node.status, Status::Running);
    // no third node saw a half-done transfer: the middle node's registers
    // never held the value
    assert_eq!(prog.nodes[a].node.bak, 0);
}

#[test]
fn mutual_receives_deadlock_after_one_tick_without_register_change() {
    let mut prog = Program::new();
    let a = add_program(&mut prog, Pos(0, 0), &["add right"]);
    let b = add_program(&mut prog, Pos(1, 0), &["add left"]);
    let report = prog.tick();
    assert!(report.deadlocked);
    assert_eq!(prog.nodes[a].node.acc, 0);
    assert_eq!(prog.nodes[b].node.acc, 0);
    assert!(matches!(prog.nodes[a].node.status, Status::Waiting { .. }));
    assert!(matches!(prog.nodes[b].node.status, Status::Waiting { .. }));
}

#[test]
fn send_and_receive_pair_across_one_edge() {
    let mut prog = Program::new();
    add_program(&mut prog, Pos(0, 0), &["mov 7 down"]);
    let b = add_program(&mut prog, Pos(0, 1), &["add up"]);
    let report = prog.tick();
    assert!(report.progressed);
    assert!(!report.deadlocked);
    assert_eq!(prog.nodes[b].node.acc, 7);
}

#[test]
fn any_scans_left_right_up_down_and_last_repeats_it() {
    let mut prog = Program::new();
    let a = add_program(&mut prog, Pos(0, 0), &["mov 3 any", "mov 4 last"]);
    let b = add_program(&mut prog, Pos(1, 0), &["add left", "add left"]);
    let r1 = prog.tick();
    assert!(r1.progressed);
    assert_eq!(prog.nodes[b].node.acc, 3);
    assert_eq!(prog.nodes[a].node.last, Dir::Right);
    let r2 = prog.tick();
    assert!(r2.progressed);
    assert_eq!(prog.nodes[b].node.acc, 7);
}

#[test]
fn unmatched_waits_persist_until_a_partner_arrives() {
    let mut prog = Program::new();
    let a = add_program(&mut prog, Pos(0, 0), &["mov 9 right"]);
    let r1 = prog.tick();
    assert!(matches!(prog.nodes[a].node.status, Status::Waiting { .. }));
    assert!(r1.deadlocked);
    let b = add_program(&mut prog, Pos(1, 0), &["add left"]);
    let r2 = prog.tick();
    assert!(r2.progressed);
    assert!(!r2.deadlocked);
    assert_eq!(prog.nodes[b].node.acc, 9);
}

#[test]
fn empty_nodes_halt_and_are_reported() {
    let mut prog = Program::new();
    prog.get_node(Pos(4, 4));
    let report = prog.tick();
    assert!(!report.deadlocked);
    assert_eq!(report.halted_positions, vec![Pos(4, 4)]);
    let report2 = prog.tick();
    assert!(!report2.progressed);
    assert_eq!(report2.halted_positions, vec![Pos(4, 4)]);
}

#[test]
fn a_running_grid_computes_across_ticks() {
    // one producer feeds a consumer: the suspension and its pairing fall in
    // the same tick, so each tick completes one whole transfer
    let mut prog = Program::new();
    add_program(&mut prog, Pos(0, 0), &["mov 2 right"]);
    let b = add_program(&mut prog, Pos(1, 0), &["add left"]);
    for _ in 0..6 {
        prog.tick();
    }
    assert_eq!(prog.nodes[b].node.acc, 12);
}

#[test]
fn last_defaults_to_the_left_direction() {
    let mut prog = Program::new();
    let a = add_program(&mut prog, Pos(0, 0), &["mov 8 last"]);
    let b = add_program(&mut prog, Pos(-1, 0), &["add right"]);
    assert_eq!(prog.nodes[a].node.last, Dir::Left);
    let r = prog.tick();
    assert!(r.progressed);
    assert_eq!(prog.nodes[b].node.acc, 8);
}

#[test]
fn mov_sends_the_accumulator_value() {
    let mut prog = Program::new();
    let a = add_program(&mut prog, Pos(0, 0), &["mov acc right"]);
    let b = add_program(&mut prog, Pos(1, 0), &["add left"]);
    prog.nodes[a].node.acc = -31;
    prog.tick();
    assert_eq!(prog.nodes[b].node.acc, -31);
    assert_eq!(prog.nodes[a].node.acc, -31);
}

#[test]
fn a_received_value_can_drive_a_relative_jump() {
    let mut prog = Program::new();
    add_program(&mut prog, Pos(0, 0), &["mov 2 right"]);
    let b = add_program(&mut prog, Pos(1, 0), &["jro left", "nop", "add 10"]);
    prog.tick(); // b suspends on the jro read and takes 2 in the same tick
    assert_eq!(prog.nodes[b].node.pc, 2);
    prog.tick();
    assert_eq!(prog.nodes[b].node.acc, 10);
}

#[test]
fn a_received_value_can_land_in_the_accumulator() {
    let mut prog = Program::new();
    add_program(&mut prog, Pos(0, 0), &["mov 6 down"]);
    let b = add_program(&mut prog, Pos(0, 1), &["mov up acc"]);
    prog.tick();
    assert_eq!(prog.nodes[b].node.acc, 6);
    assert_eq!(prog.nodes[b].node.pc, 0);
}

#[test]
fn nil_reads_do_not_suspend() {
    let mut prog = Program::new();
    let a = add_program(&mut prog, Pos(0, 0), &["add nil", "mov nil acc"]);
    prog.nodes[a].node.acc = 5;
    let r = prog.tick();
    assert!(r.progressed);
    assert_eq!(prog.nodes[a].node.acc, 5);
    prog.tick();
    assert_eq!(prog.nodes[a].node.acc, 0);
}

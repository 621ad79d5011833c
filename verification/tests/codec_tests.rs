use gridvm::codec::{decode_program, encode_program};
use gridvm::grid::{Pos, Program};
use gridvm::node::Node;
use gridvm::parse::parse_instruction;

fn add_program(prog: &mut Program, pos: Pos, lines: &[&str]) -> usize {
    let i = prog.get_node(pos);
    for line in lines {
        let inst = parse_instruction(line.as_bytes()).unwrap();
        prog.nodes[i].node.append_instruction(inst);
    }
    i
}

fn nodes_equal(a: &Node, b: &Node) -> bool {
    a.acc == b.acc && a.bak == b.bak && a.pc == b.pc && a.last == b.last
        && a.status == b.status && a.label_positions == b.label_positions
        && a.instructions == b.instructions
}

fn programs_equal(a: &Program, b: &Program) -> bool {
    a.pos == b.pos && a.nodes.len() == b.nodes.len()
        && a.nodes.iter().zip(b.nodes.iter()).all(|(x, y)| {
            x.pos == y.pos && nodes_equal(&x.node, &y.node)
        })
}

#[test]
fn round_trip_preserves_a_two_node_program() {
    let mut prog = Program::new();
    let a = add_program(
        &mut prog,
        Pos(0, 0),
        &["start:", "mov 5 right", "add acc", "jmp start", "# producer"],
    );
    let b = add_program(&mut prog, Pos(1, 0), &["add left", "sav", "neg"]);
    prog.nodes[a].node.acc = -42;
    prog.nodes[a].node.bak = 17;
    prog.nodes[b].node.acc = 9000;
    prog.nodes[b].node.bak = -1;
    // run a few authoring-time steps so counters and label tables are
    // populated, then stop at a running state
    prog.nodes[a].node.run_instruction();
    prog.nodes[a].node.pc = 2;
    prog.pos = Pos(-7, 3);

    let bytes = encode_program(&prog);
    let back = decode_program(bytes.as_slice()).expect("decoding its own output");
    assert!(programs_equal(&prog, &back));
}

#[test]
fn round_trip_keeps_raw_payloads_byte_for_byte() {
    let mut prog = Program::new();
    let a = add_program(&mut prog, Pos(2, 2), &["# spaced   out\ttext", "A b:"]);
    prog.nodes[a].node.run_instruction();
    prog.nodes[a].node.run_instruction();
    let bytes = encode_program(&prog);
    let back = decode_program(bytes.as_slice()).unwrap();
    assert!(programs_equal(&prog, &back));
}

#[test]
fn round_trip_at_the_ends_of_the_range() {
    let mut prog = Program::new();
    let a = add_program(&mut prog, Pos(i64::MIN, i64::MAX), &["add -9223372036854775808"]);
    prog.nodes[a].node.acc = i64::MIN;
    prog.nodes[a].node.bak = i64::MAX;
    prog.pos = Pos(i64::MAX, i64::MIN);
    let bytes = encode_program(&prog);
    let back = decode_program(bytes.as_slice()).unwrap();
    assert!(programs_equal(&prog, &back));
}

#[test]
fn round_trip_of_the_empty_program() {
    let prog = Program::new();
    let bytes = encode_program(&prog);
    let back = decode_program(bytes.as_slice()).unwrap();
    assert!(programs_equal(&prog, &back));
}

#[test]
fn encoding_is_readable_text() {
    let mut prog = Program::new();
    add_program(&mut prog, Pos(0, 0), &["mov left acc"]);
    let bytes = encode_program(&prog);
    let text = String::from_utf8(bytes).unwrap();
    assert!(text.starts_with("gridvm1\n"));
    assert!(text.contains("mov left acc"));
}

#[test]
fn decoding_rejects_garbage() {
    assert!(decode_program(b"").is_none());
    assert!(decode_program(b"gridvm1\n").is_none());
    assert!(decode_program(b"notmagic\n0 0 0\n").is_none());
    assert!(decode_program(b"gridvm1\n0 0 1\n").is_none());
}

#[test]
fn decoding_rejects_inconsistent_state() {
    // counter beyond the instruction list
    let bad_pc = b"gridvm1\n0 0 1\n0 0 0 0 3 left\n1\nnop\n0\n";
    assert!(decode_program(bad_pc).is_none());
    // label index beyond the instruction list
    let bad_label = b"gridvm1\n0 0 1\n0 0 0 0 0 left\n1\nnop\n1\n5 1\nx\n";
    assert!(decode_program(bad_label).is_none());
    // the same cell twice
    let dup = b"gridvm1\n0 0 2\n0 0 0 0 0 left\n0\n0\n0 0 0 0 0 left\n0\n0\n";
    assert!(decode_program(dup).is_none());
    // trailing garbage
    let trailing = b"gridvm1\n0 0 0\nleftover";
    assert!(decode_program(trailing).is_none());
}

#[test]
fn decoded_programs_accept_further_work() {
    let mut prog = Program::new();
    add_program(&mut prog, Pos(0, 0), &["mov 7 down"]);
    add_program(&mut prog, Pos(0, 1), &["add up"]);
    let bytes = encode_program(&prog);
    let mut back = decode_program(bytes.as_slice()).unwrap();
    let report = back.tick();
    assert!(report.progressed);
    let b = back.find_node(Pos(0, 1)).unwrap();
    assert_eq!(back.nodes[b].node.acc, 7);
}

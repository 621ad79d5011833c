//! One cell's virtual machine: registers, instruction list, program counter,
//! lazily populated label table, and the suspension state for blocking port
//! operations.
//!
//! Machine integers are 64-bit signed; `add`, `sub` and the `neg` decrement
//! wrap on overflow. The program counter advances by one and wraps to zero
//! when it would pass the end of the instruction list. A `jro` whose target
//! would fall outside the list also wraps to zero. `last` before any `any`
//! resolution defaults to the left direction.

use vstd::prelude::*;
use crate::instr::{Instruction, InstrV, Label};
use crate::ports::{Dir, Port};

verus! {

/// The port side a suspended operation is bound to: one fixed direction, or
/// whichever neighbour is ready first.
#[derive(Clone, Copy, Debug, PartialEq, Eq, Structural)]
pub enum WaitPort {
    Fixed(Dir),
    Any,
}

/// What a node does with a value once its pending receive is served.
#[derive(Clone, Copy, Debug, PartialEq, Eq, Structural)]
pub enum Cont {
    /// Add the value into the accumulator.
    Add,
    /// Subtract the value from the accumulator.
    Sub,
    /// Jump relative by the value.
    Jro,
    /// Write the value to the destination port of a `mov`.
    Mov(Port),
}

/// The pending half of a suspended port operation.
#[derive(Clone, Copy, Debug, PartialEq, Eq, Structural)]
pub enum WaitIo {
    /// A value offered to a neighbour.
    Send(i64),
    /// A receive, with what to do once the value arrives.
    Recv(Cont),
}

/// A node's per-tick execution state.
#[derive(Clone, Copy, Debug, PartialEq, Eq, Structural)]
pub enum Status {
    Running,
    Waiting { port: WaitPort, io: WaitIo },
    Halted,
}

/// One resolved label: its name and the instruction index it annotates.
#[derive(Clone, Debug, PartialEq, Eq)]
pub struct LabelEntry {
    pub label: Label,
    pub index: usize,
}

/// Mathematical image of a `LabelEntry`.
pub struct LabelEntryV {
    pub name: Seq<u8>,
    pub index: int,
}

impl View for LabelEntry {
    type V = LabelEntryV;

    open spec fn view(&self) -> LabelEntryV {
        LabelEntryV { name: self.label@, index: self.index as int }
    }
}

/// Mathematical image of a `Node`.
pub struct NodeV {
    pub acc: i64,
    pub bak: i64,
    pub pc: int,
    pub labels: Seq<LabelEntryV>,
    pub instructions: Seq<InstrV>,
    pub status: Status,
    pub last: Dir,
}

/// One cell's machine.
#[derive(Debug)]
pub struct Node {
    pub acc: i64,
    pub bak: i64,
    pub pc: usize,
    pub label_positions: Vec<LabelEntry>,
    pub instructions: Vec<Instruction>,
    pub status: Status,
    pub last: Dir,
}

impl View for Node {
    type V = NodeV;

    open spec fn view(&self) -> NodeV {
        NodeV {
            acc: self.acc,
            bak: self.bak,
            pc: self.pc as int,
            labels: self.label_positions@.map_values(|e: LabelEntry| e@),
            instructions: self.instructions@.map_values(|i: Instruction| i@),
            status: self.status,
            last: self.last,
        }
    }
}

impl NodeV {
    /// Structural soundness: the program counter is a valid index (zero on an
    /// empty program), every recorded label annotates a real instruction, and
    /// label names are unique.
    pub open spec fn wf(self) -> bool {
        &&& 0 <= self.pc
        &&& if self.instructions.len() == 0 {
            self.pc == 0
        } else {
            self.pc < self.instructions.len()
        }
        &&& forall|i: int|
            0 <= i < self.labels.len() ==> 0 <= (#[trigger] self.labels[i]).index
                < self.instructions.len()
        &&& forall|i: int, j: int|
            0 <= i < j < self.labels.len() ==> (#[trigger] self.labels[i]).name != (
            #[trigger] self.labels[j]).name
    }
}

/// The freshly created node: zeroed registers, empty program, running.
pub open spec fn spec_new_node() -> NodeV {
    NodeV {
        acc: 0,
        bak: 0,
        pc: 0,
        labels: Seq::empty(),
        instructions: Seq::empty(),
        status: Status::Running,
        last: Dir::Left,
    }
}

/// The program counter after an ordinary one-step advance: wraps to zero
/// when it would pass the end.
pub open spec fn next_pc(pc: int, len: int) -> int {
    if pc + 1 >= len {
        0
    } else {
        pc + 1
    }
}

/// The first recorded index under `name`, if any.
pub open spec fn label_lookup(labels: Seq<LabelEntryV>, name: Seq<u8>) -> Option<int>
    decreases labels.len(),
{
    if labels.len() == 0 {
        None
    } else if labels[0].name == name {
        Some(labels[0].index)
    } else {
        label_lookup(labels.skip(1), name)
    }
}

/// Where a jump to `name` lands: the recorded index if the label has been
/// reached, else the ordinary advance (the fallback no-op jump).
pub open spec fn spec_jump_dest(n: NodeV, name: Seq<u8>) -> int {
    match label_lookup(n.labels, name) {
        Some(ix) => ix,
        None => next_pc(n.pc, n.instructions.len() as int),
    }
}

/// `jez` fires on zero.
pub open spec fn jez_fires(acc: i64) -> bool {
    acc == 0
}

/// `jnz` fires on anything but zero.
pub open spec fn jnz_fires(acc: i64) -> bool {
    acc != 0
}

/// `jgz` fires on strictly positive values.
pub open spec fn jgz_fires(acc: i64) -> bool {
    acc > 0
}

/// `jlz` fires on zero and below: the complement of `jgz`, not its mirror.
pub open spec fn jlz_fires(acc: i64) -> bool {
    acc <= 0
}

/// For every accumulator value exactly one of `jgz` and `jlz` fires: they
/// are mutually exclusive and together cover every integer.
pub proof fn lemma_jgz_jlz_split(acc: i64)
    ensures
        jgz_fires(acc) == !jlz_fires(acc),
{
}

/// The value a port yields without suspension: the accumulator, the zero of
/// `nil`, or an immediate. Directions, `any` and `last` yield nothing here.
pub open spec fn immediate_read(n: NodeV, p: Port) -> Option<i64> {
    match p {
        Port::Acc => Some(n.acc),
        Port::Nil => Some(0),
        Port::Value(v) => Some(v),
        _ => None,
    }
}

/// A port whose read or write must pair with a neighbour: a direction, `any`
/// or `last`. The others complete without suspension.
pub open spec fn is_comm_port(p: Port) -> bool {
    !(p is Acc || p is Nil || p is Value)
}

/// The wait target of a communicating port: a fixed direction, `any`, or the
/// direction of the node's most recent `any` resolution for `last`.
pub open spec fn wait_port_of(p: Port, last: Dir) -> WaitPort {
    match p {
        Port::Left => WaitPort::Fixed(Dir::Left),
        Port::Right => WaitPort::Fixed(Dir::Right),
        Port::Up => WaitPort::Fixed(Dir::Up),
        Port::Down => WaitPort::Fixed(Dir::Down),
        Port::Any => WaitPort::Any,
        _ => WaitPort::Fixed(last),
    }
}

/// Where `jro` by `v` lands: the relative target when it is a valid index,
/// else zero, the same wrap the ordinary advance uses.
pub open spec fn jro_dest(pc: int, v: i64, len: int) -> int {
    if 0 <= pc + v < len {
        pc + v
    } else {
        0
    }
}

/// Wrapped 64-bit sum.
pub open spec fn wrap_add(a: i64, b: i64) -> i64 {
    vstd::wrapping::i64_specs::wrapping_add(a, b)
}

/// Wrapped 64-bit difference.
pub open spec fn wrap_sub(a: i64, b: i64) -> i64 {
    vstd::wrapping::i64_specs::wrapping_sub(a, b)
}

/// The node after an ordinary advance of the program counter.
pub open spec fn spec_advance(n: NodeV) -> NodeV {
    NodeV { pc: next_pc(n.pc, n.instructions.len() as int), ..n }
}

/// Writing a just-read value to the destination of a `mov`: registers and
/// sinks complete at once, communicating ports suspend the node into a
/// pending send. An immediate destination never comes out of the parser; it
/// acts as a sink here so the machine is total.
pub open spec fn spec_write(n: NodeV, dst: Port, v: i64) -> NodeV {
    match dst {
        Port::Acc => NodeV { acc: v, ..spec_advance(n) },
        Port::Nil => spec_advance(n),
        Port::Value(_) => spec_advance(n),
        _ => NodeV {
            status: Status::Waiting { port: wait_port_of(dst, n.last), io: WaitIo::Send(v) },
            ..n
        },
    }
}

/// One step of a running node: execute the instruction under the program
/// counter, or suspend on its port. An empty program halts the node.
pub open spec fn spec_step(n: NodeV) -> NodeV
    recommends
        n.wf(),
        n.status is Running,
{
    let len = n.instructions.len() as int;
    if len == 0 {
        NodeV { status: Status::Halted, ..n }
    } else {
        match n.instructions[n.pc] {
            InstrV::Nop => spec_advance(n),
            InstrV::Comment(_) => spec_advance(n),
            InstrV::Swp => NodeV { acc: n.bak, bak: n.acc, ..spec_advance(n) },
            InstrV::Sav => NodeV { bak: n.acc, ..spec_advance(n) },
            InstrV::Neg => NodeV {
                acc: if n.acc < 0 {
                    wrap_sub(n.acc, 1)
                } else {
                    n.acc
                },
                ..spec_advance(n)
            },
            InstrV::CreateLabel(name) => NodeV {
                labels: if label_lookup(n.labels, name) is Some {
                    n.labels
                } else {
                    n.labels.push(LabelEntryV { name, index: n.pc })
                },
                ..spec_advance(n)
            },
            InstrV::Jmp(l) => NodeV { pc: spec_jump_dest(n, l), ..n },
            InstrV::Jez(l) => NodeV {
                pc: if jez_fires(n.acc) {
                    spec_jump_dest(n, l)
                } else {
                    next_pc(n.pc, len)
                },
                ..n
            },
            InstrV::Jnz(l) => NodeV {
                pc: if jnz_fires(n.acc) {
                    spec_jump_dest(n, l)
                } else {
                    next_pc(n.pc, len)
                },
                ..n
            },
            InstrV::Jgz(l) => NodeV {
                pc: if jgz_fires(n.acc) {
                    spec_jump_dest(n, l)
                } else {
                    next_pc(n.pc, len)
                },
                ..n
            },
            InstrV::Jlz(l) => NodeV {
                pc: if jlz_fires(n.acc) {
                    spec_jump_dest(n, l)
                } else {
                    next_pc(n.pc, len)
                },
                ..n
            },
            InstrV::Jro(p) => match immediate_read(n, p) {
                Some(v) => NodeV { pc: jro_dest(n.pc, v, len), ..n },
                None => NodeV {
                    status: Status::Waiting {
                        port: wait_port_of(p, n.last),
                        io: WaitIo::Recv(Cont::Jro),
                    },
                    ..n
                },
            },
            InstrV::Add(p) => match immediate_read(n, p) {
                Some(v) => NodeV { acc: wrap_add(n.acc, v), ..spec_advance(n) },
                None => NodeV {
                    status: Status::Waiting {
                        port: wait_port_of(p, n.last),
                        io: WaitIo::Recv(Cont::Add),
                    },
                    ..n
                },
            },
            InstrV::Sub(p) => match immediate_read(n, p) {
                Some(v) => NodeV { acc: wrap_sub(n.acc, v), ..spec_advance(n) },
                None => NodeV {
                    status: Status::Waiting {
                        port: wait_port_of(p, n.last),
                        io: WaitIo::Recv(Cont::Sub),
                    },
                    ..n
                },
            },
            InstrV::Mov(src, dst) => match immediate_read(n, src) {
                Some(v) => spec_write(n, dst, v),
                None => NodeV {
                    status: Status::Waiting {
                        port: wait_port_of(src, n.last),
                        io: WaitIo::Recv(Cont::Mov(dst)),
                    },
                    ..n
                },
            },
        }
    }
}

/// A node waiting to receive takes delivery of `v` from direction `d`: an
/// `any` wait records `d` as `last`, then the suspended instruction finishes
/// (a `mov` may suspend again, into its pending send).
pub open spec fn spec_deliver(n: NodeV, d: Dir, v: i64) -> NodeV
    recommends
        n.status matches Status::Waiting { io: WaitIo::Recv(_), .. },
{
    match n.status {
        Status::Waiting { port, io: WaitIo::Recv(k) } => {
            let base = NodeV {
                last: if port is Any {
                    d
                } else {
                    n.last
                },
                status: Status::Running,
                ..n
            };
            match k {
                Cont::Add => NodeV { acc: wrap_add(n.acc, v), ..spec_advance(base) },
                Cont::Sub => NodeV { acc: wrap_sub(n.acc, v), ..spec_advance(base) },
                Cont::Jro => NodeV {
                    pc: jro_dest(n.pc, v, n.instructions.len() as int),
                    ..base
                },
                Cont::Mov(dst) => spec_write(base, dst, v),
            }
        },
        _ => n,
    }
}

/// A node waiting to send completes its send through direction `d`: an `any`
/// wait records `d` as `last`, and the instruction finishes.
pub open spec fn spec_complete_send(n: NodeV, d: Dir) -> NodeV
    recommends
        n.status matches Status::Waiting { io: WaitIo::Send(_), .. },
{
    match n.status {
        Status::Waiting { port, io: WaitIo::Send(_) } => NodeV {
            last: if port is Any {
                d
            } else {
                n.last
            },
            status: Status::Running,
            ..spec_advance(n)
        },
        _ => n,
    }
}

/// `label_lookup` ignores a prefix with no matching name.
proof fn lemma_label_lookup_skip(labels: Seq<LabelEntryV>, name: Seq<u8>, i: int)
    requires
        0 <= i <= labels.len(),
        forall|k: int| 0 <= k < i ==> (#[trigger] labels[k]).name != name,
    ensures
        label_lookup(labels, name) == label_lookup(labels.skip(i), name),
    decreases i,
{
    if i > 0 {
        assert(labels[0].name != name);
        assert forall|k: int| 0 <= k < i - 1 implies (#[trigger] labels.skip(1)[k]).name
            != name by {
            assert(labels.skip(1)[k] == labels[k + 1]);
        }
        lemma_label_lookup_skip(labels.skip(1), name, i - 1);
        assert(labels.skip(1).skip(i - 1) =~= labels.skip(i));
    } else {
        assert(labels.skip(0) =~= labels);
    }
}

/// A lookup that found nothing rules the name out of every entry.
proof fn lemma_label_lookup_none(labels: Seq<LabelEntryV>, name: Seq<u8>)
    requires
        label_lookup(labels, name) is None,
    ensures
        forall|k: int| 0 <= k < labels.len() ==> (#[trigger] labels[k]).name != name,
    decreases labels.len(),
{
    if labels.len() > 0 {
        lemma_label_lookup_none(labels.skip(1), name);
        assert forall|k: int| 0 <= k < labels.len() implies (#[trigger] labels[k]).name
            != name by {
            if k > 0 {
                assert(labels.skip(1)[k - 1] == labels[k]);
            }
        }
    }
}

/// Byte-vector equality, as the views have it.
pub fn vec_u8_eq(a: &Vec<u8>, b: &Vec<u8>) -> (r: bool)
    ensures
        r == (a@ == b@),
{
    let hit = a == b;
    proof {
        if hit {
            assert(a@ =~= b@);
        } else {
            if a@ == b@ {
                assert(a@.len() == b@.len());
                assert(false);
            }
        }
    }
    hit
}

impl Node {
    /// A fresh node: zeroed registers, empty program, running, `last`
    /// defaulting to the left direction.
    pub fn new() -> (r: Node)
        ensures
            r@ == spec_new_node(),
            r@.wf(),
    {
        let r = Node {
            acc: 0,
            bak: 0,
            pc: 0,
            label_positions: Vec::new(),
            instructions: Vec::new(),
            status: Status::Running,
            last: Dir::Left,
        };
        proof {
            assert(r@.labels =~= spec_new_node().labels);
            assert(r@.instructions =~= spec_new_node().instructions);
        }
        r
    }

    /// The first recorded index under `name`, as `label_lookup` gives it.
    fn find_label(&self, name: &Vec<u8>) -> (r: Option<usize>)
        ensures
            match label_lookup(self@.labels, name@) {
                Some(ix) => r matches Some(u) && u == ix,
                None => r is None,
            },
            r matches Some(u) ==> exists|k: int|
                0 <= k < self@.labels.len() && (#[trigger] self@.labels[k]).index == u,
    {
        let ghost labels = self@.labels;
        let mut i: usize = 0;
        while i < self.label_positions.len()
            invariant
                i <= self.label_positions.len(),
                labels == self@.labels,
                labels.len() == self.label_positions@.len(),
                forall|k: int| 0 <= k < i ==> (#[trigger] labels[k]).name != name@,
            decreases self.label_positions.len() - i,
        {
            if vec_u8_eq(&self.label_positions[i].label.0, name) {
                proof {
                    lemma_label_lookup_skip(labels, name@, i as int);
                    assert(labels.skip(i as int)[0] == labels[i as int]);
                }
                return Some(self.label_positions[i].index);
            }
            proof {
                assert(labels[i as int] == self.label_positions@[i as int]@);
            }
            i = i + 1;
        }
        proof {
            lemma_label_lookup_skip(labels, name@, labels.len() as int);
            assert(labels.skip(labels.len() as int) =~= Seq::<LabelEntryV>::empty());
        }
        None
    }

    /// Ordinary advance: one forward, wrapping to zero past the end.
    fn step_pc(&mut self)
        requires
            old(self)@.wf(),
        ensures
            final(self)@ == spec_advance(old(self)@),
    {
        let len = self.instructions.len();
        if self.pc + 1 >= len {
            self.pc = 0;
        } else {
            self.pc = self.pc + 1;
        }
    }

    /// Relative jump by `v`, wrapping to zero when the target is no index.
    fn jro_jump(&mut self, v: i64)
        requires
            old(self)@.wf(),
        ensures
            final(self)@ == (NodeV {
                pc: jro_dest(old(self)@.pc, v, old(self)@.instructions.len() as int),
                ..old(self)@
            }),
    {
        let len = self.instructions.len();
        let t: i128 = self.pc as i128 + v as i128;
        if 0 <= t && t < len as i128 {
            self.pc = t as usize;
        } else {
            self.pc = 0;
        }
    }

    /// The wait target of port `p` on this node.
    fn wait_port_for(&self, p: Port) -> (r: WaitPort)
        ensures
            r == wait_port_of(p, self@.last),
    {
        match p {
            Port::Left => WaitPort::Fixed(Dir::Left),
            Port::Right => WaitPort::Fixed(Dir::Right),
            Port::Up => WaitPort::Fixed(Dir::Up),
            Port::Down => WaitPort::Fixed(Dir::Down),
            Port::Any => WaitPort::Any,
            _ => WaitPort::Fixed(self.last),
        }
    }

    /// The value `p` yields without suspension, as `immediate_read` has it.
    fn read_immediate(&self, p: Port) -> (r: Option<i64>)
        ensures
            r == immediate_read(self@, p),
    {
        match p {
            Port::Acc => Some(self.acc),
            Port::Nil => Some(0),
            Port::Value(v) => Some(v),
            _ => None,
        }
    }

    /// Writes a just-read value to the destination of a `mov`.
    fn write_port(&mut self, dst: Port, v: i64)
        requires
            old(self)@.wf(),
        ensures
            final(self)@ == spec_write(old(self)@, dst, v),
            final(self)@.wf(),
    {
        match dst {
            Port::Acc => {
                self.acc = v;
                self.step_pc();
            },
            Port::Nil => {
                self.step_pc();
            },
            Port::Value(_) => {
                self.step_pc();
            },
            _ => {
                let wp = self.wait_port_for(dst);
                self.status = Status::Waiting { port: wp, io: WaitIo::Send(v) };
            },
        }
    }

    /// Executes exactly one instruction or port transition: the running
    /// node's step. The instruction list itself never changes; an empty
    /// program halts the node.
    pub fn run_instruction(&mut self)
        requires
            old(self)@.wf(),
            old(self)@.status is Running,
        ensures
            final(self)@ == spec_step(old(self)@),
            final(self)@.wf(),
    {
        if self.instructions.len() == 0 {
            self.status = Status::Halted;
            return;
        }
        let inst = self.instructions[self.pc].duplicate();
        match inst {
            Instruction::Nop => {
                self.step_pc();
            },
            Instruction::Comment(_) => {
                self.step_pc();
            },
            Instruction::Swp => {
                let t = self.bak;
                self.bak = self.acc;
                self.acc = t;
                self.step_pc();
            },
            Instruction::Sav => {
                self.bak = self.acc;
                self.step_pc();
            },
            Instruction::Neg => {
                if self.acc < 0 {
                    self.acc = self.acc.wrapping_sub(1);
                }
                self.step_pc();
            },
            Instruction::CreateLabel(l) => {
                self.declare_label(l);
                self.step_pc();
            },
            Instruction::Jmp(l) => {
                self.jump_to(&l);
            },
            Instruction::Jez(l) => {
                if self.acc == 0 {
                    self.jump_to(&l);
                } else {
                    self.step_pc();
                }
            },
            Instruction::Jnz(l) => {
                if self.acc != 0 {
                    self.jump_to(&l);
                } else {
                    self.step_pc();
                }
            },
            Instruction::Jgz(l) => {
                if self.acc > 0 {
                    self.jump_to(&l);
                } else {
                    self.step_pc();
                }
            },
            Instruction::Jlz(l) => {
                if self.acc <= 0 {
                    self.jump_to(&l);
                } else {
                    self.step_pc();
                }
            },
            Instruction::Jro(p) => {
                match self.read_immediate(p) {
                    Some(v) => {
                        self.jro_jump(v);
                    },
                    None => {
                        let wp = self.wait_port_for(p);
                        self.status = Status::Waiting { port: wp, io: WaitIo::Recv(Cont::Jro) };
                    },
                }
            },
            Instruction::Add(p) => {
                match self.read_immediate(p) {
                    Some(v) => {
                        self.acc = self.acc.wrapping_add(v);
                        self.step_pc();
                    },
                    None => {
                        let wp = self.wait_port_for(p);
                        self.status = Status::Waiting { port: wp, io: WaitIo::Recv(Cont::Add) };
                    },
                }
            },
            Instruction::Sub(p) => {
                match self.read_immediate(p) {
                    Some(v) => {
                        self.acc = self.acc.wrapping_sub(v);
                        self.step_pc();
                    },
                    None => {
                        let wp = self.wait_port_for(p);
                        self.status = Status::Waiting { port: wp, io: WaitIo::Recv(Cont::Sub) };
                    },
                }
            },
            Instruction::Mov(src, dst) => {
                match self.read_immediate(src) {
                    Some(v) => {
                        self.write_port(dst, v);
                    },
                    None => {
                        let wp = self.wait_port_for(src);
                        self.status = Status::Waiting {
                            port: wp,
                            io: WaitIo::Recv(Cont::Mov(dst)),
                        };
                    },
                }
            },
        }
    }

    /// Jump to a label: the recorded index when resolved, else the fallback
    /// one-step advance.
    fn jump_to(&mut self, l: &Label)
        requires
            old(self)@.wf(),
        ensures
            final(self)@ == (NodeV { pc: spec_jump_dest(old(self)@, l@), ..old(self)@ }),
            final(self)@.wf(),
    {
        match self.find_label(&l.0) {
            Some(ix) => {
                self.pc = ix;
            },
            None => {
                self.step_pc();
            },
        }
    }

    /// Takes delivery of `v` from direction `d` into the pending receive.
    pub fn deliver(&mut self, d: Dir, v: i64)
        requires
            old(self)@.wf(),
            old(self)@.status matches Status::Waiting { io: WaitIo::Recv(_), .. },
        ensures
            final(self)@ == spec_deliver(old(self)@, d, v),
            final(self)@.wf(),
    {
        let (port, k) = match self.status {
            Status::Waiting { port, io: WaitIo::Recv(k) } => (port, k),
            _ => {
                proof {
                    assert(false);
                }
                (WaitPort::Any, Cont::Jro)
            },
        };
        if let WaitPort::Any = port {
            self.last = d;
        }
        self.status = Status::Running;
        match k {
            Cont::Add => {
                self.acc = self.acc.wrapping_add(v);
                self.step_pc();
            },
            Cont::Sub => {
                self.acc = self.acc.wrapping_sub(v);
                self.step_pc();
            },
            Cont::Jro => {
                self.jro_jump(v);
            },
            Cont::Mov(dst) => {
                self.write_port(dst, v);
            },
        }
    }

    /// Completes the pending send through direction `d`.
    pub fn complete_send(&mut self, d: Dir)
        requires
            old(self)@.wf(),
            old(self)@.status matches Status::Waiting { io: WaitIo::Send(_), .. },
        ensures
            final(self)@ == spec_complete_send(old(self)@, d),
            final(self)@.wf(),
    {
        let port = match self.status {
            Status::Waiting { port, io: WaitIo::Send(_) } => port,
            _ => {
                proof {
                    assert(false);
                }
                WaitPort::Any
            },
        };
        if let WaitPort::Any = port {
            self.last = d;
        }
        self.status = Status::Running;
        self.step_pc();
    }

    /// Appends one parsed instruction; registers, counter and labels stay.
    pub fn append_instruction(&mut self, inst: Instruction)
        requires
            old(self)@.wf(),
        ensures
            final(self)@ == (NodeV {
                instructions: old(self)@.instructions.push(inst@),
                ..old(self)@
            }),
            final(self)@.wf(),
    {
        let ghost pre = self@;
        self.instructions.push(inst);
        proof {
            assert(self@.instructions =~= pre.instructions.push(inst@));
        }
    }

    /// Empties the program: instructions and labels go, the counter resets,
    /// the node runs again; registers keep their values.
    pub fn clear_instructions(&mut self)
        requires
            old(self)@.wf(),
        ensures
            final(self)@ == (NodeV {
                instructions: Seq::empty(),
                labels: Seq::empty(),
                pc: 0,
                status: Status::Running,
                ..old(self)@
            }),
            final(self)@.wf(),
    {
        self.instructions = Vec::new();
        self.label_positions = Vec::new();
        self.pc = 0;
        self.status = Status::Running;
        proof {
            assert(self@.instructions =~= Seq::<InstrV>::empty());
            assert(self@.labels =~= Seq::<LabelEntryV>::empty());
        }
    }

    /// Removes and returns the last instruction, if any; labels that pointed
    /// at it are dropped, and a counter left past the end resets to zero.
    pub fn pop_last_instruction(&mut self) -> (r: Option<Instruction>)
        requires
            old(self)@.wf(),
        ensures
            old(self)@.instructions.len() == 0 ==> r is None && final(self)@ == old(self)@,
            old(self)@.instructions.len() > 0 ==> {
                &&& r matches Some(i) && i@ == old(self)@.instructions.last()
                &&& final(self)@.instructions == old(self)@.instructions.drop_last()
                &&& final(self)@.labels == labels_below(
                    old(self)@.labels,
                    old(self)@.instructions.len() - 1,
                )
                &&& final(self)@.pc == (if old(self)@.pc < old(self)@.instructions.len() - 1 {
                    old(self)@.pc
                } else {
                    0
                })
                &&& final(self)@.acc == old(self)@.acc && final(self)@.bak == old(self)@.bak && final(self)@.status
                    == old(self)@.status && final(self)@.last == old(self)@.last
            },
            final(self)@.wf(),
    {
        let ghost pre = self@;
        if self.instructions.len() == 0 {
            return None;
        }
        let popped = match self.instructions.pop() {
            Some(i) => i,
            None => {
                proof {
                    assert(false);
                }
                Instruction::Nop
            },
        };
        proof {
            assert(self@.instructions =~= pre.instructions.drop_last());
        }
        let new_len = self.instructions.len();
        let mut kept: Vec<LabelEntry> = Vec::new();
        let mut i: usize = 0;
        proof {
            assert(labels_below(pre.labels.take(0), new_len as int)
                =~= Seq::<LabelEntryV>::empty());
            assert(kept@.map_values(|e: LabelEntry| e@) =~= Seq::<LabelEntryV>::empty());
        }
        while i < self.label_positions.len()
            invariant
                i <= self.label_positions.len(),
                pre.labels.len() == self.label_positions@.len(),
                forall|k: int|
                    0 <= k < pre.labels.len() ==> pre.labels[k] == (
                    #[trigger] self.label_positions@[k])@,
                kept@.map_values(|e: LabelEntry| e@) == labels_below(
                    pre.labels.take(i as int),
                    new_len as int,
                ),
            decreases self.label_positions.len() - i,
        {
            let ghost prefix = pre.labels.take(i as int);
            proof {
                assert(pre.labels.take(i + 1).drop_last() =~= prefix);
                assert(pre.labels.take(i + 1).last() == pre.labels[i as int]);
            }
            let entry = &self.label_positions[i];
            if entry.index < new_len {
                let copied = LabelEntry { label: entry.label.duplicate(), index: entry.index };
                proof {
                    assert(copied@ == pre.labels[i as int]);
                }
                let ghost kept_pre = kept@.map_values(|e: LabelEntry| e@);
                kept.push(copied);
                proof {
                    assert(kept@.map_values(|e: LabelEntry| e@) =~= kept_pre.push(copied@));
                }
            }
            i = i + 1;
        }
        proof {
            assert(pre.labels.take(pre.labels.len() as int) =~= pre.labels);
        }
        self.label_positions = kept;
        if self.pc >= new_len {
            self.pc = 0;
        }
        proof {
            lemma_labels_below_sub(pre.labels, new_len as int);
            assert forall|j: int|
                0 <= j < self@.labels.len() implies 0 <= (#[trigger] self@.labels[j]).index
                < new_len by {
                let k = choose|k: int|
                    0 <= k < pre.labels.len() && pre.labels[k] == self@.labels[j];
            }
            lemma_labels_below_distinct(pre.labels, new_len as int);
        }
        Some(popped)
    }

    /// Reads a register: the backup when `bak` is set, else the accumulator.
    pub fn read_register(&self, bak: bool) -> (r: i64)
        ensures
            r == if bak {
                self@.bak
            } else {
                self@.acc
            },
    {
        if bak {
            self.bak
        } else {
            self.acc
        }
    }

    /// Writes a register: the backup when `bak` is set, else the accumulator.
    pub fn write_register(&mut self, bak: bool, v: i64)
        requires
            old(self)@.wf(),
        ensures
            final(self)@ == if bak {
                NodeV { bak: v, ..old(self)@ }
            } else {
                NodeV { acc: v, ..old(self)@ }
            },
            final(self)@.wf(),
    {
        if bak {
            self.bak = v;
        } else {
            self.acc = v;
        }
    }

    /// Idempotently records the current program counter under `name`: the
    /// first declaration wins, a redeclaration changes nothing, and a node
    /// with no instructions has nothing to annotate.
    pub fn declare_label(&mut self, name: Label)
        requires
            old(self)@.wf(),
        ensures
            final(self)@.wf(),
            final(self)@ == (NodeV {
                labels: if label_lookup(old(self)@.labels, name@) is Some || old(
                    self,
                )@.instructions.len() == 0 {
                    old(self)@.labels
                } else {
                    old(self)@.labels.push(LabelEntryV { name: name@, index: old(self)@.pc })
                },
                ..old(self)@
            }),
    {
        let ghost pre = self@;
        let ghost lname = name@;
        if self.instructions.len() == 0 {
            return;
        }
        if self.find_label(&name.0).is_none() {
            let entry = LabelEntry { label: name, index: self.pc };
            proof {
                assert(entry@ == (LabelEntryV { name: lname, index: pre.pc }));
                lemma_label_lookup_none(pre.labels, lname);
            }
            self.label_positions.push(entry);
            proof {
                assert(self@.labels =~= pre.labels.push(entry@));
            }
        }
    }

    /// Records one label entry as loaded state: accepted exactly when the
    /// index annotates a real instruction and the name is new.
    pub fn restore_label(&mut self, label: Label, index: usize) -> (ok: bool)
        requires
            old(self)@.wf(),
        ensures
            final(self)@.wf(),
            ok == (index < old(self)@.instructions.len() && label_lookup(
                old(self)@.labels,
                label@,
            ) is None),
            ok ==> final(self)@ == (NodeV {
                labels: old(self)@.labels.push(
                    LabelEntryV { name: label@, index: index as int },
                ),
                ..old(self)@
            }),
            !ok ==> final(self)@ == old(self)@,
    {
        let ghost pre = self@;
        if index >= self.instructions.len() {
            return false;
        }
        match self.find_label(&label.0) {
            Some(_) => false,
            None => {
                let ghost lname = label@;
                let entry = LabelEntry { label, index };
                proof {
                    assert(entry@ == (LabelEntryV { name: lname, index: index as int }));
                    lemma_label_lookup_none(pre.labels, lname);
                }
                self.label_positions.push(entry);
                proof {
                    assert(self@.labels =~= pre.labels.push(entry@));
                }
                true
            },
        }
    }

    /// The observable face of the node: registers, counter, and a structural
    /// copy of the instruction list.
    pub fn inspect(&self) -> (r: (i64, i64, usize, Vec<Instruction>))
        ensures
            r.0 == self@.acc,
            r.1 == self@.bak,
            r.2 == self@.pc,
            r.3@.map_values(|i: Instruction| i@) == self@.instructions,
    {
        let mut insts: Vec<Instruction> = Vec::new();
        let mut i: usize = 0;
        proof {
            assert(insts@.map_values(|i: Instruction| i@) =~= self@.instructions.take(0));
        }
        while i < self.instructions.len()
            invariant
                i <= self.instructions.len(),
                self@.instructions.len() == self.instructions@.len(),
                forall|k: int|
                    0 <= k < self@.instructions.len() ==> self@.instructions[k] == (
                    #[trigger] self.instructions@[k])@,
                insts@.map_values(|i: Instruction| i@) == self@.instructions.take(i as int),
            decreases self.instructions.len() - i,
        {
            let ghost kept_pre = insts@.map_values(|i: Instruction| i@);
            insts.push(self.instructions[i].duplicate());
            proof {
                assert(insts@.map_values(|i: Instruction| i@) =~= kept_pre.push(
                    self@.instructions[i as int],
                ));
                assert(kept_pre.push(self@.instructions[i as int]) =~= self@.instructions.take(
                    i + 1,
                ));
            }
            i = i + 1;
        }
        proof {
            assert(self@.instructions.take(self@.instructions.len() as int)
                =~= self@.instructions);
        }
        (self.acc, self.bak, self.pc, insts)
    }
}

/// An instruction that neither jumps nor touches a port: executing it always
/// advances the counter by exactly one, wrapping at the end.
pub open spec fn is_plain(i: InstrV) -> bool {
    ||| i is Nop
    ||| i is Swp
    ||| i is Sav
    ||| i is Neg
    ||| i is Comment
    ||| i is CreateLabel
}

/// The node after `k` consecutive steps.
pub open spec fn spec_step_n(n: NodeV, k: nat) -> NodeV
    decreases k,
{
    if k == 0 {
        n
    } else {
        spec_step(spec_step_n(n, (k - 1) as nat))
    }
}

/// The wrap-around law: on a program of plain instructions, stepping from
/// counter zero raises the counter by one per step, and exactly as many
/// steps as there are instructions bring it back to zero.
pub proof fn lemma_plain_wraparound(n: NodeV, k: nat)
    requires
        n.status is Running,
        n.pc == 0,
        n.instructions.len() > 0,
        forall|i: int| 0 <= i < n.instructions.len() ==> is_plain(#[trigger] n.instructions[i]),
        k <= n.instructions.len(),
    ensures
        spec_step_n(n, k).pc == if k == n.instructions.len() {
            0int
        } else {
            k as int
        },
        spec_step_n(n, k).status is Running,
        spec_step_n(n, k).instructions == n.instructions,
    decreases k,
{
    if k > 0 {
        lemma_plain_wraparound(n, (k - 1) as nat);
        let prev = spec_step_n(n, (k - 1) as nat);
        assert(is_plain(prev.instructions[prev.pc]));
    }
}

/// `neg` leaves a non-negative accumulator unchanged.
pub proof fn lemma_neg_nonnegative(n: NodeV)
    requires
        n.status is Running,
        0 <= n.pc < n.instructions.len(),
        n.instructions[n.pc] is Neg,
        n.acc >= 0,
    ensures
        spec_step(n).acc == n.acc,
        spec_step(n).bak == n.bak,
{
}

/// `neg` decrements a negative accumulator by exactly one. (At the far end
/// of the range the wrapped machine arithmetic applies instead.)
pub proof fn lemma_neg_negative(n: NodeV)
    requires
        n.status is Running,
        0 <= n.pc < n.instructions.len(),
        n.instructions[n.pc] is Neg,
        i64::MIN < n.acc < 0,
    ensures
        spec_step(n).acc == n.acc - 1,
        spec_step(n).bak == n.bak,
{
}

/// An unresolved jump falls through: the counter advances by exactly one,
/// wrapping at the end, and nothing else changes.
pub proof fn lemma_unresolved_jump(n: NodeV, l: Seq<u8>)
    requires
        n.status is Running,
        0 <= n.pc < n.instructions.len(),
        n.instructions[n.pc] == InstrV::Jmp(l),
        label_lookup(n.labels, l) is None,
    ensures
        spec_step(n).pc == next_pc(n.pc, n.instructions.len() as int),
        spec_step(n).status is Running,
        spec_step(n).acc == n.acc,
        spec_step(n).bak == n.bak,
        spec_step(n).labels == n.labels,
        spec_step(n).instructions == n.instructions,
{
}

/// The label entries whose index lies below `len`, in order.
pub open spec fn labels_below(labels: Seq<LabelEntryV>, len: int) -> Seq<LabelEntryV>
    decreases labels.len(),
{
    if labels.len() == 0 {
        labels
    } else {
        let rest = labels_below(labels.drop_last(), len);
        if labels.last().index < len {
            rest.push(labels.last())
        } else {
            rest
        }
    }
}

/// Every kept entry lies below `len` and is one of the entries given.
proof fn lemma_labels_below_sub(labels: Seq<LabelEntryV>, len: int)
    ensures
        forall|j: int|
            0 <= j < labels_below(labels, len).len() ==> (#[trigger] labels_below(labels, len)[j])
                .index < len && exists|k: int|
                0 <= k < labels.len() && labels[k] == labels_below(labels, len)[j],
    decreases labels.len(),
{
    if labels.len() > 0 {
        let prefix = labels.drop_last();
        lemma_labels_below_sub(prefix, len);
        let lb = labels_below(labels, len);
        let lbp = labels_below(prefix, len);
        assert forall|j: int| 0 <= j < lb.len() implies (#[trigger] lb[j]).index < len && exists|
            k: int,
        | 0 <= k < labels.len() && labels[k] == lb[j] by {
            if j < lbp.len() {
                assert(lb[j] == lbp[j]);
                let k = choose|k: int| 0 <= k < prefix.len() && prefix[k] == lbp[j];
                assert(labels[k] == lb[j]);
            } else {
                assert(lb[j] == labels.last());
                assert(labels[labels.len() - 1] == lb[j]);
            }
        }
    }
}

/// Pruning keeps label names pairwise distinct.
proof fn lemma_labels_below_distinct(labels: Seq<LabelEntryV>, len: int)
    requires
        forall|i: int, j: int|
            0 <= i < j < labels.len() ==> (#[trigger] labels[i]).name != (
            #[trigger] labels[j]).name,
    ensures
        forall|i: int, j: int|
            0 <= i < j < labels_below(labels, len).len() ==> (#[trigger] labels_below(
                labels,
                len,
            )[i]).name != (#[trigger] labels_below(labels, len)[j]).name,
    decreases labels.len(),
{
    if labels.len() > 0 {
        let prefix = labels.drop_last();
        let x = labels.last();
        assert(forall|i: int, j: int|
            0 <= i < j < prefix.len() ==> (#[trigger] prefix[i]).name != (
            #[trigger] prefix[j]).name);
        lemma_labels_below_distinct(prefix, len);
        lemma_labels_below_sub(prefix, len);
        let lb = labels_below(labels, len);
        let lbp = labels_below(prefix, len);
        if x.index < len {
            assert forall|i: int| 0 <= i < lbp.len() implies (#[trigger] lbp[i]).name
                != x.name by {
                let k = choose|k: int| 0 <= k < prefix.len() && prefix[k] == lbp[i];
                assert(labels[k] == prefix[k]);
                assert(labels[k].name != labels[labels.len() - 1].name);
            }
            assert forall|i: int, j: int| 0 <= i < j < lb.len() implies (#[trigger] lb[i]).name
                != (#[trigger] lb[j]).name by {
                if j < lbp.len() {
                    assert(lb[i] == lbp[i] && lb[j] == lbp[j]);
                } else {
                    assert(lb[j] == x);
                    assert(lb[i] == lbp[i]);
                }
            }
        }
    }
}

} // verus!

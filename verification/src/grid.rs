//! The program model and the grid scheduler: the position-indexed collection
//! of nodes, one synchronized tick over all of them, port pairing between
//! neighbours, and structural deadlock detection.
//!
//! Grid coordinates are 64-bit signed pairs and wrap at the ends of the
//! range. Pairing is deterministic: nodes are scanned in storage order, a
//! waiting sender takes the initiative, and a sending `any` port scans left,
//! right, up, down. Deliberately, a receiving `any` faced with several
//! willing senders is served by the first sender in storage order, not by
//! its own directional scan: the tie-break lives with the initiating side,
//! and replay stays reproducible for identical grid state. Within one tick
//! pairing runs to a fixed point, so a value can travel through a whole
//! chain of `mov` nodes in the tick it was sent.

use vstd::prelude::*;
use crate::instr::InstrV;
use crate::node::{
    spec_complete_send, spec_deliver, spec_new_node, spec_step, Node, NodeV, Status, WaitIo,
    WaitPort,
};
use crate::ports::Dir;

verus! {

/// A grid cell address: column, then row. Columns grow rightward, rows grow
/// downward.
#[derive(Clone, Copy, Debug, PartialEq, Eq, Hash, Structural)]
pub struct Pos(pub i64, pub i64);

/// One grid cell: its address and its machine.
#[derive(Debug)]
pub struct GridEntry {
    pub pos: Pos,
    pub node: Node,
}

/// Mathematical image of a `GridEntry`.
pub struct EntryV {
    pub pos: Pos,
    pub node: NodeV,
}

impl View for GridEntry {
    type V = EntryV;

    open spec fn view(&self) -> EntryV {
        EntryV { pos: self.pos, node: self.node@ }
    }
}

/// The whole addressable program: the grid and the authoring cursor the
/// surrounding shell moves around.
#[derive(Debug)]
pub struct Program {
    pub pos: Pos,
    pub nodes: Vec<GridEntry>,
}

/// Mathematical image of a `Program`.
pub struct ProgramV {
    pub pos: Pos,
    pub nodes: Seq<EntryV>,
}

impl View for Program {
    type V = ProgramV;

    open spec fn view(&self) -> ProgramV {
        ProgramV { pos: self.pos, nodes: self.nodes@.map_values(|e: GridEntry| e@) }
    }
}

impl ProgramV {
    /// Structural soundness: cell addresses are unique and every machine is
    /// well formed.
    pub open spec fn wf(self) -> bool {
        &&& forall|i: int, j: int|
            0 <= i < j < self.nodes.len() ==> (#[trigger] self.nodes[i]).pos != (
            #[trigger] self.nodes[j]).pos
        &&& forall|i: int| 0 <= i < self.nodes.len() ==> (#[trigger] self.nodes[i]).node.wf()
    }
}

/// The address one step in direction `d`, wrapping at the ends of the range.
pub open spec fn spec_neighbor(p: Pos, d: Dir) -> Pos {
    match d {
        Dir::Left => Pos(crate::node::wrap_sub(p.0, 1), p.1),
        Dir::Right => Pos(crate::node::wrap_add(p.0, 1), p.1),
        Dir::Up => Pos(p.0, crate::node::wrap_sub(p.1, 1)),
        Dir::Down => Pos(p.0, crate::node::wrap_add(p.1, 1)),
    }
}

/// A step in any direction leaves the cell.
pub proof fn lemma_neighbor_moves(p: Pos, d: Dir)
    ensures
        spec_neighbor(p, d) != p,
{
}

/// The first index holding address `p`, if any.
pub open spec fn grid_index_of(nodes: Seq<EntryV>, p: Pos) -> Option<int>
    decreases nodes.len(),
{
    if nodes.len() == 0 {
        None
    } else if nodes[0].pos == p {
        Some(0)
    } else {
        match grid_index_of(nodes.skip(1), p) {
            Some(i) => Some(i + 1),
            None => None,
        }
    }
}

/// A scan that saw no hit before `i` pins `grid_index_of` down.
proof fn lemma_grid_index_of(nodes: Seq<EntryV>, p: Pos, i: int)
    requires
        0 <= i <= nodes.len(),
        forall|k: int| 0 <= k < i ==> (#[trigger] nodes[k]).pos != p,
        i == nodes.len() || nodes[i].pos == p,
    ensures
        grid_index_of(nodes, p) == if i == nodes.len() {
            None::<int>
        } else {
            Some(i)
        },
    decreases i,
{
    if i == 0 {
        if nodes.len() > 0 && nodes[0].pos != p {
            assert(false);
        }
    } else {
        assert(nodes[0].pos != p);
        assert forall|k: int| 0 <= k < i - 1 implies (#[trigger] nodes.skip(1)[k]).pos != p by {
            assert(nodes.skip(1)[k] == nodes[k + 1]);
        }
        if i < nodes.len() {
            assert(nodes.skip(1)[i - 1] == nodes[i]);
        }
        lemma_grid_index_of(nodes.skip(1), p, i - 1);
    }
}

/// Whether status `s` is a pending port operation open toward direction `d`:
/// a send when `sending`, a receive otherwise, on `d` itself or on `any`.
pub open spec fn wait_covers(s: Status, d: Dir, sending: bool) -> bool {
    match s {
        Status::Waiting { port, io } => {
            &&& (match io {
                WaitIo::Send(_) => sending,
                WaitIo::Recv(_) => !sending,
            })
            &&& (port == WaitPort::Any || port == WaitPort::Fixed(d))
        },
        _ => false,
    }
}

/// The value a pending send offers.
pub open spec fn pending_value(s: Status) -> i64 {
    match s {
        Status::Waiting { io: WaitIo::Send(v), .. } => v,
        _ => 0,
    }
}

/// One transfer is possible: the node at `i` has a pending send open toward
/// `d`, and the cell one step in `d` holds a node with a pending receive open
/// back toward it.
pub open spec fn spec_can_pair(nodes: Seq<EntryV>, i: int, j: int, d: Dir) -> bool {
    &&& 0 <= i < nodes.len()
    &&& 0 <= j < nodes.len()
    &&& nodes[j].pos == spec_neighbor(nodes[i].pos, d)
    &&& wait_covers(nodes[i].node.status, d, true)
    &&& wait_covers(nodes[j].node.status, d.spec_mirror(), false)
}

/// How many port phases a status still owes this tick: one for a pending
/// send or plain receive, two for the receive of a `mov` that must send on.
pub open spec fn phase_count(s: Status) -> nat {
    match s {
        Status::Waiting { io: WaitIo::Send(_), .. } => 1,
        Status::Waiting { io: WaitIo::Recv(k), .. } => match k {
            crate::node::Cont::Mov(dst) => if crate::node::is_comm_port(dst) {
                2
            } else {
                1
            },
            _ => 1,
        },
        _ => 0,
    }
}

/// The port phases still owed by the whole grid.
pub open spec fn total_phases(nodes: Seq<EntryV>) -> nat
    decreases nodes.len(),
{
    if nodes.len() == 0 {
        0
    } else {
        phase_count(nodes[0].node.status) + total_phases(nodes.skip(1))
    }
}

/// Replacing one entry moves the total by the difference of its phases.
proof fn lemma_total_phases_update(nodes: Seq<EntryV>, i: int, e: EntryV)
    requires
        0 <= i < nodes.len(),
    ensures
        total_phases(nodes.update(i, e)) + phase_count(nodes[i].node.status) == total_phases(nodes)
            + phase_count(e.node.status),
    decreases nodes.len(),
{
    if i == 0 {
        assert(nodes.update(0, e).skip(1) =~= nodes.skip(1));
    } else {
        lemma_total_phases_update(nodes.skip(1), i - 1, e);
        assert(nodes.update(i, e).skip(1) =~= nodes.skip(1).update(i - 1, e));
        assert(nodes.skip(1)[i - 1] == nodes[i]);
    }
}

/// One completed transfer at a pairable `(i, j, d)`: the sender finishes its
/// send through `d`, and the receiver takes delivery of exactly the sender's
/// pending value from its mirror side.
pub open spec fn spec_transfer(nodes: Seq<EntryV>, i: int, j: int, d: Dir) -> Seq<EntryV> {
    nodes.update(
        i,
        EntryV { pos: nodes[i].pos, node: spec_complete_send(nodes[i].node, d) },
    ).update(
        j,
        EntryV {
            pos: nodes[j].pos,
            node: spec_deliver(nodes[j].node, d.spec_mirror(), pending_value(nodes[i].node.status)),
        },
    )
}

/// No pair of pending port operations can be served.
pub open spec fn spec_no_pair(nodes: Seq<EntryV>) -> bool {
    forall|i: int, j: int, d: Dir| !spec_can_pair(nodes, i, j, d)
}

/// A pairable transfer pays two owed phases and leaves two distinct cells.
proof fn lemma_transfer_phases(nodes: Seq<EntryV>, i: int, j: int, d: Dir)
    requires
        spec_can_pair(nodes, i, j, d),
    ensures
        i != j,
        total_phases(spec_transfer(nodes, i, j, d)) + 2 == total_phases(nodes),
{
    lemma_neighbor_moves(nodes[i].pos, d);
    let sender_after = EntryV { pos: nodes[i].pos, node: spec_complete_send(nodes[i].node, d) };
    let receiver_after = EntryV {
        pos: nodes[j].pos,
        node: spec_deliver(nodes[j].node, d.spec_mirror(), pending_value(nodes[i].node.status)),
    };
    let mid = nodes.update(i, sender_after);
    lemma_send_shape(nodes[i].node, d);
    lemma_deliver_shape(nodes[j].node, d.spec_mirror(), pending_value(nodes[i].node.status));
    lemma_total_phases_update(nodes, i, sender_after);
    lemma_total_phases_update(mid, j, receiver_after);
    assert(mid[j] == nodes[j]);
}

/// The pairing fixed point: `b` is reachable from `a` by completed
/// transfers — each delivering the sender's pending value to the receiver on
/// the paired edge — until no pair is left to serve.
pub open spec fn settles_to(a: Seq<EntryV>, b: Seq<EntryV>) -> bool
    decreases total_phases(a),
    via settles_to_decreases
{
    if spec_no_pair(a) {
        a == b
    } else {
        exists|i: int, j: int, d: Dir|
            #[trigger] spec_can_pair(a, i, j, d) && settles_to(spec_transfer(a, i, j, d), b)
    }
}

#[via_fn]
proof fn settles_to_decreases(a: Seq<EntryV>, b: Seq<EntryV>) {
    assert forall|i: int, j: int, d: Dir| spec_can_pair(a, i, j, d) implies total_phases(
        spec_transfer(a, i, j, d),
    ) < total_phases(a) by {
        lemma_transfer_phases(a, i, j, d);
    }
}

/// The grid after the execution sweep: every running node has taken its
/// step, every other node stands as it was.
pub open spec fn spec_phase_a(nodes: Seq<EntryV>) -> Seq<EntryV> {
    nodes.map_values(
        |e: EntryV| EntryV {
            pos: e.pos,
            node: if e.node.status is Running {
                spec_step(e.node)
            } else {
                e.node
            },
        },
    )
}

/// Some running node completes an instruction outright in the sweep.
pub open spec fn spec_sweep_progress(nodes: Seq<EntryV>) -> bool {
    exists|k: int|
        0 <= k < nodes.len() && (#[trigger] nodes[k]).node.status is Running && spec_step(
            nodes[k].node,
        ).status is Running
}

/// The addresses of the halted cells, in storage order.
pub open spec fn halted_list(nodes: Seq<EntryV>) -> Seq<Pos>
    decreases nodes.len(),
{
    if nodes.len() == 0 {
        Seq::empty()
    } else {
        let rest = halted_list(nodes.drop_last());
        if nodes.last().node.status is Halted {
            rest.push(nodes.last().pos)
        } else {
            rest
        }
    }
}

/// What one step can do to the shape of a running node: it halts exactly on
/// an empty program, never edits the program, and never touches the
/// registers of a node it suspends.
proof fn lemma_step_shape(n: NodeV)
    requires
        n.status is Running,
    ensures
        (spec_step(n).status is Halted) == (n.instructions.len() == 0),
        spec_step(n).instructions == n.instructions,
        spec_step(n).status is Waiting ==> spec_step(n).acc == n.acc && spec_step(n).bak == n.bak,
{
    if n.instructions.len() > 0 {
        match n.instructions[n.pc] {
            InstrV::Mov(src, dst) => {
                if crate::node::immediate_read(n, src) is Some {
                    match dst {
                        _ => {},
                    }
                }
            },
            _ => {},
        }
    }
}

/// What a delivery can do to the shape of a waiting receiver: the program
/// stands, the node never halts, a node that stays suspended (the send half
/// of its `mov`) keeps its registers, and exactly one owed phase is paid.
proof fn lemma_deliver_shape(n: NodeV, d: Dir, v: i64)
    requires
        n.status matches Status::Waiting { io: WaitIo::Recv(_), .. },
    ensures
        spec_deliver(n, d, v).instructions == n.instructions,
        spec_deliver(n, d, v).labels == n.labels,
        !(spec_deliver(n, d, v).status is Halted),
        spec_deliver(n, d, v).status is Waiting ==> spec_deliver(n, d, v).acc == n.acc
            && spec_deliver(n, d, v).bak == n.bak,
        phase_count(spec_deliver(n, d, v).status) + 1 == phase_count(n.status),
{
    match n.status {
        Status::Waiting { port, io: WaitIo::Recv(k) } => {
            match k {
                crate::node::Cont::Mov(dst) => {
                    match dst {
                        _ => {},
                    }
                },
                _ => {},
            }
        },
        _ => {},
    }
}

/// Completing a send runs the sender again, pays its one owed phase, and
/// leaves its registers and program alone.
proof fn lemma_send_shape(n: NodeV, d: Dir)
    requires
        n.status matches Status::Waiting { io: WaitIo::Send(_), .. },
    ensures
        spec_complete_send(n, d).instructions == n.instructions,
        spec_complete_send(n, d).labels == n.labels,
        spec_complete_send(n, d).status is Running,
        spec_complete_send(n, d).acc == n.acc && spec_complete_send(n, d).bak == n.bak,
        phase_count(spec_complete_send(n, d).status) == 0,
        phase_count(n.status) == 1,
{
}

/// Some node is not halted.
pub open spec fn spec_any_alive(nodes: Seq<EntryV>) -> bool {
    exists|k: int| 0 <= k < nodes.len() && !((#[trigger] nodes[k]).node.status is Halted)
}

/// Every node is halted or suspended on a port.
pub open spec fn spec_all_blocked(nodes: Seq<EntryV>) -> bool {
    forall|k: int|
        0 <= k < nodes.len() ==> ((#[trigger] nodes[k]).node.status is Halted
            || nodes[k].node.status is Waiting)
}

/// Whole-grid deadlock: someone is left, and everyone left is suspended.
pub open spec fn spec_deadlocked(nodes: Seq<EntryV>) -> bool {
    spec_any_alive(nodes) && spec_all_blocked(nodes)
}

/// What one grid tick reports back.
#[derive(Debug)]
pub struct TickReport {
    /// Whether any node completed an instruction or any value moved.
    pub progressed: bool,
    /// The addresses of the halted cells, in storage order.
    pub halted_positions: Vec<Pos>,
    /// Whole-grid deadlock: someone is left, and everyone left is stuck
    /// waiting on a port no neighbour will serve.
    pub deadlocked: bool,
}

impl Program {
    /// An empty grid with the cursor at the origin.
    pub fn new() -> (r: Program)
        ensures
            r@.pos == Pos(0, 0),
            r@.nodes == Seq::<EntryV>::empty(),
            r@.wf(),
    {
        let r = Program { pos: Pos(0, 0), nodes: Vec::new() };
        proof {
            assert(r@.nodes =~= Seq::<EntryV>::empty());
        }
        r
    }

    /// The index of the cell at `p`, if the grid has one.
    pub fn find_node(&self, p: Pos) -> (r: Option<usize>)
        ensures
            match grid_index_of(self@.nodes, p) {
                Some(ix) => r matches Some(u) && u == ix,
                None => r is None,
            },
            r matches Some(u) ==> u < self@.nodes.len() && self@.nodes[u as int].pos == p,
            r is None ==> forall|k: int|
                0 <= k < self@.nodes.len() ==> (#[trigger] self@.nodes[k]).pos != p,
    {
        let ghost nodes = self@.nodes;
        let mut i: usize = 0;
        while i < self.nodes.len()
            invariant
                i <= self.nodes.len(),
                nodes == self@.nodes,
                nodes.len() == self.nodes@.len(),
                forall|k: int| 0 <= k < i ==> (#[trigger] nodes[k]).pos != p,
            decreases self.nodes.len() - i,
        {
            proof {
                assert(nodes[i as int] == self.nodes@[i as int]@);
            }
            if self.nodes[i].pos == p {
                proof {
                    lemma_grid_index_of(nodes, p, i as int);
                }
                return Some(i);
            }
            i = i + 1;
        }
        proof {
            lemma_grid_index_of(nodes, p, nodes.len() as int);
        }
        None
    }

    /// The index of the cell at `pos`, creating a fresh node there when the
    /// grid has none.
    pub fn get_node(&mut self, pos: Pos) -> (i: usize)
        requires
            old(self)@.wf(),
        ensures
            final(self)@.wf(),
            final(self)@.pos == old(self)@.pos,
            i < final(self)@.nodes.len(),
            final(self)@.nodes[i as int].pos == pos,
            match grid_index_of(old(self)@.nodes, pos) {
                Some(j) => final(self)@ == old(self)@ && i == j,
                None => final(self)@.nodes == old(self)@.nodes.push(
                    EntryV { pos, node: spec_new_node() },
                ) && i == old(self)@.nodes.len(),
            },
    {
        match self.find_node(pos) {
            Some(i) => i,
            None => {
                let ghost pre = self@.nodes;
                let i = self.nodes.len();
                let entry = GridEntry { pos, node: Node::new() };
                self.nodes.push(entry);
                proof {
                    assert(self@.nodes =~= pre.push(EntryV { pos, node: spec_new_node() }));
                }
                i
            },
        }
    }

    /// The address one step in direction `d`, wrapping at the ends.
    fn neighbor_of(p: Pos, d: Dir) -> (r: Pos)
        ensures
            r == spec_neighbor(p, d),
    {
        match d {
            Dir::Left => Pos(p.0.wrapping_sub(1), p.1),
            Dir::Right => Pos(p.0.wrapping_add(1), p.1),
            Dir::Up => Pos(p.0, p.1.wrapping_sub(1)),
            Dir::Down => Pos(p.0, p.1.wrapping_add(1)),
        }
    }

    /// Whether the pending send of node `i` can be served through `d`.
    fn check_dir(&self, i: usize, d: Dir) -> (r: Option<usize>)
        requires
            self@.wf(),
            i < self@.nodes.len(),
            wait_covers(self@.nodes[i as int].node.status, d, true),
        ensures
            r matches Some(j) ==> spec_can_pair(self@.nodes, i as int, j as int, d),
            r is None ==> forall|j: int| !spec_can_pair(self@.nodes, i as int, j, d),
    {
        let target = Self::neighbor_of(self.nodes[i].pos, d);
        proof {
            assert(self@.nodes[i as int].pos == self.nodes@[i as int]@.pos);
        }
        match self.find_node(target) {
            Some(j) => {
                let st = self.nodes[j].node.status;
                proof {
                    assert(st == self@.nodes[j as int].node.status);
                }
                let md = d.mirror();
                let ok = match st {
                    Status::Waiting { port, io: WaitIo::Recv(_) } => match port {
                        WaitPort::Any => true,
                        WaitPort::Fixed(pd) => pd == md,
                    },
                    _ => false,
                };
                if ok {
                    Some(j)
                } else {
                    proof {
                        assert forall|j2: int| !spec_can_pair(self@.nodes, i as int, j2, d) by {
                            if spec_can_pair(self@.nodes, i as int, j2, d) {
                                if j2 != j as int {
                                    assert(self@.nodes[j2].pos == self@.nodes[j as int].pos);
                                    assert(false);
                                }
                                assert(wait_covers(st, d.spec_mirror(), false));
                                assert(false);
                            }
                        }
                    }
                    None
                }
            },
            None => {
                proof {
                    assert forall|j2: int| !spec_can_pair(self@.nodes, i as int, j2, d) by {
                        if spec_can_pair(self@.nodes, i as int, j2, d) {
                            assert(self@.nodes[j2].pos == target);
                            assert(false);
                        }
                    }
                }
                None
            },
        }
    }

    /// The first serviceable transfer out of the pending send of node `i`,
    /// an `any` port scanning left, right, up, down.
    fn sender_pair_at(&self, i: usize) -> (r: Option<(usize, Dir)>)
        requires
            self@.wf(),
            i < self@.nodes.len(),
        ensures
            r matches Some(t) ==> spec_can_pair(self@.nodes, i as int, t.0 as int, t.1),
            r is None ==> forall|j: int, d: Dir| !spec_can_pair(self@.nodes, i as int, j, d),
    {
        let st = self.nodes[i].node.status;
        proof {
            assert(st == self@.nodes[i as int].node.status);
        }
        match st {
            Status::Waiting { port, io: WaitIo::Send(_) } => {
                match port {
                    WaitPort::Fixed(d) => {
                        match self.check_dir(i, d) {
                            Some(j) => Some((j, d)),
                            None => {
                                proof {
                                    assert forall|j: int, d2: Dir|
                                        !spec_can_pair(self@.nodes, i as int, j, d2) by {
                                        if spec_can_pair(self@.nodes, i as int, j, d2) {
                                            assert(d2 == d);
                                            assert(false);
                                        }
                                    }
                                }
                                None
                            },
                        }
                    },
                    WaitPort::Any => {
                        if let Some(j) = self.check_dir(i, Dir::Left) {
                            return Some((j, Dir::Left));
                        }
                        if let Some(j) = self.check_dir(i, Dir::Right) {
                            return Some((j, Dir::Right));
                        }
                        if let Some(j) = self.check_dir(i, Dir::Up) {
                            return Some((j, Dir::Up));
                        }
                        if let Some(j) = self.check_dir(i, Dir::Down) {
                            return Some((j, Dir::Down));
                        }
                        proof {
                            assert forall|j: int, d2: Dir|
                                !spec_can_pair(self@.nodes, i as int, j, d2) by {
                                if spec_can_pair(self@.nodes, i as int, j, d2) {
                                    match d2 {
                                        Dir::Left => {
                                            assert(false);
                                        },
                                        Dir::Right => {
                                            assert(false);
                                        },
                                        Dir::Up => {
                                            assert(false);
                                        },
                                        Dir::Down => {
                                            assert(false);
                                        },
                                    }
                                }
                            }
                        }
                        None
                    },
                }
            },
            _ => {
                proof {
                    assert forall|j: int, d: Dir| !spec_can_pair(self@.nodes, i as int, j, d) by {
                        if spec_can_pair(self@.nodes, i as int, j, d) {
                            assert(wait_covers(st, d, true));
                            assert(false);
                        }
                    }
                }
                None
            },
        }
    }

    /// The first serviceable transfer in storage order.
    fn find_pair(&self) -> (r: Option<(usize, usize, Dir)>)
        requires
            self@.wf(),
        ensures
            r matches Some(t) ==> spec_can_pair(self@.nodes, t.0 as int, t.1 as int, t.2),
            r is None ==> forall|i: int, j: int, d: Dir| !spec_can_pair(self@.nodes, i, j, d),
    {
        let mut i: usize = 0;
        while i < self.nodes.len()
            invariant
                self@.wf(),
                i <= self@.nodes.len(),
                self@.nodes.len() == self.nodes@.len(),
                forall|i2: int, j: int, d: Dir|
                    0 <= i2 < i ==> !spec_can_pair(self@.nodes, i2, j, d),
            decreases self.nodes@.len() - i,
        {
            match self.sender_pair_at(i) {
                Some((j, d)) => {
                    return Some((i, j, d));
                },
                None => {},
            }
            i = i + 1;
        }
        proof {
            assert forall|i2: int, j: int, d: Dir| !spec_can_pair(self@.nodes, i2, j, d) by {
                if spec_can_pair(self@.nodes, i2, j, d) {
                    assert(0 <= i2 < self@.nodes.len());
                    assert(false);
                }
            }
        }
        None
    }

    /// Performs one transfer: the sender at `i` completes its send through
    /// `d`, and the receiver at `j` takes delivery of the sent value from its
    /// mirror side, in the same tick, atomically for the rest of the grid.
    fn transfer(&mut self, i: usize, j: usize, d: Dir)
        requires
            old(self)@.wf(),
            spec_can_pair(old(self)@.nodes, i as int, j as int, d),
        ensures
            final(self)@.wf(),
            final(self)@.pos == old(self)@.pos,
            final(self)@.nodes == spec_transfer(old(self)@.nodes, i as int, j as int, d),
            total_phases(final(self)@.nodes) + 2 == total_phases(old(self)@.nodes),
    {
        proof {
            lemma_neighbor_moves(old(self)@.nodes[i as int].pos, d);
            if i == j {
                assert(false);
            }
        }
        let v = match self.nodes[i].node.status {
            Status::Waiting { io: WaitIo::Send(sent), .. } => sent,
            _ => {
                proof {
                    assert(false);
                }
                0
            },
        };
        let ghost pre = self@.nodes;
        let ghost sender_after = EntryV {
            pos: pre[i as int].pos,
            node: spec_complete_send(pre[i as int].node, d),
        };
        self.nodes[i].node.complete_send(d);
        proof {
            assert(self@.nodes =~= pre.update(i as int, sender_after));
        }
        let md = d.mirror();
        let ghost mid = self@.nodes;
        let ghost receiver_after = EntryV {
            pos: pre[j as int].pos,
            node: spec_deliver(pre[j as int].node, d.spec_mirror(), v),
        };
        self.nodes[j].node.deliver(md, v);
        proof {
            assert(self@.nodes =~= mid.update(j as int, receiver_after));
            assert(self@.nodes =~= pre.update(i as int, sender_after).update(
                j as int,
                receiver_after,
            ));
            lemma_send_shape(pre[i as int].node, d);
            lemma_deliver_shape(pre[j as int].node, d.spec_mirror(), v);
            lemma_total_phases_update(pre, i as int, sender_after);
            lemma_total_phases_update(mid, j as int, receiver_after);
            assert(mid[j as int] == pre[j as int]);
            assert forall|a: int, b: int|
                0 <= a < b < self@.nodes.len() implies (#[trigger] self@.nodes[a]).pos != (
            #[trigger] self@.nodes[b]).pos by {
                assert(self@.nodes[a].pos == pre[a].pos);
                assert(self@.nodes[b].pos == pre[b].pos);
            }
        }
    }

    /// The execution sweep: every running node takes exactly one step.
    fn sweep(&mut self) -> (progressed: bool)
        requires
            old(self)@.wf(),
        ensures
            final(self)@.wf(),
            final(self)@.pos == old(self)@.pos,
            final(self)@.nodes == spec_phase_a(old(self)@.nodes),
            progressed == spec_sweep_progress(old(self)@.nodes),
    {
        let ghost old0 = self@.nodes;
        let ghost oldpos = self@.pos;
        let n = self.nodes.len();
        let mut idx: usize = 0;
        let mut prog_a = false;
        while idx < n
            invariant
                idx <= n,
                n == old0.len(),
                self@.nodes.len() == n,
                self@.nodes.len() == self.nodes@.len(),
                self@.pos == oldpos,
                forall|k: int| idx <= k < n ==> #[trigger] self@.nodes[k] == old0[k],
                forall|k: int|
                    0 <= k < idx ==> #[trigger] self@.nodes[k] == (EntryV {
                        pos: old0[k].pos,
                        node: if old0[k].node.status is Running {
                            spec_step(old0[k].node)
                        } else {
                            old0[k].node
                        },
                    }),
                forall|k: int| 0 <= k < n ==> (#[trigger] self@.nodes[k]).node.wf(),
                forall|k: int| 0 <= k < n ==> (#[trigger] self@.nodes[k]).pos == old0[k].pos,
                forall|i2: int, j2: int|
                    0 <= i2 < j2 < n ==> (#[trigger] old0[i2]).pos != (#[trigger] old0[j2]).pos,
                prog_a == exists|k: int|
                    0 <= k < idx && (#[trigger] old0[k]).node.status is Running && spec_step(
                        old0[k].node,
                    ).status is Running,
            decreases n - idx,
        {
            let ghost pre = self@.nodes;
            proof {
                assert(self@.nodes[idx as int] == self.nodes@[idx as int]@);
            }
            let st = self.nodes[idx].node.status;
            if let Status::Running = st {
                self.nodes[idx].node.run_instruction();
                proof {
                    assert(self@.nodes[idx as int] == self.nodes@[idx as int]@);
                    assert(self@.nodes =~= pre.update(
                        idx as int,
                        EntryV { pos: old0[idx as int].pos, node: spec_step(old0[idx as int].node) },
                    ));
                }
                proof {
                    assert(self@.nodes[idx as int] == self.nodes@[idx as int]@);
                }
                let st2 = self.nodes[idx].node.status;
                if let Status::Running = st2 {
                    proof {
                        assert(old0[idx as int].node.status is Running && spec_step(
                            old0[idx as int].node,
                        ).status is Running);
                    }
                    prog_a = true;
                } else {
                    proof {
                        assert(!(spec_step(old0[idx as int].node).status is Running));
                    }
                }
            }
            proof {
                if prog_a {
                    assert(exists|k: int|
                        0 <= k < idx + 1 && (#[trigger] old0[k]).node.status is Running
                            && spec_step(old0[k].node).status is Running);
                }
            }
            idx = idx + 1;
        }
        proof {
            assert(self@.nodes =~= spec_phase_a(old0));
            assert(prog_a == spec_sweep_progress(old0));
        }
        prog_a
    }

    /// One pass over the grid: whether anyone is not halted, whether everyone
    /// is halted or waiting, and the halted addresses in storage order.
    fn survey(&self) -> (r: (bool, bool, Vec<Pos>))
        ensures
            r.0 == spec_any_alive(self@.nodes),
            r.1 == spec_all_blocked(self@.nodes),
            r.2@ == halted_list(self@.nodes),
    {
        let n = self.nodes.len();
        let mut any_alive = false;
        let mut all_waiting = true;
        let mut halted: Vec<Pos> = Vec::new();
        let mut k: usize = 0;
        proof {
            assert(halted_list(self@.nodes.take(0)) =~= Seq::<Pos>::empty());
            assert(halted@ =~= Seq::<Pos>::empty());
        }
        while k < n
            invariant
                k <= n,
                n == self@.nodes.len(),
                self@.nodes.len() == self.nodes@.len(),
                halted@ == halted_list(self@.nodes.take(k as int)),
                any_alive == exists|k2: int|
                    0 <= k2 < k && !((#[trigger] self@.nodes[k2]).node.status is Halted),
                all_waiting == forall|k2: int|
                    0 <= k2 < k ==> ((#[trigger] self@.nodes[k2]).node.status is Halted
                        || self@.nodes[k2].node.status is Waiting),
            decreases n - k,
        {
            proof {
                assert(self@.nodes.take(k + 1).drop_last() =~= self@.nodes.take(k as int));
                assert(self@.nodes.take(k + 1).last() == self@.nodes[k as int]);
                assert(self@.nodes[k as int] == self.nodes@[k as int]@);
            }
            let ghost halted_pre = halted@;
            let st = self.nodes[k].node.status;
            match st {
                Status::Halted => {
                    halted.push(self.nodes[k].pos);
                    proof {
                        assert(halted@ =~= halted_pre.push(self@.nodes[k as int].pos));
                    }
                },
                Status::Waiting { .. } => {
                    any_alive = true;
                },
                Status::Running => {
                    any_alive = true;
                    all_waiting = false;
                },
            }
            k = k + 1;
        }
        proof {
            assert(self@.nodes.take(n as int) =~= self@.nodes);
        }
        (any_alive, all_waiting, halted)
    }

    /// Advances the whole grid by one synchronized tick. Every running node
    /// executes at most one instruction; pending port operations then pair up
    /// to a fixed point, senders taking the initiative in storage order, an
    /// `any` port scanning left, right, up, down. The report says whether
    /// anything progressed, which cells are halted, and whether the grid is
    /// deadlocked: someone is left and everyone left is waiting on a port no
    /// neighbour will serve. A deadlocked tick mutates no register.
    pub fn tick(&mut self) -> (r: TickReport)
        requires
            old(self)@.wf(),
        ensures
            final(self)@.wf(),
            final(self)@.pos == old(self)@.pos,
            final(self)@.nodes.len() == old(self)@.nodes.len(),
            forall|k: int|
                0 <= k < old(self)@.nodes.len() ==> (#[trigger] final(self)@.nodes[k]).pos
                    == old(self)@.nodes[k].pos,
            forall|k: int|
                0 <= k < old(self)@.nodes.len() ==> (
                #[trigger] final(self)@.nodes[k]).node.instructions
                    == old(self)@.nodes[k].node.instructions,
            forall|k: int|
                0 <= k < old(self)@.nodes.len() ==> ((
                #[trigger] final(self)@.nodes[k]).node.status is Halted) == (
                old(self)@.nodes[k].node.status is Halted || (
                old(self)@.nodes[k].node.status is Running
                    && old(self)@.nodes[k].node.instructions.len() == 0)),
            forall|i: int, j: int, d: Dir| !spec_can_pair(final(self)@.nodes, i, j, d),
            settles_to(spec_phase_a(old(self)@.nodes), final(self)@.nodes),
            r.halted_positions@ == halted_list(final(self)@.nodes),
            r.deadlocked == spec_deadlocked(final(self)@.nodes),
            r.deadlocked ==> forall|k: int|
                0 <= k < old(self)@.nodes.len() ==> (#[trigger] final(self)@.nodes[k]).node.acc
                    == old(self)@.nodes[k].node.acc && final(self)@.nodes[k].node.bak
                    == old(self)@.nodes[k].node.bak,
            r.progressed == (spec_sweep_progress(old(self)@.nodes) || exists|
                i: int,
                j: int,
                d: Dir,
            | spec_can_pair(spec_phase_a(old(self)@.nodes), i, j, d)),
            !r.progressed ==> final(self)@.nodes == spec_phase_a(old(self)@.nodes),
    {
        let ghost old0 = self@.nodes;
        let ghost oldpos = self@.pos;
        let n = self.nodes.len();
        let prog_a = self.sweep();
        let ghost after_a = self@.nodes;
        let ghost pair_b = exists|i: int, j: int, d: Dir| spec_can_pair(after_a, i, j, d);
        proof {
            assert forall|k: int| 0 <= k < n implies ((#[trigger] after_a[k]).node.instructions
                == old0[k].node.instructions && ((after_a[k].node.status is Halted) == (
            old0[k].node.status is Halted || (old0[k].node.status is Running
                && old0[k].node.instructions.len() == 0))) && ((after_a[k].node.status is Waiting
                || after_a[k].node.status is Halted) ==> (after_a[k].node.acc == old0[k].node.acc
                && after_a[k].node.bak == old0[k].node.bak))) by {
                assert(after_a[k] == spec_phase_a(old0)[k]);
                if old0[k].node.status is Running {
                    lemma_step_shape(old0[k].node);
                }
            }
            assert forall|i2: int, j2: int| 0 <= i2 < j2 < n implies (
            #[trigger] old0[i2]).pos != (#[trigger] old0[j2]).pos by {
            }
        }
        let mut progressed = prog_a;
        let mut settled = false;
        while !settled
            invariant
                self@.nodes.len() == n == old0.len(),
                self@.pos == oldpos,
                forall|k: int| 0 <= k < n ==> (#[trigger] self@.nodes[k]).node.wf(),
                forall|k: int| 0 <= k < n ==> (#[trigger] self@.nodes[k]).pos == old0[k].pos,
                forall|i2: int, j2: int|
                    0 <= i2 < j2 < n ==> (#[trigger] old0[i2]).pos != (#[trigger] old0[j2]).pos,
                forall|k: int|
                    0 <= k < n ==> (#[trigger] self@.nodes[k]).node.instructions
                        == old0[k].node.instructions,
                forall|k: int|
                    0 <= k < n ==> ((#[trigger] self@.nodes[k]).node.status is Halted) == (
                    old0[k].node.status is Halted || (old0[k].node.status is Running
                        && old0[k].node.instructions.len() == 0)),
                forall|k: int|
                    0 <= k < n ==> (((#[trigger] self@.nodes[k]).node.status is Waiting
                        || self@.nodes[k].node.status is Halted) ==> (self@.nodes[k].node.acc
                        == old0[k].node.acc && self@.nodes[k].node.bak == old0[k].node.bak)),
                prog_a == spec_sweep_progress(old0),
                pair_b == exists|i: int, j: int, d: Dir| spec_can_pair(after_a, i, j, d),
                !progressed ==> self@.nodes == after_a,
                progressed ==> prog_a || pair_b,
                prog_a ==> progressed,
                forall|b: Seq<EntryV>|
                    settles_to(self@.nodes, b) ==> #[trigger] settles_to(after_a, b),
                settled ==> forall|i: int, j: int, d: Dir| !spec_can_pair(self@.nodes, i, j, d),
            decreases total_phases(self@.nodes), (if settled {
                0int
            } else {
                1int
            }),
        {
            let ghost cur = self@.nodes;
            match self.find_pair() {
                Some((pi, pj, pd)) => {
                    proof {
                        if !progressed {
                            assert(spec_can_pair(after_a, pi as int, pj as int, pd));
                        }
                    }
                    self.transfer(pi, pj, pd);
                    proof {
                        lemma_send_shape(cur[pi as int].node, pd);
                        lemma_deliver_shape(
                            cur[pj as int].node,
                            pd.spec_mirror(),
                            pending_value(cur[pi as int].node.status),
                        );
                        assert forall|k: int| 0 <= k < n implies ((
                        #[trigger] self@.nodes[k]).node.instructions == old0[k].node.instructions
                            && ((self@.nodes[k].node.status is Halted) == (
                        old0[k].node.status is Halted || (old0[k].node.status is Running
                            && old0[k].node.instructions.len() == 0))) && ((
                        self@.nodes[k].node.status is Waiting
                            || self@.nodes[k].node.status is Halted) ==> (self@.nodes[k].node.acc
                            == old0[k].node.acc && self@.nodes[k].node.bak
                            == old0[k].node.bak))) by {
                            if k != pi as int && k != pj as int {
                                assert(self@.nodes[k] == cur[k]);
                            }
                        }
                        assert forall|b: Seq<EntryV>| settles_to(self@.nodes, b) implies #[trigger]
                        settles_to(after_a, b) by {
                            assert(spec_can_pair(cur, pi as int, pj as int, pd));
                            assert(self@.nodes == spec_transfer(cur, pi as int, pj as int, pd));
                            assert(settles_to(cur, b));
                        }
                    }
                    progressed = true;
                },
                None => {
                    settled = true;
                },
            }
        }
        proof {
            assert(spec_no_pair(self@.nodes));
            assert(settles_to(self@.nodes, self@.nodes));
            assert(settles_to(after_a, self@.nodes));
        }
        let (any_alive, all_waiting, halted) = self.survey();
        let deadlocked = any_alive && all_waiting;
        proof {
            if deadlocked {
                assert forall|k2: int| 0 <= k2 < n implies (#[trigger] self@.nodes[k2]).node.acc
                    == old0[k2].node.acc && self@.nodes[k2].node.bak == old0[k2].node.bak by {
                    assert(self@.nodes[k2].node.status is Halted
                        || self@.nodes[k2].node.status is Waiting);
                }
            }
            if !progressed {
                assert(!pair_b && !prog_a);
            }
        }
        TickReport { progressed, halted_positions: halted, deadlocked }
    }
}

} // verus!

//! A textual codec for whole programs: cursor, cell addresses, registers,
//! program counters, `last` directions, instruction lists and label tables,
//! in a line-oriented, human-readable form. Name and comment payloads are
//! length-prefixed raw bytes, so every value round-trips byte for byte.
//!
//! The codec captures the durable state; the transient execution status is
//! not persisted, and every node of a decoded program is running. Counts
//! beyond the signed 64-bit range are refused on load. The round trip is
//! proved: `encode_program` emits exactly `spec_encode`, and `decode_program`
//! accepts the encoding of every well-formed, all-running program whose
//! counts fit, returning that very program.

use vstd::prelude::*;
use crate::grid::{EntryV, GridEntry, Pos, Program};
use crate::instr::{copy_bytes, Instruction, InstrV, Label};
use crate::node::{LabelEntryV, Node, NodeV, Status};
use crate::numtext::parse_i64;
use crate::parse::sub_bytes;
use crate::ports::{kw2, kw3, kw4, kw5, Dir, Port};

verus! {

/// The digits of a positive number, most significant first; empty for zero.
pub open spec fn spec_u_digits(v: nat) -> Seq<u8>
    decreases v,
{
    if v == 0 {
        Seq::empty()
    } else {
        spec_u_digits(v / 10).push((48 + (v % 10)) as u8)
    }
}

/// Decimal text of an unsigned number.
pub open spec fn spec_u64_text(v: u64) -> Seq<u8> {
    if v == 0 {
        seq![48u8]
    } else {
        spec_u_digits(v as nat)
    }
}

/// Decimal text of a signed number.
pub open spec fn spec_i64_text(v: i64) -> Seq<u8> {
    if v >= 0 {
        spec_u64_text(v as u64)
    } else if v == i64::MIN {
        seq![45u8] + spec_u64_text(0x8000_0000_0000_0000u64)
    } else {
        seq![45u8] + spec_u64_text((-v) as u64)
    }
}

/// The digits of a positive number are digits and carry exactly its value.
proof fn lemma_u_digits_val(v: nat)
    ensures
        crate::numtext::all_digits(spec_u_digits(v)),
        crate::numtext::digits_val(spec_u_digits(v)) == v,
        v > 0 ==> spec_u_digits(v).len() >= 1,
    decreases v,
{
    if v > 0 {
        lemma_u_digits_val(v / 10);
        let s = spec_u_digits(v);
        assert(s.drop_last() =~= spec_u_digits(v / 10));
        assert(s.last() == (48 + v % 10) as u8);
        assert forall|i: int| 0 <= i < s.len() implies crate::numtext::is_digit(
            #[trigger] s[i],
        ) by {
            if i < s.len() - 1 {
                assert(s[i] == spec_u_digits(v / 10)[i]);
            }
        }
    }
}

/// The decimal text of a value reads back as exactly that value: the codec's
/// numbers mean what the port resolver's integer tokens mean.
pub proof fn lemma_i64_text_reads_back(v: i64)
    ensures
        crate::numtext::spec_parse_i64(spec_i64_text(v)) == Some(v),
{
    if v == 0 {
        let tok = spec_i64_text(0);
        assert(tok =~= seq![48u8]);
        assert(seq![48u8].drop_last() =~= Seq::<u8>::empty());
        assert(crate::numtext::digits_val(seq![48u8]) == 0);
        assert(crate::numtext::all_digits(seq![48u8]));
    } else if v > 0 {
        lemma_u_digits_val(v as nat);
        let tok = spec_i64_text(v);
        assert(tok == spec_u_digits(v as nat));
        assert(crate::numtext::is_digit(tok[0]));
    } else {
        let mag: nat = if v == i64::MIN {
            0x8000_0000_0000_0000nat
        } else {
            (-v) as nat
        };
        lemma_u_digits_val(mag);
        let tok = spec_i64_text(v);
        assert(tok[0] == 45);
        assert(tok.skip(1) =~= spec_u_digits(mag));
    }
}

/// A port's token resolves back to exactly that port: what the codec writes
/// for an operand, the port resolver reads as the same operand.
pub proof fn lemma_port_text_reads_back(p: Port)
    ensures
        crate::ports::spec_port(spec_port_text(p)) == Some(p),
{
    if let Port::Value(v) = p {
        lemma_i64_text_reads_back(v);
        let tok = spec_port_text(p);
        if v == 0 {
            assert(tok =~= seq![48u8]);
        } else if v > 0 {
            lemma_u_digits_val(v as nat);
            assert(crate::numtext::is_digit(tok[0]));
        } else {
            assert(tok[0] == 45);
        }
        assert(48 <= tok[0] <= 57 || tok[0] == 45);
        assert(tok != seq![97u8, 99u8, 99u8]) by {
            if tok == seq![97u8, 99u8, 99u8] {
                assert(tok[0] == 97);
            }
        }
        assert(tok != seq![110u8, 105u8, 108u8]) by {
            if tok == seq![110u8, 105u8, 108u8] {
                assert(tok[0] == 110);
            }
        }
        assert(tok != seq![108u8, 101u8, 102u8, 116u8]) by {
            if tok == seq![108u8, 101u8, 102u8, 116u8] {
                assert(tok[0] == 108);
            }
        }
        assert(tok != seq![114u8, 105u8, 103u8, 104u8, 116u8]) by {
            if tok == seq![114u8, 105u8, 103u8, 104u8, 116u8] {
                assert(tok[0] == 114);
            }
        }
        assert(tok != seq![117u8, 112u8]) by {
            if tok == seq![117u8, 112u8] {
                assert(tok[0] == 117);
            }
        }
        assert(tok != seq![100u8, 111u8, 119u8, 110u8]) by {
            if tok == seq![100u8, 111u8, 119u8, 110u8] {
                assert(tok[0] == 100);
            }
        }
        assert(tok != seq![97u8, 110u8, 121u8]) by {
            if tok == seq![97u8, 110u8, 121u8] {
                assert(tok[0] == 97);
            }
        }
        assert(tok != seq![108u8, 97u8, 115u8, 116u8]) by {
            if tok == seq![108u8, 97u8, 115u8, 116u8] {
                assert(tok[0] == 108);
            }
        }
    }
}

/// The keyword of a direction.
pub open spec fn spec_dir_text(d: Dir) -> Seq<u8> {
    match d {
        Dir::Left => seq![108u8, 101u8, 102u8, 116u8],
        Dir::Right => seq![114u8, 105u8, 103u8, 104u8, 116u8],
        Dir::Up => seq![117u8, 112u8],
        Dir::Down => seq![100u8, 111u8, 119u8, 110u8],
    }
}

/// The token of a port: its keyword, or the decimal of an immediate.
pub open spec fn spec_port_text(p: Port) -> Seq<u8> {
    match p {
        Port::Acc => seq![97u8, 99u8, 99u8],
        Port::Nil => seq![110u8, 105u8, 108u8],
        Port::Left => seq![108u8, 101u8, 102u8, 116u8],
        Port::Right => seq![114u8, 105u8, 103u8, 104u8, 116u8],
        Port::Up => seq![117u8, 112u8],
        Port::Down => seq![100u8, 111u8, 119u8, 110u8],
        Port::Any => seq![97u8, 110u8, 121u8],
        Port::Last => seq![108u8, 97u8, 115u8, 116u8],
        Port::Value(v) => spec_i64_text(v),
    }
}

/// A length-prefixed raw payload: length, line end, the bytes, line end.
pub open spec fn spec_payload_text(t: Seq<u8>) -> Seq<u8> {
    spec_u64_text(t.len() as u64) + seq![10u8] + t + seq![10u8]
}

/// One encoded instruction line (two lines for a raw payload).
pub open spec fn spec_encode_inst(i: InstrV) -> Seq<u8> {
    match i {
        InstrV::Nop => seq![110u8, 111u8, 112u8, 10u8],
        InstrV::Swp => seq![115u8, 119u8, 112u8, 10u8],
        InstrV::Sav => seq![115u8, 97u8, 118u8, 10u8],
        InstrV::Neg => seq![110u8, 101u8, 103u8, 10u8],
        InstrV::Comment(t) => seq![99u8, 109u8, 116u8, 32u8] + spec_payload_text(t),
        InstrV::CreateLabel(t) => seq![108u8, 98u8, 108u8, 32u8] + spec_payload_text(t),
        InstrV::Jmp(t) => seq![106u8, 109u8, 112u8, 32u8] + spec_payload_text(t),
        InstrV::Jez(t) => seq![106u8, 101u8, 122u8, 32u8] + spec_payload_text(t),
        InstrV::Jnz(t) => seq![106u8, 110u8, 122u8, 32u8] + spec_payload_text(t),
        InstrV::Jgz(t) => seq![106u8, 103u8, 122u8, 32u8] + spec_payload_text(t),
        InstrV::Jlz(t) => seq![106u8, 108u8, 122u8, 32u8] + spec_payload_text(t),
        InstrV::Jro(p) => seq![106u8, 114u8, 111u8, 32u8] + spec_port_text(p) + seq![10u8],
        InstrV::Add(p) => seq![97u8, 100u8, 100u8, 32u8] + spec_port_text(p) + seq![10u8],
        InstrV::Sub(p) => seq![115u8, 117u8, 98u8, 32u8] + spec_port_text(p) + seq![10u8],
        InstrV::Mov(s, d) => seq![109u8, 111u8, 118u8, 32u8] + spec_port_text(s) + seq![32u8]
            + spec_port_text(d) + seq![10u8],
    }
}

/// The encoded instruction list, in order.
pub open spec fn spec_encode_insts(is: Seq<InstrV>) -> Seq<u8>
    decreases is.len(),
{
    if is.len() == 0 {
        Seq::empty()
    } else {
        spec_encode_insts(is.drop_last()) + spec_encode_inst(is.last())
    }
}

/// One encoded label entry: index, name length, then the raw name.
pub open spec fn spec_encode_label(l: LabelEntryV) -> Seq<u8> {
    spec_u64_text(l.index as u64) + seq![32u8] + spec_payload_text(l.name)
}

/// The encoded label table, in order.
pub open spec fn spec_encode_labels(ls: Seq<LabelEntryV>) -> Seq<u8>
    decreases ls.len(),
{
    if ls.len() == 0 {
        Seq::empty()
    } else {
        spec_encode_labels(ls.drop_last()) + spec_encode_label(ls.last())
    }
}

/// One encoded cell: address, registers, counter and `last` on one line,
/// then the instruction list, then the label table, each with its count.
pub open spec fn spec_encode_entry(e: EntryV) -> Seq<u8> {
    spec_i64_text(e.pos.0) + seq![32u8] + spec_i64_text(e.pos.1) + seq![32u8] + spec_i64_text(
        e.node.acc,
    ) + seq![32u8] + spec_i64_text(e.node.bak) + seq![32u8] + spec_u64_text(e.node.pc as u64)
        + seq![32u8] + spec_dir_text(e.node.last) + seq![10u8] + spec_u64_text(
        e.node.instructions.len() as u64,
    ) + seq![10u8] + spec_encode_insts(e.node.instructions) + spec_u64_text(
        e.node.labels.len() as u64,
    ) + seq![10u8] + spec_encode_labels(e.node.labels)
}

/// The encoded grid, in storage order.
pub open spec fn spec_encode_entries(ns: Seq<EntryV>) -> Seq<u8>
    decreases ns.len(),
{
    if ns.len() == 0 {
        Seq::empty()
    } else {
        spec_encode_entries(ns.drop_last()) + spec_encode_entry(ns.last())
    }
}

/// The leading format mark.
pub open spec fn spec_magic() -> Seq<u8> {
    seq![103u8, 114u8, 105u8, 100u8, 118u8, 109u8, 49u8, 10u8]
}

/// The leading part of the encoded program: mark, cursor and node count.
pub open spec fn spec_header(p: crate::grid::ProgramV) -> Seq<u8> {
    spec_magic() + spec_i64_text(p.pos.0) + seq![32u8] + spec_i64_text(p.pos.1) + seq![32u8]
        + spec_u64_text(p.nodes.len() as u64) + seq![10u8]
}

/// The encoded program: mark, cursor and node count, then the cells.
pub open spec fn spec_encode(p: crate::grid::ProgramV) -> Seq<u8> {
    spec_header(p) + spec_encode_entries(p.nodes)
}

/// `chunk` stands verbatim at `pos` in `bytes`.
pub open spec fn bytes_at(bytes: Seq<u8>, pos: int, chunk: Seq<u8>) -> bool {
    &&& 0 <= pos
    &&& pos + chunk.len() <= bytes.len()
    &&& bytes.subrange(pos, pos + chunk.len()) == chunk
}

/// A token delimiter: a blank or a line end.
pub open spec fn is_break(b: u8) -> bool {
    b == 32 || b == 10
}

/// No delimiter inside.
pub open spec fn clean(t: Seq<u8>) -> bool {
    forall|k: int| 0 <= k < t.len() ==> !is_break(#[trigger] t[k])
}

/// A whole token stands at `pos`: delimiter-free text, then a delimiter.
pub open spec fn token_at(bytes: Seq<u8>, pos: int, t: Seq<u8>) -> bool {
    &&& clean(t)
    &&& 0 <= pos
    &&& pos + t.len() + 1 <= bytes.len()
    &&& bytes.subrange(pos, pos + t.len()) == t
    &&& is_break(bytes[pos + t.len()])
}

/// Concatenation splits positionally.
proof fn lemma_bytes_at_split(bytes: Seq<u8>, pos: int, a: Seq<u8>, b: Seq<u8>)
    requires
        bytes_at(bytes, pos, a + b),
    ensures
        bytes_at(bytes, pos, a),
        bytes_at(bytes, pos + a.len(), b),
{
    assert(bytes.subrange(pos, pos + a.len()) =~= a) by {
        assert forall|k: int| 0 <= k < a.len() implies bytes.subrange(pos, pos + a.len())[k]
            == a[k] by {
            assert(bytes.subrange(pos, pos + (a + b).len())[k] == (a + b)[k]);
        }
    }
    assert(bytes.subrange(pos + a.len(), pos + a.len() + b.len()) =~= b) by {
        assert forall|k: int| 0 <= k < b.len() implies bytes.subrange(
            pos + a.len(),
            pos + a.len() + b.len(),
        )[k] == b[k] by {
            assert(bytes.subrange(pos, pos + (a + b).len())[a.len() + k] == (a + b)[a.len() + k]);
        }
    }
}

/// Digit strings hold no delimiter.
proof fn lemma_clean_digits(t: Seq<u8>)
    requires
        crate::numtext::all_digits(t),
    ensures
        clean(t),
{
    assert forall|k: int| 0 <= k < t.len() implies !is_break(#[trigger] t[k]) by {
        assert(crate::numtext::is_digit(t[k]));
    }
}

/// Unsigned decimal text holds no delimiter.
proof fn lemma_clean_u64_text(v: u64)
    ensures
        clean(spec_u64_text(v)),
{
    if v == 0 {
    } else {
        lemma_u_digits_val(v as nat);
        lemma_clean_digits(spec_u_digits(v as nat));
    }
}

/// Signed decimal text holds no delimiter.
proof fn lemma_clean_i64_text(v: i64)
    ensures
        clean(spec_i64_text(v)),
{
    if v >= 0 {
        lemma_clean_u64_text(v as u64);
    } else {
        let mag: u64 = if v == i64::MIN {
            0x8000_0000_0000_0000u64
        } else {
            (-v) as u64
        };
        lemma_clean_u64_text(mag);
        let t = spec_i64_text(v);
        assert forall|k: int| 0 <= k < t.len() implies !is_break(#[trigger] t[k]) by {
            if k > 0 {
                assert(t[k] == spec_u64_text(mag)[k - 1]);
            }
        }
    }
}

/// Port tokens hold no delimiter.
proof fn lemma_clean_port_text(p: Port)
    ensures
        clean(spec_port_text(p)),
{
    if let Port::Value(v) = p {
        lemma_clean_i64_text(v);
    }
}

/// Direction keywords hold no delimiter, and are the matching port tokens.
proof fn lemma_dir_text_is_port_text(d: Dir)
    ensures
        clean(spec_dir_text(d)),
        spec_dir_text(d) == spec_port_text(dir_port(d)),
{
}

/// The port operand naming direction `d`.
pub open spec fn dir_port(d: Dir) -> Port {
    match d {
        Dir::Left => Port::Left,
        Dir::Right => Port::Right,
        Dir::Up => Port::Up,
        Dir::Down => Port::Down,
    }
}


/// A count the reader accepts.
pub open spec fn fits_len(n: nat) -> bool {
    n <= i64::MAX && n <= usize::MAX
}

/// Whether a cell's counts and payload lengths fit what the reader accepts.
pub open spec fn entry_fits(e: EntryV) -> bool {
    &&& fits_len(e.node.instructions.len())
    &&& fits_len(e.node.labels.len())
    &&& forall|k: int|
        0 <= k < e.node.instructions.len() ==> inst_fits(#[trigger] e.node.instructions[k])
    &&& forall|k: int|
        0 <= k < e.node.labels.len() ==> fits_len((#[trigger] e.node.labels[k]).name.len())
}

/// Whether a program's counts and payload lengths fit what the reader accepts.
pub open spec fn prog_fits(p: crate::grid::ProgramV) -> bool {
    &&& fits_len(p.nodes.len())
    &&& forall|k: int| 0 <= k < p.nodes.len() ==> entry_fits(#[trigger] p.nodes[k])
}

/// The encoded instruction list from index `k` on.
pub open spec fn spec_insts_from(is: Seq<InstrV>, k: int) -> Seq<u8>
    decreases is.len() - k,
{
    if k < 0 || k >= is.len() {
        Seq::empty()
    } else {
        spec_encode_inst(is[k]) + spec_insts_from(is, k + 1)
    }
}

/// The encoded label table from index `k` on.
pub open spec fn spec_labels_from(ls: Seq<LabelEntryV>, k: int) -> Seq<u8>
    decreases ls.len() - k,
{
    if k < 0 || k >= ls.len() {
        Seq::empty()
    } else {
        spec_encode_label(ls[k]) + spec_labels_from(ls, k + 1)
    }
}

/// The encoded grid from index `k` on.
pub open spec fn spec_entries_from(ns: Seq<EntryV>, k: int) -> Seq<u8>
    decreases ns.len() - k,
{
    if k < 0 || k >= ns.len() {
        Seq::empty()
    } else {
        spec_encode_entry(ns[k]) + spec_entries_from(ns, k + 1)
    }
}

/// The instruction encoding splits at any index.
proof fn lemma_insts_take_from(is: Seq<InstrV>, k: int)
    requires
        0 <= k <= is.len(),
    ensures
        spec_encode_insts(is) == spec_encode_insts(is.take(k)) + spec_insts_from(is, k),
    decreases is.len() - k,
{
    if k == is.len() {
        assert(is.take(k) =~= is);
        assert(spec_encode_insts(is) + Seq::<u8>::empty() =~= spec_encode_insts(is));
    } else {
        lemma_insts_take_from(is, k + 1);
        assert(is.take(k + 1).drop_last() =~= is.take(k));
        assert(is.take(k + 1).last() == is[k]);
        assert(spec_encode_insts(is.take(k)) + (spec_encode_inst(is[k]) + spec_insts_from(
            is,
            k + 1,
        )) =~= spec_encode_insts(is.take(k + 1)) + spec_insts_from(is, k + 1));
    }
}

/// The label-table encoding splits at any index.
proof fn lemma_labels_take_from(ls: Seq<LabelEntryV>, k: int)
    requires
        0 <= k <= ls.len(),
    ensures
        spec_encode_labels(ls) == spec_encode_labels(ls.take(k)) + spec_labels_from(ls, k),
    decreases ls.len() - k,
{
    if k == ls.len() {
        assert(ls.take(k) =~= ls);
        assert(spec_encode_labels(ls) + Seq::<u8>::empty() =~= spec_encode_labels(ls));
    } else {
        lemma_labels_take_from(ls, k + 1);
        assert(ls.take(k + 1).drop_last() =~= ls.take(k));
        assert(ls.take(k + 1).last() == ls[k]);
        assert(spec_encode_labels(ls.take(k)) + (spec_encode_label(ls[k]) + spec_labels_from(
            ls,
            k + 1,
        )) =~= spec_encode_labels(ls.take(k + 1)) + spec_labels_from(ls, k + 1));
    }
}

/// The grid encoding splits at any index.
proof fn lemma_entries_take_from(ns: Seq<EntryV>, k: int)
    requires
        0 <= k <= ns.len(),
    ensures
        spec_encode_entries(ns) == spec_encode_entries(ns.take(k)) + spec_entries_from(ns, k),
    decreases ns.len() - k,
{
    if k == ns.len() {
        assert(ns.take(k) =~= ns);
        assert(spec_encode_entries(ns) + Seq::<u8>::empty() =~= spec_encode_entries(ns));
    } else {
        lemma_entries_take_from(ns, k + 1);
        assert(ns.take(k + 1).drop_last() =~= ns.take(k));
        assert(ns.take(k + 1).last() == ns[k]);
        assert(spec_encode_entries(ns.take(k)) + (spec_encode_entry(ns[k]) + spec_entries_from(
            ns,
            k + 1,
        )) =~= spec_encode_entries(ns.take(k + 1)) + spec_entries_from(ns, k + 1));
    }
}

/// A name held by no entry looks up to nothing.
proof fn lemma_label_absent(labels: Seq<crate::node::LabelEntryV>, name: Seq<u8>)
    requires
        forall|k: int| 0 <= k < labels.len() ==> (#[trigger] labels[k]).name != name,
    ensures
        crate::node::label_lookup(labels, name) is None,
    decreases labels.len(),
{
    if labels.len() > 0 {
        assert forall|k: int| 0 <= k < labels.skip(1).len() implies (
        #[trigger] labels.skip(1)[k]).name != name by {
            assert(labels.skip(1)[k] == labels[k + 1]);
        }
        lemma_label_absent(labels.skip(1), name);
    }
}

/// An address held by no cell looks up to nothing.
proof fn lemma_grid_absent(nodes: Seq<EntryV>, p: Pos)
    requires
        forall|k: int| 0 <= k < nodes.len() ==> (#[trigger] nodes[k]).pos != p,
    ensures
        crate::grid::grid_index_of(nodes, p) is None,
    decreases nodes.len(),
{
    if nodes.len() > 0 {
        assert forall|k: int| 0 <= k < nodes.skip(1).len() implies (
        #[trigger] nodes.skip(1)[k]).pos != p by {
            assert(nodes.skip(1)[k] == nodes[k + 1]);
        }
        lemma_grid_absent(nodes.skip(1), p);
    }
}

/// The running offsets of one encoded cell: the length of its leading line
/// and the instruction count line.
pub open spec fn spec_entry_head_len(e: EntryV) -> int {
    spec_i64_text(e.pos.0).len() as int + 1 + spec_i64_text(e.pos.1).len() + 1 + spec_i64_text(
        e.node.acc,
    ).len() + 1 + spec_i64_text(e.node.bak).len() + 1 + spec_u64_text(e.node.pc as u64).len() + 1
        + spec_dir_text(e.node.last).len() + 1 + spec_u64_text(
        e.node.instructions.len() as u64,
    ).len() + 1
}

/// An encoded cell decomposes into its fields at fixed offsets.
#[verifier::rlimit(100)]
proof fn lemma_entry_head(bytes: Seq<u8>, pos: int, e: EntryV)
    requires
        bytes_at(bytes, pos, spec_encode_entry(e)),
    ensures
        token_at(bytes, pos, spec_i64_text(e.pos.0)),
        token_at(
            bytes,
            pos + spec_i64_text(e.pos.0).len() + 1,
            spec_i64_text(e.pos.1),
        ),
        token_at(
            bytes,
            pos + spec_i64_text(e.pos.0).len() + 1 + spec_i64_text(e.pos.1).len() + 1,
            spec_i64_text(e.node.acc),
        ),
        token_at(
            bytes,
            pos + spec_i64_text(e.pos.0).len() + 1 + spec_i64_text(e.pos.1).len() + 1
                + spec_i64_text(e.node.acc).len() + 1,
            spec_i64_text(e.node.bak),
        ),
        token_at(
            bytes,
            pos + spec_i64_text(e.pos.0).len() + 1 + spec_i64_text(e.pos.1).len() + 1
                + spec_i64_text(e.node.acc).len() + 1 + spec_i64_text(e.node.bak).len() + 1,
            spec_u64_text(e.node.pc as u64),
        ),
        token_at(
            bytes,
            pos + spec_i64_text(e.pos.0).len() + 1 + spec_i64_text(e.pos.1).len() + 1
                + spec_i64_text(e.node.acc).len() + 1 + spec_i64_text(e.node.bak).len() + 1
                + spec_u64_text(e.node.pc as u64).len() + 1,
            spec_dir_text(e.node.last),
        ),
        token_at(
            bytes,
            pos + spec_i64_text(e.pos.0).len() + 1 + spec_i64_text(e.pos.1).len() + 1
                + spec_i64_text(e.node.acc).len() + 1 + spec_i64_text(e.node.bak).len() + 1
                + spec_u64_text(e.node.pc as u64).len() + 1 + spec_dir_text(e.node.last).len()
                + 1,
            spec_u64_text(e.node.instructions.len() as u64),
        ),
        bytes_at(
            bytes,
            pos + spec_entry_head_len(e),
            spec_encode_insts(e.node.instructions),
        ),
        token_at(
            bytes,
            pos + spec_entry_head_len(e) + spec_encode_insts(e.node.instructions).len(),
            spec_u64_text(e.node.labels.len() as u64),
        ),
        bytes_at(
            bytes,
            pos + spec_entry_head_len(e) + spec_encode_insts(e.node.instructions).len()
                + spec_u64_text(e.node.labels.len() as u64).len() + 1,
            spec_encode_labels(e.node.labels),
        ),
        spec_encode_entry(e).len() == spec_entry_head_len(e) + spec_encode_insts(
            e.node.instructions,
        ).len() + spec_u64_text(e.node.labels.len() as u64).len() + 1 + spec_encode_labels(
            e.node.labels,
        ).len(),
{
    let t0 = spec_i64_text(e.pos.0);
    let t1 = spec_i64_text(e.pos.1);
    let t2 = spec_i64_text(e.node.acc);
    let t3 = spec_i64_text(e.node.bak);
    let t4 = spec_u64_text(e.node.pc as u64);
    let t5 = spec_dir_text(e.node.last);
    let t6 = spec_u64_text(e.node.instructions.len() as u64);
    let insts = spec_encode_insts(e.node.instructions);
    let t7 = spec_u64_text(e.node.labels.len() as u64);
    let labels = spec_encode_labels(e.node.labels);
    lemma_clean_i64_text(e.pos.0);
    lemma_clean_i64_text(e.pos.1);
    lemma_clean_i64_text(e.node.acc);
    lemma_clean_i64_text(e.node.bak);
    lemma_clean_u64_text(e.node.pc as u64);
    lemma_dir_text_is_port_text(e.node.last);
    lemma_clean_u64_text(e.node.instructions.len() as u64);
    lemma_clean_u64_text(e.node.labels.len() as u64);
    let whole = spec_encode_entry(e);
    let h = ((((((((((((((t0 + seq![32u8]) + t1) + seq![32u8]) + t2) + seq![32u8]) + t3)
        + seq![32u8]) + t4) + seq![32u8]) + t5) + seq![10u8]) + t6) + seq![10u8]) + insts
        + ((t7 + seq![10u8]) + labels));
    assert(whole =~= h);
    lemma_bytes_at_split(
        bytes,
        pos,
        (((((((((((((t0 + seq![32u8]) + t1) + seq![32u8]) + t2) + seq![32u8]) + t3) + seq![32u8])
            + t4) + seq![32u8]) + t5) + seq![10u8]) + t6) + seq![10u8]) + insts,
        (t7 + seq![10u8]) + labels,
    );
    lemma_bytes_at_split(
        bytes,
        pos,
        ((((((((((((t0 + seq![32u8]) + t1) + seq![32u8]) + t2) + seq![32u8]) + t3) + seq![32u8])
            + t4) + seq![32u8]) + t5) + seq![10u8]) + t6) + seq![10u8],
        insts,
    );
    lemma_bytes_at_split(
        bytes,
        pos,
        (((((((((((t0 + seq![32u8]) + t1) + seq![32u8]) + t2) + seq![32u8]) + t3) + seq![32u8])
            + t4) + seq![32u8]) + t5) + seq![10u8]) + t6,
        seq![10u8],
    );
    lemma_bytes_at_split(
        bytes,
        pos,
        ((((((((((t0 + seq![32u8]) + t1) + seq![32u8]) + t2) + seq![32u8]) + t3) + seq![32u8])
            + t4) + seq![32u8]) + t5) + seq![10u8],
        t6,
    );
    lemma_bytes_at_split(
        bytes,
        pos,
        (((((((((t0 + seq![32u8]) + t1) + seq![32u8]) + t2) + seq![32u8]) + t3) + seq![32u8]) + t4)
            + seq![32u8]) + t5,
        seq![10u8],
    );
    lemma_bytes_at_split(
        bytes,
        pos,
        ((((((((t0 + seq![32u8]) + t1) + seq![32u8]) + t2) + seq![32u8]) + t3) + seq![32u8]) + t4)
            + seq![32u8],
        t5,
    );
    lemma_bytes_at_split(
        bytes,
        pos,
        (((((((t0 + seq![32u8]) + t1) + seq![32u8]) + t2) + seq![32u8]) + t3) + seq![32u8]) + t4,
        seq![32u8],
    );
    lemma_bytes_at_split(
        bytes,
        pos,
        ((((((t0 + seq![32u8]) + t1) + seq![32u8]) + t2) + seq![32u8]) + t3) + seq![32u8],
        t4,
    );
    lemma_bytes_at_split(
        bytes,
        pos,
        (((((t0 + seq![32u8]) + t1) + seq![32u8]) + t2) + seq![32u8]) + t3,
        seq![32u8],
    );
    lemma_bytes_at_split(
        bytes,
        pos,
        ((((t0 + seq![32u8]) + t1) + seq![32u8]) + t2) + seq![32u8],
        t3,
    );
    lemma_bytes_at_split(bytes, pos, (((t0 + seq![32u8]) + t1) + seq![32u8]) + t2, seq![32u8]);
    lemma_bytes_at_split(bytes, pos, ((t0 + seq![32u8]) + t1) + seq![32u8], t2);
    lemma_bytes_at_split(bytes, pos, (t0 + seq![32u8]) + t1, seq![32u8]);
    lemma_bytes_at_split(bytes, pos, t0 + seq![32u8], t1);
    lemma_bytes_at_split(bytes, pos, t0, seq![32u8]);
    lemma_bytes_at_split(
        bytes,
        pos + spec_entry_head_len(e) + insts.len(),
        t7 + seq![10u8],
        labels,
    );
    lemma_bytes_at_split(bytes, pos + spec_entry_head_len(e) + insts.len(), t7, seq![10u8]);
    assert(bytes[pos + t0.len()] == bytes.subrange(pos + t0.len(), pos + t0.len() + 1)[0]);
    assert(bytes[pos + t0.len() + 1 + t1.len()] == bytes.subrange(
        pos + t0.len() + 1 + t1.len(),
        pos + t0.len() + 1 + t1.len() + 1,
    )[0]);
    assert(bytes[pos + t0.len() + 1 + t1.len() + 1 + t2.len()] == bytes.subrange(
        pos + t0.len() + 1 + t1.len() + 1 + t2.len(),
        pos + t0.len() + 1 + t1.len() + 1 + t2.len() + 1,
    )[0]);
    assert(bytes[pos + t0.len() + 1 + t1.len() + 1 + t2.len() + 1 + t3.len()] == bytes.subrange(
        pos + t0.len() + 1 + t1.len() + 1 + t2.len() + 1 + t3.len(),
        pos + t0.len() + 1 + t1.len() + 1 + t2.len() + 1 + t3.len() + 1,
    )[0]);
    assert(bytes[pos + t0.len() + 1 + t1.len() + 1 + t2.len() + 1 + t3.len() + 1 + t4.len()]
        == bytes.subrange(
        pos + t0.len() + 1 + t1.len() + 1 + t2.len() + 1 + t3.len() + 1 + t4.len(),
        pos + t0.len() + 1 + t1.len() + 1 + t2.len() + 1 + t3.len() + 1 + t4.len() + 1,
    )[0]);
    assert(bytes[pos + t0.len() + 1 + t1.len() + 1 + t2.len() + 1 + t3.len() + 1 + t4.len() + 1
        + t5.len()] == bytes.subrange(
        pos + t0.len() + 1 + t1.len() + 1 + t2.len() + 1 + t3.len() + 1 + t4.len() + 1 + t5.len(),
        pos + t0.len() + 1 + t1.len() + 1 + t2.len() + 1 + t3.len() + 1 + t4.len() + 1 + t5.len()
            + 1,
    )[0]);
    assert(bytes[pos + t0.len() + 1 + t1.len() + 1 + t2.len() + 1 + t3.len() + 1 + t4.len() + 1
        + t5.len() + 1 + t6.len()] == bytes.subrange(
        pos + t0.len() + 1 + t1.len() + 1 + t2.len() + 1 + t3.len() + 1 + t4.len() + 1 + t5.len()
            + 1 + t6.len(),
        pos + t0.len() + 1 + t1.len() + 1 + t2.len() + 1 + t3.len() + 1 + t4.len() + 1 + t5.len()
            + 1 + t6.len() + 1,
    )[0]);
    assert(bytes[pos + spec_entry_head_len(e) + insts.len() + t7.len()] == bytes.subrange(
        pos + spec_entry_head_len(e) + insts.len() + t7.len(),
        pos + spec_entry_head_len(e) + insts.len() + t7.len() + 1,
    )[0]);
}

/// An encoded program decomposes into its header fields and its cells.
proof fn lemma_prog_head(bytes: Seq<u8>, q: crate::grid::ProgramV)
    requires
        bytes_at(bytes, 0, spec_encode(q)),
    ensures
        bytes_at(bytes, 0, spec_magic()),
        token_at(bytes, 8int, spec_i64_text(q.pos.0)),
        token_at(bytes, 8int + spec_i64_text(q.pos.0).len() + 1, spec_i64_text(q.pos.1)),
        token_at(
            bytes,
            8int + spec_i64_text(q.pos.0).len() + 1 + spec_i64_text(q.pos.1).len() + 1,
            spec_u64_text(q.nodes.len() as u64),
        ),
        bytes_at(bytes, spec_header(q).len() as int, spec_encode_entries(q.nodes)),
        spec_header(q).len() == 8int + spec_i64_text(q.pos.0).len() + 1 + spec_i64_text(
            q.pos.1,
        ).len() + 1 + spec_u64_text(q.nodes.len() as u64).len() + 1,
{
    let t0 = spec_i64_text(q.pos.0);
    let t1 = spec_i64_text(q.pos.1);
    let t2 = spec_u64_text(q.nodes.len() as u64);
    lemma_clean_i64_text(q.pos.0);
    lemma_clean_i64_text(q.pos.1);
    lemma_clean_u64_text(q.nodes.len() as u64);
    assert(spec_encode(q) =~= ((((((spec_magic() + t0) + seq![32u8]) + t1) + seq![32u8]) + t2)
        + seq![10u8]) + spec_encode_entries(q.nodes));
    lemma_bytes_at_split(
        bytes,
        0,
        ((((((spec_magic() + t0) + seq![32u8]) + t1) + seq![32u8]) + t2) + seq![10u8]),
        spec_encode_entries(q.nodes),
    );
    lemma_bytes_at_split(
        bytes,
        0,
        (((((spec_magic() + t0) + seq![32u8]) + t1) + seq![32u8]) + t2),
        seq![10u8],
    );
    lemma_bytes_at_split(bytes, 0, ((((spec_magic() + t0) + seq![32u8]) + t1) + seq![32u8]), t2);
    lemma_bytes_at_split(bytes, 0, (((spec_magic() + t0) + seq![32u8]) + t1), seq![32u8]);
    lemma_bytes_at_split(bytes, 0, ((spec_magic() + t0) + seq![32u8]), t1);
    lemma_bytes_at_split(bytes, 0, spec_magic() + t0, seq![32u8]);
    lemma_bytes_at_split(bytes, 0, spec_magic(), t0);
    assert(bytes[8int + t0.len()] == bytes.subrange(8int + t0.len(), 8int + t0.len() + 1)[0]);
    assert(bytes[8int + t0.len() + 1 + t1.len()] == bytes.subrange(
        8int + t0.len() + 1 + t1.len(),
        8int + t0.len() + 1 + t1.len() + 1,
    )[0]);
    assert(bytes[8int + t0.len() + 1 + t1.len() + 1 + t2.len()] == bytes.subrange(
        8int + t0.len() + 1 + t1.len() + 1 + t2.len(),
        8int + t0.len() + 1 + t1.len() + 1 + t2.len() + 1,
    )[0]);
}

/// Appends the decimal text of an unsigned number.
fn push_u64_text(out: &mut Vec<u8>, v: u64)
    ensures
        final(out)@ == old(out)@ + spec_u64_text(v),
{
    let ghost base = out@;
    if v == 0 {
        out.push(48);
        proof {
            assert(out@ =~= base + spec_u64_text(0));
        }
        return;
    }
    let ghost m0 = v as nat;
    let mut mag: u64 = v;
    let mut tmp: Vec<u8> = Vec::new();
    proof {
        assert(tmp@.reverse() =~= Seq::<u8>::empty());
        assert(spec_u_digits(m0) + Seq::<u8>::empty() =~= spec_u_digits(m0));
    }
    while mag > 0
        invariant
            spec_u_digits(m0) == spec_u_digits(mag as nat) + tmp@.reverse(),
        decreases mag,
    {
        let d: u8 = (mag % 10) as u8 + 48;
        proof {
            assert(spec_u_digits(mag as nat) == spec_u_digits((mag as nat) / 10).push(
                (48 + ((mag as nat) % 10)) as u8,
            ));
            assert((tmp@.push(d)).reverse() =~= seq![d] + tmp@.reverse());
            assert(spec_u_digits((mag as nat) / 10) + (seq![d] + tmp@.reverse())
                =~= spec_u_digits(mag as nat) + tmp@.reverse());
            assert((mag as nat) / 10 == (mag / 10) as nat);
        }
        tmp.push(d);
        mag = mag / 10;
    }
    proof {
        assert(spec_u_digits(m0) == tmp@.reverse());
    }
    let ghost rev = tmp@.reverse();
    let mut i: usize = tmp.len();
    while i > 0
        invariant
            i <= tmp@.len(),
            rev == tmp@.reverse(),
            rev.len() == tmp@.len(),
            out@ == base + rev.take(tmp@.len() - i),
        decreases i,
    {
        let b = tmp[i - 1];
        proof {
            assert(rev[tmp@.len() - i] == tmp@[i - 1]);
            assert(rev.take(tmp@.len() - i + 1) =~= rev.take(tmp@.len() - i).push(
                rev[tmp@.len() - i],
            ));
        }
        out.push(b);
        i = i - 1;
    }
    proof {
        assert(rev.take(tmp@.len() as int) =~= rev);
        assert(out@ == base + spec_u_digits(m0));
        assert(spec_u64_text(v) == spec_u_digits(m0));
    }
}

/// Appends the decimal text of a signed number.
fn push_i64_text(out: &mut Vec<u8>, v: i64)
    ensures
        final(out)@ == old(out)@ + spec_i64_text(v),
{
    let ghost base = out@;
    if v >= 0 {
        push_u64_text(out, v as u64);
        return;
    }
    out.push(45);
    let mag: u64 = if v == i64::MIN {
        0x8000_0000_0000_0000u64
    } else {
        (-v) as u64
    };
    let ghost mid = out@;
    push_u64_text(out, mag);
    proof {
        assert(out@ =~= base + (seq![45u8] + spec_u64_text(mag)));
    }
}

/// Appends a verbatim copy of `bytes`.
fn push_raw(out: &mut Vec<u8>, bytes: &Vec<u8>)
    ensures
        final(out)@ == old(out)@ + bytes@,
{
    let ghost base = out@;
    let mut i: usize = 0;
    while i < bytes.len()
        invariant
            i <= bytes@.len(),
            out@ == base + bytes@.take(i as int),
        decreases bytes@.len() - i,
    {
        out.push(bytes[i]);
        proof {
            assert(out@ =~= base + bytes@.take(i + 1));
        }
        i = i + 1;
    }
    proof {
        assert(bytes@.take(bytes@.len() as int) =~= bytes@);
    }
}

/// Appends the token of a port.
fn push_port_text(out: &mut Vec<u8>, p: Port)
    ensures
        final(out)@ == old(out)@ + spec_port_text(p),
{
    let ghost base = out@;
    match p {
        Port::Acc => {
            out.push(97);
            out.push(99);
            out.push(99);
            proof {
                assert(out@ =~= base + spec_port_text(p));
            }
        },
        Port::Nil => {
            out.push(110);
            out.push(105);
            out.push(108);
            proof {
                assert(out@ =~= base + spec_port_text(p));
            }
        },
        Port::Left => {
            out.push(108);
            out.push(101);
            out.push(102);
            out.push(116);
            proof {
                assert(out@ =~= base + spec_port_text(p));
            }
        },
        Port::Right => {
            out.push(114);
            out.push(105);
            out.push(103);
            out.push(104);
            out.push(116);
            proof {
                assert(out@ =~= base + spec_port_text(p));
            }
        },
        Port::Up => {
            out.push(117);
            out.push(112);
            proof {
                assert(out@ =~= base + spec_port_text(p));
            }
        },
        Port::Down => {
            out.push(100);
            out.push(111);
            out.push(119);
            out.push(110);
            proof {
                assert(out@ =~= base + spec_port_text(p));
            }
        },
        Port::Any => {
            out.push(97);
            out.push(110);
            out.push(121);
            proof {
                assert(out@ =~= base + spec_port_text(p));
            }
        },
        Port::Last => {
            out.push(108);
            out.push(97);
            out.push(115);
            out.push(116);
            proof {
                assert(out@ =~= base + spec_port_text(p));
            }
        },
        Port::Value(v) => {
            push_i64_text(out, v);
        },
    }
}

/// Appends the keyword of a direction.
fn push_dir_text(out: &mut Vec<u8>, d: Dir)
    ensures
        final(out)@ == old(out)@ + spec_dir_text(d),
{
    let ghost base = out@;
    match d {
        Dir::Left => {
            out.push(108);
            out.push(101);
            out.push(102);
            out.push(116);
        },
        Dir::Right => {
            out.push(114);
            out.push(105);
            out.push(103);
            out.push(104);
            out.push(116);
        },
        Dir::Up => {
            out.push(117);
            out.push(112);
        },
        Dir::Down => {
            out.push(100);
            out.push(111);
            out.push(119);
            out.push(110);
        },
    }
    proof {
        assert(out@ =~= base + spec_dir_text(d));
    }
}

/// Appends a three-byte opcode and one delimiter.
fn push_op(out: &mut Vec<u8>, a: u8, b: u8, c: u8, delim: u8)
    ensures
        final(out)@ == old(out)@ + seq![a, b, c, delim],
{
    let ghost base = out@;
    out.push(a);
    out.push(b);
    out.push(c);
    out.push(delim);
    proof {
        assert(out@ =~= base + seq![a, b, c, delim]);
    }
}

/// Appends a length-prefixed raw payload after its opcode.
fn push_payload(out: &mut Vec<u8>, bytes: &Vec<u8>)
    ensures
        final(out)@ == old(out)@ + spec_u64_text(bytes@.len() as u64) + seq![10u8] + bytes@ + seq![
            10u8,
        ],
{
    let ghost base = out@;
    push_u64_text(out, bytes.len() as u64);
    out.push(10);
    push_raw(out, bytes);
    out.push(10);
    proof {
        assert(out@ =~= base + spec_u64_text(bytes@.len() as u64) + seq![10u8] + bytes@ + seq![
            10u8,
        ]);
    }
}

/// Appends one encoded instruction.
fn push_inst(out: &mut Vec<u8>, inst: &Instruction)
    ensures
        final(out)@ == old(out)@ + spec_encode_inst(inst@),
{
    let ghost base = out@;
    match inst {
        Instruction::Nop => {
            push_op(out, 110, 111, 112, 10);
        },
        Instruction::Swp => {
            push_op(out, 115, 119, 112, 10);
        },
        Instruction::Sav => {
            push_op(out, 115, 97, 118, 10);
        },
        Instruction::Neg => {
            push_op(out, 110, 101, 103, 10);
        },
        Instruction::Comment(t) => {
            push_op(out, 99, 109, 116, 32);
            push_payload(out, t);
        },
        Instruction::CreateLabel(l) => {
            push_op(out, 108, 98, 108, 32);
            push_payload(out, &l.0);
        },
        Instruction::Jmp(l) => {
            push_op(out, 106, 109, 112, 32);
            push_payload(out, &l.0);
        },
        Instruction::Jez(l) => {
            push_op(out, 106, 101, 122, 32);
            push_payload(out, &l.0);
        },
        Instruction::Jnz(l) => {
            push_op(out, 106, 110, 122, 32);
            push_payload(out, &l.0);
        },
        Instruction::Jgz(l) => {
            push_op(out, 106, 103, 122, 32);
            push_payload(out, &l.0);
        },
        Instruction::Jlz(l) => {
            push_op(out, 106, 108, 122, 32);
            push_payload(out, &l.0);
        },
        Instruction::Jro(p) => {
            push_op(out, 106, 114, 111, 32);
            push_port_text(out, *p);
            out.push(10);
        },
        Instruction::Add(p) => {
            push_op(out, 97, 100, 100, 32);
            push_port_text(out, *p);
            out.push(10);
        },
        Instruction::Sub(p) => {
            push_op(out, 115, 117, 98, 32);
            push_port_text(out, *p);
            out.push(10);
        },
        Instruction::Mov(s, d) => {
            push_op(out, 109, 111, 118, 32);
            push_port_text(out, *s);
            out.push(32);
            push_port_text(out, *d);
            out.push(10);
        },
    }
    proof {
        assert(out@ =~= base + spec_encode_inst(inst@));
    }
}

/// Appends one encoded cell.
#[verifier::rlimit(100)]
fn push_entry(out: &mut Vec<u8>, entry: &GridEntry)
    ensures
        final(out)@ == old(out)@ + spec_encode_entry(entry@),
{
    let ghost base = out@;
    push_i64_text(out, entry.pos.0);
    out.push(32);
    push_i64_text(out, entry.pos.1);
    out.push(32);
    push_i64_text(out, entry.node.acc);
    out.push(32);
    push_i64_text(out, entry.node.bak);
    out.push(32);
    push_u64_text(out, entry.node.pc as u64);
    out.push(32);
    push_dir_text(out, entry.node.last);
    out.push(10);
    push_u64_text(out, entry.node.instructions.len() as u64);
    out.push(10);
    let ghost insts = entry@.node.instructions;
    let ghost mid = out@;
    let mut i: usize = 0;
    proof {
        assert(spec_encode_insts(insts.take(0)) =~= Seq::<u8>::empty());
        assert(mid + Seq::<u8>::empty() =~= mid);
    }
    while i < entry.node.instructions.len()
        invariant
            i <= entry.node.instructions@.len(),
            insts == entry@.node.instructions,
            insts.len() == entry.node.instructions@.len(),
            forall|k: int|
                0 <= k < insts.len() ==> insts[k] == (#[trigger] entry.node.instructions@[k])@,
            out@ == mid + spec_encode_insts(insts.take(i as int)),
        decreases entry.node.instructions@.len() - i,
    {
        proof {
            assert(insts.take(i + 1).drop_last() =~= insts.take(i as int));
            assert(insts.take(i + 1).last() == insts[i as int]);
        }
        push_inst(out, &entry.node.instructions[i]);
        i = i + 1;
    }
    proof {
        assert(insts.take(insts.len() as int) =~= insts);
    }
    push_u64_text(out, entry.node.label_positions.len() as u64);
    out.push(10);
    let ghost labels = entry@.node.labels;
    let ghost mid2 = out@;
    let mut j: usize = 0;
    proof {
        assert(spec_encode_labels(labels.take(0)) =~= Seq::<u8>::empty());
        assert(mid2 + Seq::<u8>::empty() =~= mid2);
    }
    while j < entry.node.label_positions.len()
        invariant
            j <= entry.node.label_positions@.len(),
            labels == entry@.node.labels,
            labels.len() == entry.node.label_positions@.len(),
            forall|k: int|
                0 <= k < labels.len() ==> labels[k] == (
                #[trigger] entry.node.label_positions@[k])@,
            out@ == mid2 + spec_encode_labels(labels.take(j as int)),
        decreases entry.node.label_positions@.len() - j,
    {
        proof {
            assert(labels.take(j + 1).drop_last() =~= labels.take(j as int));
            assert(labels.take(j + 1).last() == labels[j as int]);
        }
        let ghost lbase = out@;
        push_u64_text(out, entry.node.label_positions[j].index as u64);
        out.push(32);
        push_payload(out, &entry.node.label_positions[j].label.0);
        proof {
            assert(out@ =~= lbase + spec_encode_label(labels[j as int]));
        }
        j = j + 1;
    }
    proof {
        assert(labels.take(labels.len() as int) =~= labels);
        assert(out@ =~= base + spec_encode_entry(entry@));
    }
}

/// Serializes a whole program, exactly as `spec_encode` lays it out.
pub fn encode_program(prog: &Program) -> (r: Vec<u8>)
    ensures
        r@ == spec_encode(prog@),
{
    let mut out: Vec<u8> = Vec::new();
    out.push(103);
    out.push(114);
    out.push(105);
    out.push(100);
    out.push(118);
    out.push(109);
    out.push(49);
    out.push(10);
    proof {
        assert(out@ =~= spec_magic());
    }
    push_i64_text(&mut out, prog.pos.0);
    out.push(32);
    push_i64_text(&mut out, prog.pos.1);
    out.push(32);
    push_u64_text(&mut out, prog.nodes.len() as u64);
    out.push(10);
    let ghost nodes = prog@.nodes;
    let ghost mid = out@;
    let mut i: usize = 0;
    proof {
        assert(spec_encode_entries(nodes.take(0)) =~= Seq::<u8>::empty());
        assert(mid + Seq::<u8>::empty() =~= mid);
    }
    while i < prog.nodes.len()
        invariant
            i <= prog.nodes@.len(),
            nodes == prog@.nodes,
            nodes.len() == prog.nodes@.len(),
            forall|k: int| 0 <= k < nodes.len() ==> nodes[k] == (#[trigger] prog.nodes@[k])@,
            out@ == mid + spec_encode_entries(nodes.take(i as int)),
        decreases prog.nodes@.len() - i,
    {
        proof {
            assert(nodes.take(i + 1).drop_last() =~= nodes.take(i as int));
            assert(nodes.take(i + 1).last() == nodes[i as int]);
        }
        push_entry(&mut out, &prog.nodes[i]);
        i = i + 1;
    }
    proof {
        assert(nodes.take(nodes.len() as int) =~= nodes);
        assert(out@ =~= spec_encode(prog@));
    }
    out
}


/// Whether an instruction's payload lengths fit what the reader accepts.
pub open spec fn inst_fits(i: InstrV) -> bool {
    match i {
        InstrV::Comment(t) => t.len() <= i64::MAX && t.len() <= usize::MAX,
        InstrV::CreateLabel(t) => t.len() <= i64::MAX && t.len() <= usize::MAX,
        InstrV::Jmp(t) => t.len() <= i64::MAX && t.len() <= usize::MAX,
        InstrV::Jez(t) => t.len() <= i64::MAX && t.len() <= usize::MAX,
        InstrV::Jnz(t) => t.len() <= i64::MAX && t.len() <= usize::MAX,
        InstrV::Jgz(t) => t.len() <= i64::MAX && t.len() <= usize::MAX,
        InstrV::Jlz(t) => t.len() <= i64::MAX && t.len() <= usize::MAX,
        _ => true,
    }
}

/// The three opcode bytes an instruction is encoded under.
pub open spec fn spec_inst_op(i: InstrV) -> Seq<u8> {
    match i {
        InstrV::Nop => seq![110u8, 111u8, 112u8],
        InstrV::Swp => seq![115u8, 119u8, 112u8],
        InstrV::Sav => seq![115u8, 97u8, 118u8],
        InstrV::Neg => seq![110u8, 101u8, 103u8],
        InstrV::Comment(_) => seq![99u8, 109u8, 116u8],
        InstrV::CreateLabel(_) => seq![108u8, 98u8, 108u8],
        InstrV::Jmp(_) => seq![106u8, 109u8, 112u8],
        InstrV::Jez(_) => seq![106u8, 101u8, 122u8],
        InstrV::Jnz(_) => seq![106u8, 110u8, 122u8],
        InstrV::Jgz(_) => seq![106u8, 103u8, 122u8],
        InstrV::Jlz(_) => seq![106u8, 108u8, 122u8],
        InstrV::Jro(_) => seq![106u8, 114u8, 111u8],
        InstrV::Add(_) => seq![97u8, 100u8, 100u8],
        InstrV::Sub(_) => seq![115u8, 117u8, 98u8],
        InstrV::Mov(_, _) => seq![109u8, 111u8, 118u8],
    }
}

/// The delimiter after the opcode: a line end for bare opcodes, else a blank.
pub open spec fn spec_inst_delim(i: InstrV) -> u8 {
    match i {
        InstrV::Nop => 10,
        InstrV::Swp => 10,
        InstrV::Sav => 10,
        InstrV::Neg => 10,
        _ => 32,
    }
}

/// What follows the opcode and its delimiter.
pub open spec fn spec_inst_rest(i: InstrV) -> Seq<u8> {
    match i {
        InstrV::Nop => Seq::empty(),
        InstrV::Swp => Seq::empty(),
        InstrV::Sav => Seq::empty(),
        InstrV::Neg => Seq::empty(),
        InstrV::Comment(t) => spec_payload_text(t),
        InstrV::CreateLabel(t) => spec_payload_text(t),
        InstrV::Jmp(t) => spec_payload_text(t),
        InstrV::Jez(t) => spec_payload_text(t),
        InstrV::Jnz(t) => spec_payload_text(t),
        InstrV::Jgz(t) => spec_payload_text(t),
        InstrV::Jlz(t) => spec_payload_text(t),
        InstrV::Jro(p) => spec_port_text(p) + seq![10u8],
        InstrV::Add(p) => spec_port_text(p) + seq![10u8],
        InstrV::Sub(p) => spec_port_text(p) + seq![10u8],
        InstrV::Mov(s, d) => spec_port_text(s) + seq![32u8] + spec_port_text(d) + seq![10u8],
    }
}

/// An encoded instruction opens with its opcode token; the remainder stands
/// right after it.
proof fn lemma_inst_head(bytes: Seq<u8>, pos: int, iv: InstrV)
    requires
        bytes_at(bytes, pos, spec_encode_inst(iv)),
    ensures
        token_at(bytes, pos, spec_inst_op(iv)),
        bytes_at(bytes, pos + 4, spec_inst_rest(iv)),
        spec_encode_inst(iv).len() == 4 + spec_inst_rest(iv).len(),
{
    assert(spec_encode_inst(iv) =~= (spec_inst_op(iv) + seq![spec_inst_delim(iv)])
        + spec_inst_rest(iv));
    lemma_bytes_at_split(
        bytes,
        pos,
        spec_inst_op(iv) + seq![spec_inst_delim(iv)],
        spec_inst_rest(iv),
    );
    lemma_bytes_at_split(bytes, pos, spec_inst_op(iv), seq![spec_inst_delim(iv)]);
    assert(bytes[pos + 3] == bytes.subrange(pos + 3, pos + 4)[0]);
    assert(clean(spec_inst_op(iv)));
}

/// Reads one token up to the next blank or line end, consuming it.
fn read_tok(bytes: &[u8], pos: usize) -> (r: Option<(Vec<u8>, usize)>)
    requires
        pos <= bytes@.len(),
    ensures
        r matches Some(t) ==> pos < t.1 <= bytes@.len(),
        forall|t: Seq<u8>|
            #[trigger] token_at(bytes@, pos as int, t) ==> (r matches Some(x) && x.0@ == t && x.1
                == pos + t.len() + 1),
{
    let n = bytes.len();
    let mut e = pos;
    while e < n && bytes[e] != 32 && bytes[e] != 10
        invariant
            pos <= e <= n == bytes@.len(),
            forall|k: int| pos <= k < e ==> !is_break(#[trigger] bytes@[k]),
        decreases n - e,
    {
        e = e + 1;
    }
    if e == n {
        proof {
            assert forall|t: Seq<u8>| !token_at(bytes@, pos as int, t) by {
                if token_at(bytes@, pos as int, t) {
                    assert(!is_break(bytes@[pos + t.len()]));
                }
            }
        }
        return None;
    }
    let t = sub_bytes(bytes, pos, e);
    proof {
        assert forall|w: Seq<u8>| #[trigger] token_at(bytes@, pos as int, w) implies t@ == w && e
            + 1 == pos + w.len() + 1 by {
            if pos + w.len() < e {
                assert(bytes@[pos + w.len()] == bytes@.subrange(pos as int, e as int)[w.len() as int]);
                assert(!is_break(bytes@[pos + w.len()]));
            }
            if e < pos + w.len() {
                assert(w[e - pos] == bytes@.subrange(pos as int, pos + w.len())[e - pos]);
                assert(w[e - pos] == bytes@[e as int]);
                assert(!is_break(w[e - pos]));
            }
            assert(e == pos + w.len());
            assert(t@ =~= w);
        }
    }
    Some((t, e + 1))
}

/// Reads a signed decimal token.
fn read_i64(bytes: &[u8], pos: usize) -> (r: Option<(i64, usize)>)
    requires
        pos <= bytes@.len(),
    ensures
        r matches Some(t) ==> pos < t.1 <= bytes@.len(),
        forall|v: i64|
            #[trigger] token_at(bytes@, pos as int, spec_i64_text(v)) ==> (r matches Some(x) && x.0
                == v && x.1 == pos + spec_i64_text(v).len() + 1),
{
    let r = match read_tok(bytes, pos) {
        Some((t, np)) => match parse_i64(t.as_slice()) {
            Some(v) => Some((v, np)),
            None => None,
        },
        None => None,
    };
    proof {
        assert forall|v: i64| #[trigger] token_at(bytes@, pos as int, spec_i64_text(v)) implies (r
            matches Some(x) && x.0 == v && x.1 == pos + spec_i64_text(v).len() + 1) by {
            lemma_i64_text_reads_back(v);
        }
    }
    r
}

/// Reads a non-negative decimal token that fits the platform's sizes.
fn read_len(bytes: &[u8], pos: usize) -> (r: Option<(usize, usize)>)
    requires
        pos <= bytes@.len(),
    ensures
        r matches Some(t) ==> pos < t.1 <= bytes@.len(),
        forall|v: u64|
            (#[trigger] token_at(bytes@, pos as int, spec_u64_text(v)) && v <= i64::MAX as u64 && v
                <= usize::MAX as u64) ==> (r matches Some(x) && x.0 == v as usize && x.1 == pos
                + spec_u64_text(v).len() + 1),
{
    proof {
        assert forall|v: u64| v <= i64::MAX as u64 implies spec_u64_text(v) == spec_i64_text(
            v as i64,
        ) by {
        }
    }
    match read_i64(bytes, pos) {
        Some((v, np)) => {
            if v < 0 {
                None
            } else if (v as u64) > (usize::MAX as u64) {
                None
            } else {
                Some((v as usize, np))
            }
        },
        None => None,
    }
}

/// Reads `len` raw bytes followed by a line end.
fn read_raw(bytes: &[u8], pos: usize, len: usize) -> (r: Option<(Vec<u8>, usize)>)
    requires
        pos <= bytes@.len(),
    ensures
        r matches Some(t) ==> pos < t.1 <= bytes@.len(),
        (pos + len + 1 <= bytes@.len() && bytes@[pos + len] == 10) ==> (r matches Some(x) && x.0@
            == bytes@.subrange(pos as int, pos + len) && x.1 == pos + len + 1),
{
    let n = bytes.len();
    if n - pos == 0 {
        return None;
    }
    if len > n - pos - 1 {
        return None;
    }
    if bytes[pos + len] != 10 {
        return None;
    }
    let t = sub_bytes(bytes, pos, pos + len);
    Some((t, pos + len + 1))
}

/// Reads a port token.
fn read_port(bytes: &[u8], pos: usize) -> (r: Option<(Port, usize)>)
    requires
        pos <= bytes@.len(),
    ensures
        r matches Some(t) ==> pos < t.1 <= bytes@.len(),
        forall|p: Port|
            #[trigger] token_at(bytes@, pos as int, spec_port_text(p)) ==> (r matches Some(x) && x.0
                == p && x.1 == pos + spec_port_text(p).len() + 1),
{
    let r = match read_tok(bytes, pos) {
        Some((t, np)) => match Port::parse(t.as_slice()) {
            Ok(p) => Some((p, np)),
            Err(_) => None,
        },
        None => None,
    };
    proof {
        assert forall|p: Port| #[trigger] token_at(bytes@, pos as int, spec_port_text(p)) implies (
        r matches Some(x) && x.0 == p && x.1 == pos + spec_port_text(p).len() + 1) by {
            lemma_port_text_reads_back(p);
        }
    }
    r
}

/// Reads a direction keyword.
fn read_dir(bytes: &[u8], pos: usize) -> (r: Option<(Dir, usize)>)
    requires
        pos <= bytes@.len(),
    ensures
        r matches Some(t) ==> pos < t.1 <= bytes@.len(),
        forall|dd: Dir|
            #[trigger] token_at(bytes@, pos as int, spec_dir_text(dd)) ==> (r matches Some(x) && x.0
                == dd && x.1 == pos + spec_dir_text(dd).len() + 1),
{
    let r = match read_port(bytes, pos) {
        Some((Port::Left, np)) => Some((Dir::Left, np)),
        Some((Port::Right, np)) => Some((Dir::Right, np)),
        Some((Port::Up, np)) => Some((Dir::Up, np)),
        Some((Port::Down, np)) => Some((Dir::Down, np)),
        _ => None,
    };
    proof {
        assert forall|dd: Dir| #[trigger] token_at(bytes@, pos as int, spec_dir_text(dd)) implies (
        r matches Some(x) && x.0 == dd && x.1 == pos + spec_dir_text(dd).len() + 1) by {
            lemma_dir_text_is_port_text(dd);
            assert(token_at(bytes@, pos as int, spec_port_text(dir_port(dd))));
        }
    }
    r
}

/// Reads a length-prefixed raw payload.
fn read_payload(bytes: &[u8], pos: usize) -> (r: Option<(Vec<u8>, usize)>)
    requires
        pos <= bytes@.len(),
    ensures
        r matches Some(t) ==> pos < t.1 <= bytes@.len(),
        forall|t: Seq<u8>|
            (#[trigger] bytes_at(bytes@, pos as int, spec_payload_text(t)) && t.len()
                <= i64::MAX && t.len() <= usize::MAX) ==> (r matches Some(x) && x.0@ == t && x.1
                == pos + spec_payload_text(t).len()),
{
    let r = match read_len(bytes, pos) {
        Some((len, p1)) => read_raw(bytes, p1, len),
        None => None,
    };
    proof {
        assert forall|t: Seq<u8>|
            (#[trigger] bytes_at(bytes@, pos as int, spec_payload_text(t)) && t.len()
                <= i64::MAX && t.len() <= usize::MAX) implies (r matches Some(x) && x.0@ == t
            && x.1 == pos + spec_payload_text(t).len()) by {
            let ltext = spec_u64_text(t.len() as u64);
            lemma_clean_u64_text(t.len() as u64);
            lemma_bytes_at_split(bytes@, pos as int, ltext + seq![10u8] + t, seq![10u8]);
            lemma_bytes_at_split(bytes@, pos as int, ltext + seq![10u8], t);
            lemma_bytes_at_split(bytes@, pos as int, ltext, seq![10u8]);
            assert(bytes@[pos + ltext.len()] == bytes@.subrange(
                pos + ltext.len(),
                pos + ltext.len() + 1,
            )[0]);
            assert(token_at(bytes@, pos as int, ltext));
            let p1 = pos + ltext.len() + 1;
            assert(bytes@.subrange(p1 as int, p1 + t.len()) == t);
            assert(bytes@[p1 + t.len()] == bytes@.subrange(p1 + t.len(), p1 + t.len() + 1)[0]);
            assert(bytes@[p1 + t.len()] == 10);
        }
    }
    r
}

/// Reads one encoded instruction.
#[verifier::rlimit(100)]
fn read_inst(bytes: &[u8], pos: usize) -> (r: Option<(Instruction, usize)>)
    requires
        pos <= bytes@.len(),
    ensures
        r matches Some(t) ==> pos < t.1 <= bytes@.len(),
        forall|iv: InstrV|
            (#[trigger] bytes_at(bytes@, pos as int, spec_encode_inst(iv)) && inst_fits(iv)) ==> (r
                matches Some(x) && x.0@ == iv && x.1 == pos + spec_encode_inst(iv).len()),
{
    let tr = read_tok(bytes, pos);
    let (op, p1) = match tr {
        Some(t) => t,
        None => {
            proof {
                assert forall|iv: InstrV| !(bytes_at(bytes@, pos as int, spec_encode_inst(iv))
                    && inst_fits(iv)) by {
                    if bytes_at(bytes@, pos as int, spec_encode_inst(iv)) {
                        lemma_inst_head(bytes@, pos as int, iv);
                    }
                }
            }
            return None;
        },
    };
    let s = op.as_slice();
    if kw3(s, 110, 111, 112) {
        let r = Some((Instruction::Nop, p1));
        proof {
            assert forall|iv: InstrV| (#[trigger] bytes_at(bytes@, pos as int,
                spec_encode_inst(iv)) && inst_fits(iv)) implies (r matches Some(x) && x.0@ == iv
                && x.1 == pos + spec_encode_inst(iv).len()) by {
                lemma_inst_head(bytes@, pos as int, iv);
                match iv {
                    InstrV::Nop => {},
                    InstrV::Swp => {},
                    InstrV::Sav => {},
                    InstrV::Neg => {},
                    InstrV::Comment(_) => {},
                    InstrV::CreateLabel(_) => {},
                    InstrV::Jmp(_) => {},
                    InstrV::Jez(_) => {},
                    InstrV::Jnz(_) => {},
                    InstrV::Jgz(_) => {},
                    InstrV::Jlz(_) => {},
                    InstrV::Jro(_) => {},
                    InstrV::Add(_) => {},
                    InstrV::Sub(_) => {},
                    InstrV::Mov(_, _) => {},
                }
            }
        }
        return r;
    }
    if kw3(s, 115, 119, 112) {
        let r = Some((Instruction::Swp, p1));
        proof {
            assert forall|iv: InstrV| (#[trigger] bytes_at(bytes@, pos as int,
                spec_encode_inst(iv)) && inst_fits(iv)) implies (r matches Some(x) && x.0@ == iv
                && x.1 == pos + spec_encode_inst(iv).len()) by {
                lemma_inst_head(bytes@, pos as int, iv);
                match iv {
                    InstrV::Nop => {},
                    InstrV::Swp => {},
                    InstrV::Sav => {},
                    InstrV::Neg => {},
                    InstrV::Comment(_) => {},
                    InstrV::CreateLabel(_) => {},
                    InstrV::Jmp(_) => {},
                    InstrV::Jez(_) => {},
                    InstrV::Jnz(_) => {},
                    InstrV::Jgz(_) => {},
                    InstrV::Jlz(_) => {},
                    InstrV::Jro(_) => {},
                    InstrV::Add(_) => {},
                    InstrV::Sub(_) => {},
                    InstrV::Mov(_, _) => {},
                }
            }
        }
        return r;
    }
    if kw3(s, 115, 97, 118) {
        let r = Some((Instruction::Sav, p1));
        proof {
            assert forall|iv: InstrV| (#[trigger] bytes_at(bytes@, pos as int,
                spec_encode_inst(iv)) && inst_fits(iv)) implies (r matches Some(x) && x.0@ == iv
                && x.1 == pos + spec_encode_inst(iv).len()) by {
                lemma_inst_head(bytes@, pos as int, iv);
                match iv {
                    InstrV::Nop => {},
                    InstrV::Swp => {},
                    InstrV::Sav => {},
                    InstrV::Neg => {},
                    InstrV::Comment(_) => {},
                    InstrV::CreateLabel(_) => {},
                    InstrV::Jmp(_) => {},
                    InstrV::Jez(_) => {},
                    InstrV::Jnz(_) => {},
                    InstrV::Jgz(_) => {},
                    InstrV::Jlz(_) => {},
                    InstrV::Jro(_) => {},
                    InstrV::Add(_) => {},
                    InstrV::Sub(_) => {},
                    InstrV::Mov(_, _) => {},
                }
            }
        }
        return r;
    }
    if kw3(s, 110, 101, 103) {
        let r = Some((Instruction::Neg, p1));
        proof {
            assert forall|iv: InstrV| (#[trigger] bytes_at(bytes@, pos as int,
                spec_encode_inst(iv)) && inst_fits(iv)) implies (r matches Some(x) && x.0@ == iv
                && x.1 == pos + spec_encode_inst(iv).len()) by {
                lemma_inst_head(bytes@, pos as int, iv);
                match iv {
                    InstrV::Nop => {},
                    InstrV::Swp => {},
                    InstrV::Sav => {},
                    InstrV::Neg => {},
                    InstrV::Comment(_) => {},
                    InstrV::CreateLabel(_) => {},
                    InstrV::Jmp(_) => {},
                    InstrV::Jez(_) => {},
                    InstrV::Jnz(_) => {},
                    InstrV::Jgz(_) => {},
                    InstrV::Jlz(_) => {},
                    InstrV::Jro(_) => {},
                    InstrV::Add(_) => {},
                    InstrV::Sub(_) => {},
                    InstrV::Mov(_, _) => {},
                }
            }
        }
        return r;
    }
    if kw3(s, 99, 109, 116) {
        let r = match read_payload(bytes, p1) {
            Some((t2, np)) => Some((Instruction::Comment(t2), np)),
            None => None,
        };
        proof {
            assert forall|iv: InstrV| (#[trigger] bytes_at(bytes@, pos as int,
                spec_encode_inst(iv)) && inst_fits(iv)) implies (r matches Some(x) && x.0@ == iv
                && x.1 == pos + spec_encode_inst(iv).len()) by {
                lemma_inst_head(bytes@, pos as int, iv);
                match iv {
                    InstrV::Nop => {},
                    InstrV::Swp => {},
                    InstrV::Sav => {},
                    InstrV::Neg => {},
                    InstrV::Comment(tp) => {
                        assert(bytes_at(bytes@, pos + 4, spec_payload_text(tp)));
                    },
                    InstrV::CreateLabel(_) => {},
                    InstrV::Jmp(_) => {},
                    InstrV::Jez(_) => {},
                    InstrV::Jnz(_) => {},
                    InstrV::Jgz(_) => {},
                    InstrV::Jlz(_) => {},
                    InstrV::Jro(_) => {},
                    InstrV::Add(_) => {},
                    InstrV::Sub(_) => {},
                    InstrV::Mov(_, _) => {},
                }
            }
        }
        return r;
    }
    if kw3(s, 108, 98, 108) {
        let r = match read_payload(bytes, p1) {
            Some((t2, np)) => Some((Instruction::CreateLabel(Label(t2)), np)),
            None => None,
        };
        proof {
            assert forall|iv: InstrV| (#[trigger] bytes_at(bytes@, pos as int,
                spec_encode_inst(iv)) && inst_fits(iv)) implies (r matches Some(x) && x.0@ == iv
                && x.1 == pos + spec_encode_inst(iv).len()) by {
                lemma_inst_head(bytes@, pos as int, iv);
                match iv {
                    InstrV::Nop => {},
                    InstrV::Swp => {},
                    InstrV::Sav => {},
                    InstrV::Neg => {},
                    InstrV::Comment(_) => {},
                    InstrV::CreateLabel(tp) => {
                        assert(bytes_at(bytes@, pos + 4, spec_payload_text(tp)));
                    },
                    InstrV::Jmp(_) => {},
                    InstrV::Jez(_) => {},
                    InstrV::Jnz(_) => {},
                    InstrV::Jgz(_) => {},
                    InstrV::Jlz(_) => {},
                    InstrV::Jro(_) => {},
                    InstrV::Add(_) => {},
                    InstrV::Sub(_) => {},
                    InstrV::Mov(_, _) => {},
                }
            }
        }
        return r;
    }
    if kw3(s, 106, 109, 112) {
        let r = match read_payload(bytes, p1) {
            Some((t2, np)) => Some((Instruction::Jmp(Label(t2)), np)),
            None => None,
        };
        proof {
            assert forall|iv: InstrV| (#[trigger] bytes_at(bytes@, pos as int,
                spec_encode_inst(iv)) && inst_fits(iv)) implies (r matches Some(x) && x.0@ == iv
                && x.1 == pos + spec_encode_inst(iv).len()) by {
                lemma_inst_head(bytes@, pos as int, iv);
                match iv {
                    InstrV::Nop => {},
                    InstrV::Swp => {},
                    InstrV::Sav => {},
                    InstrV::Neg => {},
                    InstrV::Comment(_) => {},
                    InstrV::CreateLabel(_) => {},
                    InstrV::Jmp(tp) => {
                        assert(bytes_at(bytes@, pos + 4, spec_payload_text(tp)));
                    },
                    InstrV::Jez(_) => {},
                    InstrV::Jnz(_) => {},
                    InstrV::Jgz(_) => {},
                    InstrV::Jlz(_) => {},
                    InstrV::Jro(_) => {},
                    InstrV::Add(_) => {},
                    InstrV::Sub(_) => {},
                    InstrV::Mov(_, _) => {},
                }
            }
        }
        return r;
    }
    if kw3(s, 106, 101, 122) {
        let r = match read_payload(bytes, p1) {
            Some((t2, np)) => Some((Instruction::Jez(Label(t2)), np)),
            None => None,
        };
        proof {
            assert forall|iv: InstrV| (#[trigger] bytes_at(bytes@, pos as int,
                spec_encode_inst(iv)) && inst_fits(iv)) implies (r matches Some(x) && x.0@ == iv
                && x.1 == pos + spec_encode_inst(iv).len()) by {
                lemma_inst_head(bytes@, pos as int, iv);
                match iv {
                    InstrV::Nop => {},
                    InstrV::Swp => {},
                    InstrV::Sav => {},
                    InstrV::Neg => {},
                    InstrV::Comment(_) => {},
                    InstrV::CreateLabel(_) => {},
                    InstrV::Jmp(_) => {},
                    InstrV::Jez(tp) => {
                        assert(bytes_at(bytes@, pos + 4, spec_payload_text(tp)));
                    },
                    InstrV::Jnz(_) => {},
                    InstrV::Jgz(_) => {},
                    InstrV::Jlz(_) => {},
                    InstrV::Jro(_) => {},
                    InstrV::Add(_) => {},
                    InstrV::Sub(_) => {},
                    InstrV::Mov(_, _) => {},
                }
            }
        }
        return r;
    }
    if kw3(s, 106, 110, 122) {
        let r = match read_payload(bytes, p1) {
            Some((t2, np)) => Some((Instruction::Jnz(Label(t2)), np)),
            None => None,
        };
        proof {
            assert forall|iv: InstrV| (#[trigger] bytes_at(bytes@, pos as int,
                spec_encode_inst(iv)) && inst_fits(iv)) implies (r matches Some(x) && x.0@ == iv
                && x.1 == pos + spec_encode_inst(iv).len()) by {
                lemma_inst_head(bytes@, pos as int, iv);
                match iv {
                    InstrV::Nop => {},
                    InstrV::Swp => {},
                    InstrV::Sav => {},
                    InstrV::Neg => {},
                    InstrV::Comment(_) => {},
                    InstrV::CreateLabel(_) => {},
                    InstrV::Jmp(_) => {},
                    InstrV::Jez(_) => {},
                    InstrV::Jnz(tp) => {
                        assert(bytes_at(bytes@, pos + 4, spec_payload_text(tp)));
                    },
                    InstrV::Jgz(_) => {},
                    InstrV::Jlz(_) => {},
                    InstrV::Jro(_) => {},
                    InstrV::Add(_) => {},
                    InstrV::Sub(_) => {},
                    InstrV::Mov(_, _) => {},
                }
            }
        }
        return r;
    }
    if kw3(s, 106, 103, 122) {
        let r = match read_payload(bytes, p1) {
            Some((t2, np)) => Some((Instruction::Jgz(Label(t2)), np)),
            None => None,
        };
        proof {
            assert forall|iv: InstrV| (#[trigger] bytes_at(bytes@, pos as int,
                spec_encode_inst(iv)) && inst_fits(iv)) implies (r matches Some(x) && x.0@ == iv
                && x.1 == pos + spec_encode_inst(iv).len()) by {
                lemma_inst_head(bytes@, pos as int, iv);
                match iv {
                    InstrV::Nop => {},
                    InstrV::Swp => {},
                    InstrV::Sav => {},
                    InstrV::Neg => {},
                    InstrV::Comment(_) => {},
                    InstrV::CreateLabel(_) => {},
                    InstrV::Jmp(_) => {},
                    InstrV::Jez(_) => {},
                    InstrV::Jnz(_) => {},
                    InstrV::Jgz(tp) => {
                        assert(bytes_at(bytes@, pos + 4, spec_payload_text(tp)));
                    },
                    InstrV::Jlz(_) => {},
                    InstrV::Jro(_) => {},
                    InstrV::Add(_) => {},
                    InstrV::Sub(_) => {},
                    InstrV::Mov(_, _) => {},
                }
            }
        }
        return r;
    }
    if kw3(s, 106, 108, 122) {
        let r = match read_payload(bytes, p1) {
            Some((t2, np)) => Some((Instruction::Jlz(Label(t2)), np)),
            None => None,
        };
        proof {
            assert forall|iv: InstrV| (#[trigger] bytes_at(bytes@, pos as int,
                spec_encode_inst(iv)) && inst_fits(iv)) implies (r matches Some(x) && x.0@ == iv
                && x.1 == pos + spec_encode_inst(iv).len()) by {
                lemma_inst_head(bytes@, pos as int, iv);
                match iv {
                    InstrV::Nop => {},
                    InstrV::Swp => {},
                    InstrV::Sav => {},
                    InstrV::Neg => {},
                    InstrV::Comment(_) => {},
                    InstrV::CreateLabel(_) => {},
                    InstrV::Jmp(_) => {},
                    InstrV::Jez(_) => {},
                    InstrV::Jnz(_) => {},
                    InstrV::Jgz(_) => {},
                    InstrV::Jlz(tp) => {
                        assert(bytes_at(bytes@, pos + 4, spec_payload_text(tp)));
                    },
                    InstrV::Jro(_) => {},
                    InstrV::Add(_) => {},
                    InstrV::Sub(_) => {},
                    InstrV::Mov(_, _) => {},
                }
            }
        }
        return r;
    }
    if kw3(s, 106, 114, 111) {
        let r = match read_port(bytes, p1) {
            Some((p, np)) => Some((Instruction::Jro(p), np)),
            None => None,
        };
        proof {
            assert forall|iv: InstrV| (#[trigger] bytes_at(bytes@, pos as int,
                spec_encode_inst(iv)) && inst_fits(iv)) implies (r matches Some(x) && x.0@ == iv
                && x.1 == pos + spec_encode_inst(iv).len()) by {
                lemma_inst_head(bytes@, pos as int, iv);
                match iv {
                    InstrV::Nop => {},
                    InstrV::Swp => {},
                    InstrV::Sav => {},
                    InstrV::Neg => {},
                    InstrV::Comment(_) => {},
                    InstrV::CreateLabel(_) => {},
                    InstrV::Jmp(_) => {},
                    InstrV::Jez(_) => {},
                    InstrV::Jnz(_) => {},
                    InstrV::Jgz(_) => {},
                    InstrV::Jlz(_) => {},
                    InstrV::Jro(pp) => {
                        lemma_bytes_at_split(bytes@, pos + 4, spec_port_text(pp), seq![10u8]);
                        lemma_clean_port_text(pp);
                        assert(bytes@[pos + 4 + spec_port_text(pp).len()] == bytes@.subrange(
                            pos + 4 + spec_port_text(pp).len(),
                            pos + 4 + spec_port_text(pp).len() + 1,
                        )[0]);
                        assert(token_at(bytes@, pos + 4, spec_port_text(pp)));
                    },
                    InstrV::Add(_) => {},
                    InstrV::Sub(_) => {},
                    InstrV::Mov(_, _) => {},
                }
            }
        }
        return r;
    }
    if kw3(s, 97, 100, 100) {
        let r = match read_port(bytes, p1) {
            Some((p, np)) => Some((Instruction::Add(p), np)),
            None => None,
        };
        proof {
            assert forall|iv: InstrV| (#[trigger] bytes_at(bytes@, pos as int,
                spec_encode_inst(iv)) && inst_fits(iv)) implies (r matches Some(x) && x.0@ == iv
                && x.1 == pos + spec_encode_inst(iv).len()) by {
                lemma_inst_head(bytes@, pos as int, iv);
                match iv {
                    InstrV::Nop => {},
                    InstrV::Swp => {},
                    InstrV::Sav => {},
                    InstrV::Neg => {},
                    InstrV::Comment(_) => {},
                    InstrV::CreateLabel(_) => {},
                    InstrV::Jmp(_) => {},
                    InstrV::Jez(_) => {},
                    InstrV::Jnz(_) => {},
                    InstrV::Jgz(_) => {},
                    InstrV::Jlz(_) => {},
                    InstrV::Jro(_) => {},
                    InstrV::Add(pp) => {
                        lemma_bytes_at_split(bytes@, pos + 4, spec_port_text(pp), seq![10u8]);
                        lemma_clean_port_text(pp);
                        assert(bytes@[pos + 4 + spec_port_text(pp).len()] == bytes@.subrange(
                            pos + 4 + spec_port_text(pp).len(),
                            pos + 4 + spec_port_text(pp).len() + 1,
                        )[0]);
                        assert(token_at(bytes@, pos + 4, spec_port_text(pp)));
                    },
                    InstrV::Sub(_) => {},
                    InstrV::Mov(_, _) => {},
                }
            }
        }
        return r;
    }
    if kw3(s, 115, 117, 98) {
        let r = match read_port(bytes, p1) {
            Some((p, np)) => Some((Instruction::Sub(p), np)),
            None => None,
        };
        proof {
            assert forall|iv: InstrV| (#[trigger] bytes_at(bytes@, pos as int,
                spec_encode_inst(iv)) && inst_fits(iv)) implies (r matches Some(x) && x.0@ == iv
                && x.1 == pos + spec_encode_inst(iv).len()) by {
                lemma_inst_head(bytes@, pos as int, iv);
                match iv {
                    InstrV::Nop => {},
                    InstrV::Swp => {},
                    InstrV::Sav => {},
                    InstrV::Neg => {},
                    InstrV::Comment(_) => {},
                    InstrV::CreateLabel(_) => {},
                    InstrV::Jmp(_) => {},
                    InstrV::Jez(_) => {},
                    InstrV::Jnz(_) => {},
                    InstrV::Jgz(_) => {},
                    InstrV::Jlz(_) => {},
                    InstrV::Jro(_) => {},
                    InstrV::Add(_) => {},
                    InstrV::Sub(pp) => {
                        lemma_bytes_at_split(bytes@, pos + 4, spec_port_text(pp), seq![10u8]);
                        lemma_clean_port_text(pp);
                        assert(bytes@[pos + 4 + spec_port_text(pp).len()] == bytes@.subrange(
                            pos + 4 + spec_port_text(pp).len(),
                            pos + 4 + spec_port_text(pp).len() + 1,
                        )[0]);
                        assert(token_at(bytes@, pos + 4, spec_port_text(pp)));
                    },
                    InstrV::Mov(_, _) => {},
                }
            }
        }
        return r;
    }
    if kw3(s, 109, 111, 118) {
        let r = match read_port(bytes, p1) {
            Some((src_p, p2)) => match read_port(bytes, p2) {
                Some((dst_p, np)) => Some((Instruction::Mov(src_p, dst_p), np)),
                None => None,
            },
            None => None,
        };
        proof {
            assert forall|iv: InstrV| (#[trigger] bytes_at(bytes@, pos as int,
                spec_encode_inst(iv)) && inst_fits(iv)) implies (r matches Some(x) && x.0@ == iv
                && x.1 == pos + spec_encode_inst(iv).len()) by {
                lemma_inst_head(bytes@, pos as int, iv);
                match iv {
                    InstrV::Nop => {},
                    InstrV::Swp => {},
                    InstrV::Sav => {},
                    InstrV::Neg => {},
                    InstrV::Comment(_) => {},
                    InstrV::CreateLabel(_) => {},
                    InstrV::Jmp(_) => {},
                    InstrV::Jez(_) => {},
                    InstrV::Jnz(_) => {},
                    InstrV::Jgz(_) => {},
                    InstrV::Jlz(_) => {},
                    InstrV::Jro(_) => {},
                    InstrV::Add(_) => {},
                    InstrV::Sub(_) => {},
                    InstrV::Mov(ms, md) => {
                        let st = spec_port_text(ms);
                        let dt = spec_port_text(md);
                        assert(spec_inst_rest(iv) == ((st + seq![32u8]) + dt) + seq![10u8]);
                        lemma_bytes_at_split(bytes@, pos + 4, (st + seq![32u8]) + dt, seq![10u8]);
                        lemma_bytes_at_split(bytes@, pos + 4, st + seq![32u8], dt);
                        lemma_bytes_at_split(bytes@, pos + 4, st, seq![32u8]);
                        lemma_clean_port_text(ms);
                        lemma_clean_port_text(md);
                        assert(bytes@[pos + 4 + st.len()] == bytes@.subrange(
                            pos + 4 + st.len(),
                            pos + 4 + st.len() + 1,
                        )[0]);
                        assert(token_at(bytes@, pos + 4, st));
                        assert(bytes@[pos + 4 + st.len() + 1 + dt.len()] == bytes@.subrange(
                            pos + 4 + st.len() + 1 + dt.len(),
                            pos + 4 + st.len() + 1 + dt.len() + 1,
                        )[0]);
                        assert(token_at(bytes@, pos + 4 + st.len() + 1, dt));
                    },
                }
            }
        }
        return r;
    }
    proof {
        assert forall|iv: InstrV| !(bytes_at(bytes@, pos as int, spec_encode_inst(iv))
            && inst_fits(iv)) by {
            if bytes_at(bytes@, pos as int, spec_encode_inst(iv)) && inst_fits(iv) {
                lemma_inst_head(bytes@, pos as int, iv);
                match iv {
                    InstrV::Nop => {},
                    InstrV::Swp => {},
                    InstrV::Sav => {},
                    InstrV::Neg => {},
                    InstrV::Comment(_) => {},
                    InstrV::CreateLabel(_) => {},
                    InstrV::Jmp(_) => {},
                    InstrV::Jez(_) => {},
                    InstrV::Jnz(_) => {},
                    InstrV::Jgz(_) => {},
                    InstrV::Jlz(_) => {},
                    InstrV::Jro(_) => {},
                    InstrV::Add(_) => {},
                    InstrV::Sub(_) => {},
                    InstrV::Mov(_, _) => {},
                }
            }
        }
    }
    None
}

/// The side conditions under which one encoded cell at `pos` must load: the
/// bytes stand there, the cell is well formed and running, its counts fit,
/// and its address is new to the grid.
pub open spec fn entry_encoded_at(
    bytes: Seq<u8>,
    pos: int,
    e: EntryV,
    nodes0: Seq<EntryV>,
) -> bool {
    &&& bytes_at(bytes, pos, spec_encode_entry(e))
    &&& e.node.wf()
    &&& e.node.status is Running
    &&& entry_fits(e)
    &&& crate::grid::grid_index_of(nodes0, e.pos) is None
}

/// Reads one encoded cell into the program under construction. The address
/// must be new to the grid, the counter a valid index, every label entry
/// acceptable; anything else refuses the input. A cell that `encode_program`
/// wrote, whose address is new, is always accepted, and loads back as itself.
#[verifier::rlimit(100)]
fn read_entry(bytes: &[u8], pos: usize, prog: &mut Program) -> (r: Option<usize>)
    requires
        pos <= bytes@.len(),
        old(prog)@.wf(),
        forall|k: int|
            0 <= k < old(prog)@.nodes.len() ==> (#[trigger] old(prog)@.nodes[k]).node.status
                is Running,
    ensures
        final(prog)@.wf(),
        final(prog)@.pos == old(prog)@.pos,
        r matches Some(np) ==> pos < np <= bytes@.len(),
        forall|k: int|
            0 <= k < final(prog)@.nodes.len() ==> (#[trigger] final(prog)@.nodes[k]).node.status
                is Running,
        r is None ==> final(prog)@ == old(prog)@,
        forall|e: EntryV|
            #[trigger] entry_encoded_at(bytes@, pos as int, e, old(prog)@.nodes) ==> (r matches
            Some(np) && np == pos + spec_encode_entry(e).len() && final(prog)@.nodes == old(
                prog,
            )@.nodes.push(e)),
{
    let r0 = read_i64(bytes, pos);
    let (x, p1) = match r0 {
        Some(t) => t,
        None => {
            proof {
                assert forall|e: EntryV| !entry_encoded_at(bytes@, pos as int, e, old(prog)@.nodes)
                    by {
                    if entry_encoded_at(bytes@, pos as int, e, old(prog)@.nodes) {
                        lemma_entry_head(bytes@, pos as int, e);
                    }
                }
            }
            return None;
        },
    };
    let r1 = read_i64(bytes, p1);
    let (y, p2) = match r1 {
        Some(t) => t,
        None => {
            proof {
                assert forall|e: EntryV| !entry_encoded_at(bytes@, pos as int, e, old(prog)@.nodes)
                    by {
                    if entry_encoded_at(bytes@, pos as int, e, old(prog)@.nodes) {
                        lemma_entry_head(bytes@, pos as int, e);
                    }
                }
            }
            return None;
        },
    };
    let r2 = read_i64(bytes, p2);
    let (acc, p3) = match r2 {
        Some(t) => t,
        None => {
            proof {
                assert forall|e: EntryV| !entry_encoded_at(bytes@, pos as int, e, old(prog)@.nodes)
                    by {
                    if entry_encoded_at(bytes@, pos as int, e, old(prog)@.nodes) {
                        lemma_entry_head(bytes@, pos as int, e);
                    }
                }
            }
            return None;
        },
    };
    let r3 = read_i64(bytes, p3);
    let (bak, p4) = match r3 {
        Some(t) => t,
        None => {
            proof {
                assert forall|e: EntryV| !entry_encoded_at(bytes@, pos as int, e, old(prog)@.nodes)
                    by {
                    if entry_encoded_at(bytes@, pos as int, e, old(prog)@.nodes) {
                        lemma_entry_head(bytes@, pos as int, e);
                    }
                }
            }
            return None;
        },
    };
    let r4 = read_len(bytes, p4);
    let (pc, p5) = match r4 {
        Some(t) => t,
        None => {
            proof {
                assert forall|e: EntryV| !entry_encoded_at(bytes@, pos as int, e, old(prog)@.nodes)
                    by {
                    if entry_encoded_at(bytes@, pos as int, e, old(prog)@.nodes) {
                        lemma_entry_head(bytes@, pos as int, e);
                    }
                }
            }
            return None;
        },
    };
    let r5 = read_dir(bytes, p5);
    let (last, p6) = match r5 {
        Some(t) => t,
        None => {
            proof {
                assert forall|e: EntryV| !entry_encoded_at(bytes@, pos as int, e, old(prog)@.nodes)
                    by {
                    if entry_encoded_at(bytes@, pos as int, e, old(prog)@.nodes) {
                        lemma_entry_head(bytes@, pos as int, e);
                    }
                }
            }
            return None;
        },
    };
    let r6 = read_len(bytes, p6);
    let (inst_count, p7) = match r6 {
        Some(t) => t,
        None => {
            proof {
                assert forall|e: EntryV| !entry_encoded_at(bytes@, pos as int, e, old(prog)@.nodes)
                    by {
                    if entry_encoded_at(bytes@, pos as int, e, old(prog)@.nodes) {
                        lemma_entry_head(bytes@, pos as int, e);
                    }
                }
            }
            return None;
        },
    };
    let mut node = Node::new();
    node.acc = acc;
    node.bak = bak;
    node.last = last;
    let mut cursor = p7;
    let mut i: usize = 0;
    proof {
        assert forall|e: EntryV|
            #[trigger] entry_encoded_at(bytes@, pos as int, e, old(prog)@.nodes) implies (
        inst_count == e.node.instructions.len() && x == e.pos.0 && y == e.pos.1 && pc as int
            == e.node.pc && cursor as int == pos + spec_entry_head_len(e) + spec_encode_insts(
            e.node.instructions.take(i as int),
        ).len() && node@.instructions == e.node.instructions.take(i as int) && node@.acc
            == e.node.acc && node@.bak == e.node.bak && node@.last == e.node.last) by {
            lemma_entry_head(bytes@, pos as int, e);
            assert(spec_encode_insts(e.node.instructions.take(0)) =~= Seq::<u8>::empty());
            assert(node@.instructions =~= e.node.instructions.take(0));
        }
    }
    while i < inst_count
        invariant
            pos < cursor <= bytes@.len(),
            node@.wf(),
            node@.status is Running,
            node@.pc == 0,
            node@.labels.len() == 0,
            prog@ == old(prog)@,
            prog@.wf(),
            i <= inst_count,
            forall|k: int|
                0 <= k < prog@.nodes.len() ==> (#[trigger] prog@.nodes[k]).node.status
                    is Running,
            forall|e: EntryV|
                #[trigger] entry_encoded_at(bytes@, pos as int, e, old(prog)@.nodes) ==> (
                inst_count == e.node.instructions.len() && x == e.pos.0 && y == e.pos.1 && pc
                    as int == e.node.pc && cursor as int == pos + spec_entry_head_len(e)
                    + spec_encode_insts(e.node.instructions.take(i as int)).len()
                    && node@.instructions == e.node.instructions.take(i as int) && node@.acc
                    == e.node.acc && node@.bak == e.node.bak && node@.last == e.node.last),
        decreases inst_count - i,
    {
        let ri = read_inst(bytes, cursor);
        let (inst, np) = match ri {
            Some(t) => t,
            None => {
                proof {
                    assert forall|e: EntryV|
                        !entry_encoded_at(bytes@, pos as int, e, old(prog)@.nodes) by {
                        if entry_encoded_at(bytes@, pos as int, e, old(prog)@.nodes) {
                            lemma_entry_head(bytes@, pos as int, e);
                            lemma_insts_take_from(e.node.instructions, i as int);
                            lemma_bytes_at_split(
                                bytes@,
                                pos + spec_entry_head_len(e),
                                spec_encode_insts(e.node.instructions.take(i as int)),
                                spec_insts_from(e.node.instructions, i as int),
                            );
                            lemma_bytes_at_split(
                                bytes@,
                                cursor as int,
                                spec_encode_inst(e.node.instructions[i as int]),
                                spec_insts_from(e.node.instructions, i + 1),
                            );
                        }
                    }
                }
                return None;
            },
        };
        node.append_instruction(inst);
        proof {
            assert forall|e: EntryV|
                #[trigger] entry_encoded_at(bytes@, pos as int, e, old(prog)@.nodes) implies (
            inst_count == e.node.instructions.len() && x == e.pos.0 && y == e.pos.1 && pc as int
                == e.node.pc && np as int == pos + spec_entry_head_len(e) + spec_encode_insts(
                e.node.instructions.take(i + 1),
            ).len() && node@.instructions == e.node.instructions.take(i + 1) && node@.acc
                == e.node.acc && node@.bak == e.node.bak && node@.last == e.node.last) by {
                lemma_entry_head(bytes@, pos as int, e);
                lemma_insts_take_from(e.node.instructions, i as int);
                lemma_bytes_at_split(
                    bytes@,
                    pos + spec_entry_head_len(e),
                    spec_encode_insts(e.node.instructions.take(i as int)),
                    spec_insts_from(e.node.instructions, i as int),
                );
                lemma_bytes_at_split(
                    bytes@,
                    cursor as int,
                    spec_encode_inst(e.node.instructions[i as int]),
                    spec_insts_from(e.node.instructions, i + 1),
                );
                assert(e.node.instructions.take(i + 1).drop_last() =~= e.node.instructions.take(
                    i as int,
                ));
                assert(e.node.instructions.take(i + 1).last() == e.node.instructions[i as int]);
                assert(node@.instructions =~= e.node.instructions.take(i + 1));
            }
        }
        cursor = np;
        i = i + 1;
    }
    if pc > 0 && pc >= node.instructions.len() {
        proof {
            assert forall|e: EntryV| !entry_encoded_at(bytes@, pos as int, e, old(prog)@.nodes)
                by {
                if entry_encoded_at(bytes@, pos as int, e, old(prog)@.nodes) {
                    assert(e.node.instructions.take(inst_count as int) =~= e.node.instructions);
                }
            }
        }
        return None;
    }
    node.pc = pc;
    proof {
        assert(node@.wf());
    }
    let r7 = read_len(bytes, cursor);
    let (label_count, p8) = match r7 {
        Some(t) => t,
        None => {
            proof {
                assert forall|e: EntryV| !entry_encoded_at(bytes@, pos as int, e, old(prog)@.nodes)
                    by {
                    if entry_encoded_at(bytes@, pos as int, e, old(prog)@.nodes) {
                        lemma_entry_head(bytes@, pos as int, e);
                        assert(e.node.instructions.take(inst_count as int)
                            =~= e.node.instructions);
                    }
                }
            }
            return None;
        },
    };
    let mut cursor2 = p8;
    let mut j: usize = 0;
    proof {
        assert forall|e: EntryV|
            #[trigger] entry_encoded_at(bytes@, pos as int, e, old(prog)@.nodes) implies (
        label_count == e.node.labels.len() && x == e.pos.0 && y == e.pos.1 && cursor2 as int == pos
            + spec_entry_head_len(e) + spec_encode_insts(e.node.instructions).len()
            + spec_u64_text(e.node.labels.len() as u64).len() + 1 + spec_encode_labels(
            e.node.labels.take(j as int),
        ).len() && node@.labels == e.node.labels.take(j as int) && node@.instructions
            == e.node.instructions && node@.pc == e.node.pc && node@.acc == e.node.acc
            && node@.bak == e.node.bak && node@.last == e.node.last) by {
            lemma_entry_head(bytes@, pos as int, e);
            assert(e.node.instructions.take(inst_count as int) =~= e.node.instructions);
            assert(spec_encode_labels(e.node.labels.take(0)) =~= Seq::<u8>::empty());
            assert(node@.labels =~= e.node.labels.take(0));
        }
    }
    while j < label_count
        invariant
            pos < cursor2 <= bytes@.len(),
            node@.wf(),
            node@.status is Running,
            prog@ == old(prog)@,
            prog@.wf(),
            j <= label_count,
            forall|k: int|
                0 <= k < prog@.nodes.len() ==> (#[trigger] prog@.nodes[k]).node.status
                    is Running,
            forall|e: EntryV|
                #[trigger] entry_encoded_at(bytes@, pos as int, e, old(prog)@.nodes) ==> (
                label_count == e.node.labels.len() && x == e.pos.0 && y == e.pos.1 && cursor2
                    as int == pos + spec_entry_head_len(e) + spec_encode_insts(
                    e.node.instructions,
                ).len() + spec_u64_text(e.node.labels.len() as u64).len() + 1
                    + spec_encode_labels(e.node.labels.take(j as int)).len() && node@.labels
                    == e.node.labels.take(j as int) && node@.instructions == e.node.instructions
                    && node@.pc == e.node.pc && node@.acc == e.node.acc && node@.bak
                    == e.node.bak && node@.last == e.node.last),
        decreases label_count - j,
    {
        let ghost pre_labels = node@.labels;
        let rl = read_len(bytes, cursor2);
        let (index, q1) = match rl {
            Some(t) => t,
            None => {
                proof {
                    assert forall|e: EntryV|
                        !entry_encoded_at(bytes@, pos as int, e, old(prog)@.nodes) by {
                        if entry_encoded_at(bytes@, pos as int, e, old(prog)@.nodes) {
                            lemma_entry_split_label(bytes@, pos as int, e, j as int);
                        }
                    }
                }
                return None;
            },
        };
        let rp = read_payload(bytes, q1);
        let (name, q2) = match rp {
            Some(t) => t,
            None => {
                proof {
                    assert forall|e: EntryV|
                        !entry_encoded_at(bytes@, pos as int, e, old(prog)@.nodes) by {
                        if entry_encoded_at(bytes@, pos as int, e, old(prog)@.nodes) {
                            lemma_entry_split_label(bytes@, pos as int, e, j as int);
                        }
                    }
                }
                return None;
            },
        };
        let ok = node.restore_label(Label(name), index);
        if !ok {
            proof {
                assert forall|e: EntryV| !entry_encoded_at(bytes@, pos as int, e, old(prog)@.nodes)
                    by {
                    if entry_encoded_at(bytes@, pos as int, e, old(prog)@.nodes) {
                        lemma_entry_split_label(bytes@, pos as int, e, j as int);
                        let l = e.node.labels[j as int];
                        assert forall|k: int| 0 <= k < pre_labels.len() implies (
                        #[trigger] pre_labels[k]).name != l.name by {
                            assert(pre_labels[k] == e.node.labels[k]);
                        }
                        lemma_label_absent(pre_labels, l.name);
                    }
                }
            }
            return None;
        }
        proof {
            assert forall|e: EntryV|
                #[trigger] entry_encoded_at(bytes@, pos as int, e, old(prog)@.nodes) implies (q2
                as int == pos + spec_entry_head_len(e) + spec_encode_insts(
                e.node.instructions,
            ).len() + spec_u64_text(e.node.labels.len() as u64).len() + 1 + spec_encode_labels(
                e.node.labels.take(j + 1),
            ).len() && node@.labels == e.node.labels.take(j + 1)) by {
                lemma_entry_split_label(bytes@, pos as int, e, j as int);
                let l = e.node.labels[j as int];
                assert forall|k: int| 0 <= k < pre_labels.len() implies (
                #[trigger] pre_labels[k]).name != l.name by {
                    assert(pre_labels[k] == e.node.labels[k]);
                }
                lemma_label_absent(pre_labels, l.name);
                assert(e.node.labels.take(j + 1).drop_last() =~= e.node.labels.take(j as int));
                assert(e.node.labels.take(j + 1).last() == l);
                assert(node@.labels =~= e.node.labels.take(j + 1));
            }
        }
        cursor2 = q2;
        j = j + 1;
    }
    let p = Pos(x, y);
    let dup = prog.find_node(p);
    if dup.is_some() {
        proof {
            assert forall|e: EntryV| !entry_encoded_at(bytes@, pos as int, e, old(prog)@.nodes)
                by {
                if entry_encoded_at(bytes@, pos as int, e, old(prog)@.nodes) {
                    assert(p == e.pos);
                }
            }
        }
        return None;
    }
    let ghost pre = prog@.nodes;
    prog.nodes.push(GridEntry { pos: p, node });
    proof {
        assert(prog@.nodes =~= pre.push(EntryV { pos: p, node: node@ }));
        assert forall|e: EntryV|
            #[trigger] entry_encoded_at(bytes@, pos as int, e, old(prog)@.nodes) implies (cursor2
            as int == pos + spec_encode_entry(e).len() && prog@.nodes == old(prog)@.nodes.push(
            e,
        )) by {
            lemma_entry_head(bytes@, pos as int, e);
            assert(e.node.labels.take(label_count as int) =~= e.node.labels);
            assert(p == e.pos);
            assert(node@ == e.node);
            assert(EntryV { pos: p, node: node@ } == e);
        }
    }
    Some(cursor2)
}

/// One encoded label entry stands at its running offset inside a cell.
proof fn lemma_entry_split_label(bytes: Seq<u8>, pos: int, e: EntryV, j: int)
    requires
        bytes_at(bytes, pos, spec_encode_entry(e)),
        entry_fits(e),
        e.node.wf(),
        0 <= j < e.node.labels.len(),
    ensures
        token_at(
            bytes,
            pos + spec_entry_head_len(e) + spec_encode_insts(e.node.instructions).len()
                + spec_u64_text(e.node.labels.len() as u64).len() + 1 + spec_encode_labels(
                e.node.labels.take(j),
            ).len(),
            spec_u64_text(e.node.labels[j].index as u64),
        ),
        bytes_at(
            bytes,
            pos + spec_entry_head_len(e) + spec_encode_insts(e.node.instructions).len()
                + spec_u64_text(e.node.labels.len() as u64).len() + 1 + spec_encode_labels(
                e.node.labels.take(j),
            ).len() + spec_u64_text(e.node.labels[j].index as u64).len() + 1,
            spec_payload_text(e.node.labels[j].name),
        ),
        spec_encode_labels(e.node.labels.take(j + 1)).len() == spec_encode_labels(
            e.node.labels.take(j),
        ).len() + spec_u64_text(e.node.labels[j].index as u64).len() + 1 + spec_payload_text(
            e.node.labels[j].name,
        ).len(),
{
    lemma_entry_head(bytes, pos, e);
    let base = pos + spec_entry_head_len(e) + spec_encode_insts(e.node.instructions).len()
        + spec_u64_text(e.node.labels.len() as u64).len() + 1;
    let ls = e.node.labels;
    let l = ls[j];
    lemma_labels_take_from(ls, j);
    lemma_bytes_at_split(
        bytes,
        base,
        spec_encode_labels(ls.take(j)),
        spec_labels_from(ls, j),
    );
    let lbase = base + spec_encode_labels(ls.take(j)).len();
    lemma_bytes_at_split(
        bytes,
        lbase,
        spec_encode_label(l),
        spec_labels_from(ls, j + 1),
    );
    lemma_bytes_at_split(
        bytes,
        lbase,
        spec_u64_text(l.index as u64) + seq![32u8],
        spec_payload_text(l.name),
    );
    lemma_bytes_at_split(bytes, lbase, spec_u64_text(l.index as u64), seq![32u8]);
    lemma_clean_u64_text(l.index as u64);
    assert(bytes[lbase + spec_u64_text(l.index as u64).len()] == bytes.subrange(
        lbase + spec_u64_text(l.index as u64).len(),
        lbase + spec_u64_text(l.index as u64).len() + 1,
    )[0]);
    assert(ls.take(j + 1).drop_last() =~= ls.take(j));
    assert(ls.take(j + 1).last() == l);
}

/// The side conditions under which an encoded program must load: the bytes
/// are exactly its encoding, it is well formed, all its nodes run, and its
/// counts fit what the reader accepts.
pub open spec fn prog_encoded(bytes: Seq<u8>, q: crate::grid::ProgramV) -> bool {
    &&& bytes == spec_encode(q)
    &&& q.wf()
    &&& prog_fits(q)
    &&& forall|k: int| 0 <= k < q.nodes.len() ==> (#[trigger] q.nodes[k]).node.status is Running
}

/// Deserializes a program serialized by `encode_program`: the decoded
/// program is well formed, and every node of it is running. Any fault in the
/// input gives nothing back — but the exact encoding of any well-formed,
/// all-running program whose counts fit decodes to exactly that program, so
/// the codec round-trips.
#[verifier::rlimit(100)]
pub fn decode_program(bytes: &[u8]) -> (r: Option<Program>)
    ensures
        r matches Some(p) ==> p@.wf() && (forall|k: int|
            0 <= k < p@.nodes.len() ==> (#[trigger] p@.nodes[k]).node.status is Running),
        forall|q: crate::grid::ProgramV|
            #[trigger] prog_encoded(bytes@, q) ==> (r matches Some(p) && p@ == q),
{
    let n = bytes.len();
    proof {
        assert forall|q: crate::grid::ProgramV| #[trigger] prog_encoded(bytes@, q) implies
            bytes_at(bytes@, 0, spec_encode(q)) by {
            assert(bytes@.subrange(0, bytes@.len() as int) =~= bytes@);
        }
    }
    if n < 8 {
        proof {
            assert forall|q: crate::grid::ProgramV| !prog_encoded(bytes@, q) by {
                if prog_encoded(bytes@, q) {
                    lemma_prog_head(bytes@, q);
                }
            }
        }
        return None;
    }
    if !(bytes[0] == 103 && bytes[1] == 114 && bytes[2] == 105 && bytes[3] == 100 && bytes[4]
        == 118 && bytes[5] == 109 && bytes[6] == 49 && bytes[7] == 10) {
        proof {
            assert forall|q: crate::grid::ProgramV| !prog_encoded(bytes@, q) by {
                if prog_encoded(bytes@, q) {
                    lemma_prog_head(bytes@, q);
                    assert forall|k: int| 0 <= k < 8 implies bytes@[k] == spec_magic()[k] by {
                        assert(bytes@.subrange(0, 8)[k] == bytes@[k]);
                    }
                }
            }
        }
        return None;
    }
    let r0 = read_i64(bytes, 8);
    let (x, p1) = match r0 {
        Some(t) => t,
        None => {
            proof {
                assert forall|q: crate::grid::ProgramV| !prog_encoded(bytes@, q) by {
                    if prog_encoded(bytes@, q) {
                        lemma_prog_head(bytes@, q);
                    }
                }
            }
            return None;
        },
    };
    let r1 = read_i64(bytes, p1);
    let (y, p2) = match r1 {
        Some(t) => t,
        None => {
            proof {
                assert forall|q: crate::grid::ProgramV| !prog_encoded(bytes@, q) by {
                    if prog_encoded(bytes@, q) {
                        lemma_prog_head(bytes@, q);
                    }
                }
            }
            return None;
        },
    };
    let r2 = read_len(bytes, p2);
    let (count, p3) = match r2 {
        Some(t) => t,
        None => {
            proof {
                assert forall|q: crate::grid::ProgramV| !prog_encoded(bytes@, q) by {
                    if prog_encoded(bytes@, q) {
                        lemma_prog_head(bytes@, q);
                    }
                }
            }
            return None;
        },
    };
    let mut prog = Program::new();
    prog.pos = Pos(x, y);
    let mut cursor = p3;
    let mut i: usize = 0;
    proof {
        assert forall|q: crate::grid::ProgramV| #[trigger] prog_encoded(bytes@, q) implies (count
            == q.nodes.len() && cursor as int == spec_header(q).len() + spec_encode_entries(
            q.nodes.take(i as int),
        ).len() && prog@.nodes == q.nodes.take(i as int) && prog@.pos == q.pos) by {
            lemma_prog_head(bytes@, q);
            assert(spec_encode_entries(q.nodes.take(0)) =~= Seq::<u8>::empty());
            assert(prog@.nodes =~= q.nodes.take(0));
            assert(q.pos == Pos(q.pos.0, q.pos.1));
        }
    }
    while i < count
        invariant
            cursor <= bytes@.len(),
            prog@.wf(),
            i <= count,
            forall|k: int|
                0 <= k < prog@.nodes.len() ==> (#[trigger] prog@.nodes[k]).node.status
                    is Running,
            forall|q: crate::grid::ProgramV|
                #[trigger] prog_encoded(bytes@, q) ==> (count == q.nodes.len() && cursor as int
                    == spec_header(q).len() + spec_encode_entries(q.nodes.take(i as int)).len()
                    && prog@.nodes == q.nodes.take(i as int) && prog@.pos == q.pos),
        decreases count - i,
    {
        let ghost pre_nodes = prog@.nodes;
        let re = read_entry(bytes, cursor, &mut prog);
        proof {
            assert forall|q: crate::grid::ProgramV| #[trigger] prog_encoded(bytes@, q) implies
                entry_encoded_at(bytes@, cursor as int, q.nodes[i as int], pre_nodes) by {
                assert(bytes@.subrange(0, bytes@.len() as int) =~= bytes@);
                lemma_prog_head(bytes@, q);
                lemma_entries_take_from(q.nodes, i as int);
                lemma_bytes_at_split(
                    bytes@,
                    spec_header(q).len() as int,
                    spec_encode_entries(q.nodes.take(i as int)),
                    spec_entries_from(q.nodes, i as int),
                );
                lemma_bytes_at_split(
                    bytes@,
                    cursor as int,
                    spec_encode_entry(q.nodes[i as int]),
                    spec_entries_from(q.nodes, i + 1),
                );
                assert forall|k: int| 0 <= k < pre_nodes.len() implies (
                #[trigger] pre_nodes[k]).pos != q.nodes[i as int].pos by {
                    assert(pre_nodes[k] == q.nodes[k]);
                }
                lemma_grid_absent(pre_nodes, q.nodes[i as int].pos);
            }
        }
        cursor = match re {
            Some(np) => np,
            None => {
                return None;
            },
        };
        proof {
            assert forall|q: crate::grid::ProgramV| #[trigger] prog_encoded(bytes@, q) implies (
            count == q.nodes.len() && cursor as int == spec_header(q).len() + spec_encode_entries(
                q.nodes.take(i + 1),
            ).len() && prog@.nodes == q.nodes.take(i + 1) && prog@.pos == q.pos) by {
                assert(q.nodes.take(i + 1).drop_last() =~= q.nodes.take(i as int));
                assert(q.nodes.take(i + 1).last() == q.nodes[i as int]);
                assert(prog@.nodes =~= q.nodes.take(i + 1));
            }
        }
        i = i + 1;
    }
    if cursor != n {
        proof {
            assert forall|q: crate::grid::ProgramV| !prog_encoded(bytes@, q) by {
                if prog_encoded(bytes@, q) {
                    assert(q.nodes.take(count as int) =~= q.nodes);
                }
            }
        }
        return None;
    }
    proof {
        assert forall|q: crate::grid::ProgramV| #[trigger] prog_encoded(bytes@, q) implies prog@
            == q by {
            assert(q.nodes.take(count as int) =~= q.nodes);
            assert(prog@ == (crate::grid::ProgramV { pos: q.pos, nodes: q.nodes }));
        }
    }
    Some(prog)
}

} // verus!

//! Line parsing: tokenization, and the reading of one trimmed, non-empty
//! source line as exactly one instruction, or into a syntax error naming
//! the offending token.
//!
//! A line whose first byte is `#` is wholly a comment, its text kept
//! verbatim. A line containing `:` declares a label, named by the bytes
//! before the first colon, verbatim. Every other line is lowercased and split
//! on whitespace; the first word must come from the closed opcode set.

use vstd::prelude::*;
use crate::instr::{copy_bytes, Instruction, InstrV, Label};
use crate::ports::{kw3, spec_port, Port};

verus! {

/// Why a line was refused.
#[derive(Clone, Copy, Debug, PartialEq, Eq, Structural)]
pub enum ParseErrorKind {
    /// The first word is not in the closed opcode set.
    UnknownOpcode,
    /// The opcode wants more operand tokens than the line carries.
    MissingOperand,
    /// The line carries more tokens than the opcode takes.
    ExtraOperand,
    /// An operand is neither a port keyword nor a signed integer in range.
    BadPort,
    /// A `mov` destination is an integer literal, which is read-only.
    ImmediateDestination,
}

/// A syntax error: the kind of fault, and the token it was found in.
#[derive(Clone, Debug, PartialEq, Eq)]
pub struct ParseError {
    pub kind: ParseErrorKind,
    pub token: Vec<u8>,
}

/// Mathematical image of a `ParseError`.
pub struct ParseErrorV {
    pub kind: ParseErrorKind,
    pub token: Seq<u8>,
}

impl View for ParseError {
    type V = ParseErrorV;

    open spec fn view(&self) -> ParseErrorV {
        ParseErrorV { kind: self.kind, token: self.token@ }
    }
}

/// Blank bytes a line is split on.
pub open spec fn is_space(b: u8) -> bool {
    b == 32 || b == 9
}

/// A line with no leading or trailing blank and at least one byte: the shape
/// the parser is handed.
pub open spec fn trimmed_nonempty(line: Seq<u8>) -> bool {
    line.len() > 0 && !is_space(line[0]) && !is_space(line[line.len() - 1])
}

/// ASCII lowercase of one byte.
pub open spec fn lower(b: u8) -> u8 {
    if 65 <= b <= 90 {
        (b + 32) as u8
    } else {
        b
    }
}

/// ASCII lowercase of a whole line.
pub open spec fn lower_seq(s: Seq<u8>) -> Seq<u8> {
    s.map_values(|b: u8| lower(b))
}

/// The longest blank-free prefix.
pub open spec fn spec_take_word(s: Seq<u8>) -> Seq<u8>
    decreases s.len(),
{
    if s.len() == 0 || is_space(s[0]) {
        Seq::empty()
    } else {
        seq![s[0]] + spec_take_word(s.skip(1))
    }
}

/// The blank-separated words of a line, in order.
pub open spec fn spec_tokenize(s: Seq<u8>) -> Seq<Seq<u8>>
    decreases s.len(),
    via spec_tokenize_decreases
{
    if s.len() == 0 {
        Seq::empty()
    } else if is_space(s[0]) {
        spec_tokenize(s.skip(1))
    } else {
        seq![spec_take_word(s)] + spec_tokenize(s.skip(spec_take_word(s).len() as int))
    }
}

#[via_fn]
proof fn spec_tokenize_decreases(s: Seq<u8>) {
    if s.len() > 0 && !is_space(s[0]) {
        lemma_take_word_len(s);
        assert(spec_take_word(s) == seq![s[0]] + spec_take_word(s.skip(1)));
        assert(spec_take_word(s).len() >= 1);
    }
}

/// A word is never longer than the line it starts.
proof fn lemma_take_word_len(s: Seq<u8>)
    ensures
        spec_take_word(s).len() <= s.len(),
    decreases s.len(),
{
    if s.len() == 0 || is_space(s[0]) {
    } else {
        lemma_take_word_len(s.skip(1));
    }
}

/// Whether `b` occurs in `s`.
pub open spec fn has_byte(s: Seq<u8>, b: u8) -> bool {
    exists|i: int| 0 <= i < s.len() && s[i] == b
}

/// The bytes before the first colon; the whole of `s` when it has none.
pub open spec fn before_colon(s: Seq<u8>) -> Seq<u8>
    decreases s.len(),
{
    if s.len() == 0 || s[0] == 58 {
        Seq::empty()
    } else {
        seq![s[0]] + before_colon(s.skip(1))
    }
}

/// `s` with every trailing comma removed.
pub open spec fn strip_commas(s: Seq<u8>) -> Seq<u8>
    decreases s.len(),
{
    if s.len() > 0 && s.last() == 44 {
        strip_commas(s.drop_last())
    } else {
        s
    }
}

/// What one line means, over the word list of a lowercased, non-comment,
/// non-label line.
pub open spec fn spec_parse_words(ws: Seq<Seq<u8>>) -> Result<InstrV, ParseErrorV> {
    if ws.len() == 0 {
        Err(ParseErrorV { kind: ParseErrorKind::UnknownOpcode, token: Seq::empty() })
    } else {
        let w0 = ws[0];
        if w0 == seq![110u8, 111u8, 112u8] {  // nop
            spec_zero_operands(ws, InstrV::Nop)
        } else if w0 == seq![115u8, 119u8, 112u8] {  // swp
            spec_zero_operands(ws, InstrV::Swp)
        } else if w0 == seq![115u8, 97u8, 118u8] {  // sav
            spec_zero_operands(ws, InstrV::Sav)
        } else if w0 == seq![110u8, 101u8, 103u8] {  // neg
            spec_zero_operands(ws, InstrV::Neg)
        } else if w0 == seq![106u8, 109u8, 112u8] {  // jmp
            spec_jump(ws, |l: Seq<u8>| InstrV::Jmp(l))
        } else if w0 == seq![106u8, 101u8, 122u8] {  // jez
            spec_jump(ws, |l: Seq<u8>| InstrV::Jez(l))
        } else if w0 == seq![106u8, 110u8, 122u8] {  // jnz
            spec_jump(ws, |l: Seq<u8>| InstrV::Jnz(l))
        } else if w0 == seq![106u8, 103u8, 122u8] {  // jgz
            spec_jump(ws, |l: Seq<u8>| InstrV::Jgz(l))
        } else if w0 == seq![106u8, 108u8, 122u8] {  // jlz
            spec_jump(ws, |l: Seq<u8>| InstrV::Jlz(l))
        } else if w0 == seq![106u8, 114u8, 111u8] {  // jro
            spec_one_port(ws, |p: Port| InstrV::Jro(p))
        } else if w0 == seq![97u8, 100u8, 100u8] {  // add
            spec_one_port(ws, |p: Port| InstrV::Add(p))
        } else if w0 == seq![115u8, 117u8, 98u8] {  // sub
            spec_one_port(ws, |p: Port| InstrV::Sub(p))
        } else if w0 == seq![109u8, 111u8, 118u8] {  // mov
            spec_mov(ws)
        } else {
            Err(ParseErrorV { kind: ParseErrorKind::UnknownOpcode, token: w0 })
        }
    }
}

/// An opcode that takes no operand.
pub open spec fn spec_zero_operands(ws: Seq<Seq<u8>>, i: InstrV) -> Result<InstrV, ParseErrorV> {
    if ws.len() == 1 {
        Ok(i)
    } else {
        Err(ParseErrorV { kind: ParseErrorKind::ExtraOperand, token: ws[1] })
    }
}

/// A jump opcode: exactly one operand, naming a label.
pub open spec fn spec_jump(
    ws: Seq<Seq<u8>>,
    make: spec_fn(Seq<u8>) -> InstrV,
) -> Result<InstrV, ParseErrorV> {
    if ws.len() < 2 {
        Err(ParseErrorV { kind: ParseErrorKind::MissingOperand, token: ws[0] })
    } else if ws.len() > 2 {
        Err(ParseErrorV { kind: ParseErrorKind::ExtraOperand, token: ws[2] })
    } else {
        Ok(make(ws[1]))
    }
}

/// An opcode with exactly one port operand.
pub open spec fn spec_one_port(
    ws: Seq<Seq<u8>>,
    make: spec_fn(Port) -> InstrV,
) -> Result<InstrV, ParseErrorV> {
    if ws.len() < 2 {
        Err(ParseErrorV { kind: ParseErrorKind::MissingOperand, token: ws[0] })
    } else if ws.len() > 2 {
        Err(ParseErrorV { kind: ParseErrorKind::ExtraOperand, token: ws[2] })
    } else {
        match spec_port(ws[1]) {
            Some(p) => Ok(make(p)),
            None => Err(ParseErrorV { kind: ParseErrorKind::BadPort, token: ws[1] }),
        }
    }
}

/// `mov`: a source port, whose token may end in commas that are dropped, and
/// a destination port, which may not be an immediate.
pub open spec fn spec_mov(ws: Seq<Seq<u8>>) -> Result<InstrV, ParseErrorV> {
    if ws.len() < 3 {
        Err(ParseErrorV { kind: ParseErrorKind::MissingOperand, token: ws[0] })
    } else if ws.len() > 3 {
        Err(ParseErrorV { kind: ParseErrorKind::ExtraOperand, token: ws[3] })
    } else {
        let src_tok = strip_commas(ws[1]);
        match spec_port(src_tok) {
            None => Err(ParseErrorV { kind: ParseErrorKind::BadPort, token: src_tok }),
            Some(src) => match spec_port(ws[2]) {
                None => Err(ParseErrorV { kind: ParseErrorKind::BadPort, token: ws[2] }),
                Some(dst) => if dst is Value {
                    Err(ParseErrorV { kind: ParseErrorKind::ImmediateDestination, token: ws[2] })
                } else {
                    Ok(InstrV::Mov(src, dst))
                },
            },
        }
    }
}

/// What one trimmed, non-empty line means: a comment, a label declaration,
/// or an opcode with its operands.
pub open spec fn spec_parse(line: Seq<u8>) -> Result<InstrV, ParseErrorV>
    recommends
        trimmed_nonempty(line),
{
    if line.len() > 0 && line[0] == 35 {
        Ok(InstrV::Comment(line.skip(1)))
    } else if has_byte(line, 58) {
        Ok(InstrV::CreateLabel(before_colon(line)))
    } else {
        spec_parse_words(spec_tokenize(lower_seq(line)))
    }
}

/// Parsing is a function of the line alone: any two parses of one line give
/// structurally equal results, instruction or error alike.
pub proof fn lemma_parse_deterministic(
    line: Seq<u8>,
    r1: Result<InstrV, ParseErrorV>,
    r2: Result<InstrV, ParseErrorV>,
)
    requires
        r1 == spec_parse(line),
        r2 == spec_parse(line),
    ensures
        r1 == r2,
{
}

/// Copy of the byte range `[from, to)` of a slice.
pub fn sub_bytes(s: &[u8], from: usize, to: usize) -> (r: Vec<u8>)
    requires
        from <= to <= s@.len(),
    ensures
        r@ == s@.subrange(from as int, to as int),
{
    let mut out: Vec<u8> = Vec::new();
    let mut i: usize = from;
    while i < to
        invariant
            from <= i <= to <= s@.len(),
            out@ == s@.subrange(from as int, i as int),
        decreases to - i,
    {
        out.push(s[i]);
        proof {
            assert(out@ =~= s@.subrange(from as int, i + 1));
        }
        i = i + 1;
    }
    out
}

/// ASCII-lowercased copy of a line.
fn to_lower(line: &[u8]) -> (r: Vec<u8>)
    ensures
        r@ == lower_seq(line@),
{
    let mut out: Vec<u8> = Vec::new();
    let mut i: usize = 0;
    while i < line.len()
        invariant
            i <= line@.len(),
            out@ == lower_seq(line@).take(i as int),
        decreases line@.len() - i,
    {
        let b = line[i];
        let lb: u8 = if 65 <= b && b <= 90 {
            b + 32
        } else {
            b
        };
        out.push(lb);
        proof {
            assert(out@ =~= lower_seq(line@).take(i + 1));
        }
        i = i + 1;
    }
    proof {
        assert(lower_seq(line@).take(line@.len() as int) =~= lower_seq(line@));
    }
    out
}

/// The longest blank-free run of `s` from `j` on is `s[j .. j + k]`.
proof fn lemma_take_word_span(s: Seq<u8>, j: int)
    requires
        0 <= j <= s.len(),
        forall|k: int| 0 <= k < j ==> !is_space(#[trigger] s[k]),
        j == s.len() || is_space(s[j]),
    ensures
        spec_take_word(s) == s.take(j),
    decreases j,
{
    if j == 0 {
        assert(s.take(0) =~= Seq::<u8>::empty());
    } else {
        lemma_take_word_span(s.skip(1), j - 1);
        assert(s.take(j) =~= seq![s[0]] + s.skip(1).take(j - 1));
    }
}

/// The bytes before the first colon are a plain prefix.
proof fn lemma_before_colon(s: Seq<u8>, j: int)
    requires
        0 <= j <= s.len(),
        forall|k: int| 0 <= k < j ==> s[k] != 58,
        j == s.len() || s[j] == 58,
    ensures
        before_colon(s) == s.take(j),
    decreases j,
{
    if j == 0 {
        assert(s.take(0) =~= Seq::<u8>::empty());
    } else {
        lemma_before_colon(s.skip(1), j - 1);
        assert(s.take(j) =~= seq![s[0]] + s.skip(1).take(j - 1));
    }
}

/// Dropping trailing commas is taking the prefix before them.
proof fn lemma_strip_commas(s: Seq<u8>, e: int)
    requires
        0 <= e <= s.len(),
        forall|k: int| e <= k < s.len() ==> s[k] == 44,
        e == 0 || s[e - 1] != 44,
    ensures
        strip_commas(s) == s.take(e),
    decreases s.len(),
{
    if s.len() == 0 {
        assert(s.take(0) =~= s);
    } else if e == s.len() {
        assert(s.last() != 44);
        assert(s.take(e) =~= s);
    } else {
        assert(s.last() == 44);
        lemma_strip_commas(s.drop_last(), e);
        assert(s.drop_last().take(e) =~= s.take(e));
    }
}

/// Splits a line into its blank-separated words, exactly as `spec_tokenize`
/// gives them.
fn tokenize(line: &[u8]) -> (r: Vec<Vec<u8>>)
    ensures
        r.deep_view() == spec_tokenize(line@),
{
    let n = line.len();
    let mut toks: Vec<Vec<u8>> = Vec::new();
    let mut i: usize = 0;
    proof {
        assert(toks.deep_view() =~~= Seq::<Seq<u8>>::empty());
        assert(line@.skip(0) =~= line@);
        assert(Seq::<Seq<u8>>::empty() + spec_tokenize(line@) =~~= spec_tokenize(line@));
    }
    while i < n
        invariant
            i <= n == line@.len(),
            spec_tokenize(line@) == toks.deep_view() + spec_tokenize(line@.skip(i as int)),
        decreases n - i,
    {
        let b = line[i];
        if b == 32 || b == 9 {
            proof {
                assert(line@.skip(i as int)[0] == line@[i as int]);
                assert(line@.skip(i as int).skip(1) =~= line@.skip(i + 1));
            }
            i = i + 1;
        } else {
            let start = i;
            let mut j = i;
            while j < n && line[j] != 32 && line[j] != 9
                invariant
                    start <= j <= n == line@.len(),
                    forall|k: int| start <= k < j ==> !is_space(#[trigger] line@[k]),
                decreases n - j,
            {
                j = j + 1;
            }
            let w = sub_bytes(line, start, j);
            proof {
                let rest = line@.skip(start as int);
                assert forall|k: int| 0 <= k < j - start implies !is_space(#[trigger] rest[k]) by {
                    assert(rest[k] == line@[k + start]);
                }
                if j < n {
                    assert(rest[j - start] == line@[j as int]);
                }
                lemma_take_word_span(rest, j - start);
                assert(rest.take(j - start) =~= line@.subrange(start as int, j as int));
                assert(!is_space(rest[0]));
                assert(spec_tokenize(rest) == seq![w@] + spec_tokenize(rest.skip(j - start)));
                assert(rest.skip(j - start) =~= line@.skip(j as int));
            }
            let ghost old_toks = toks.deep_view();
            toks.push(w);
            proof {
                assert(toks.deep_view() =~~= old_toks.push(w@));
                assert(old_toks.push(w@) + spec_tokenize(line@.skip(j as int)) =~~= old_toks + (
                seq![w@] + spec_tokenize(line@.skip(j as int))));
            }
            i = j;
        }
    }
    proof {
        assert(line@.skip(n as int) =~= Seq::<u8>::empty());
        assert(toks.deep_view() + Seq::<Seq<u8>>::empty() =~~= toks.deep_view());
    }
    toks
}

/// Turns one trimmed, non-empty line into one instruction or one error,
/// exactly as `spec_parse` gives it. Nothing else is touched: the caller
/// appends the instruction only on success.
pub fn parse_instruction(line: &[u8]) -> (r: Result<Instruction, ParseError>)
    requires
        trimmed_nonempty(line@),
    ensures
        (spec_parse(line@) matches Ok(iv) ==> r matches Ok(i) && i@ == iv),
        (spec_parse(line@) matches Err(ev) ==> r matches Err(e) && e@ == ev),
{
    let n = line.len();
    if line[0] == 35 {
        let text = sub_bytes(line, 1, n);
        proof {
            assert(text@ =~= line@.skip(1));
        }
        return Ok(Instruction::Comment(text));
    }
    let mut c: usize = 0;
    while c < n && line[c] != 58
        invariant
            c <= n == line@.len(),
            forall|k: int| 0 <= k < c ==> line@[k] != 58,
        decreases n - c,
    {
        c = c + 1;
    }
    if c < n {
        let name = sub_bytes(line, 0, c);
        proof {
            lemma_before_colon(line@, c as int);
            assert(line@.take(c as int) =~= line@.subrange(0, c as int));
        }
        return Ok(Instruction::CreateLabel(Label(name)));
    }
    proof {
        assert(!has_byte(line@, 58));
    }
    let lowered = to_lower(line);
    let toks = tokenize(lowered.as_slice());
    let ghost ws = spec_tokenize(lower_seq(line@));
    proof {
        assert(toks.deep_view().len() == toks@.len());
    }
    parse_words(toks)
}

/// Dispatch over the word list of a lowercased line.
#[verifier::rlimit(60)]
fn parse_words(toks: Vec<Vec<u8>>) -> (r: Result<Instruction, ParseError>)
    ensures
        (spec_parse_words(toks.deep_view()) matches Ok(iv) ==> r matches Ok(i) && i@ == iv),
        (spec_parse_words(toks.deep_view()) matches Err(ev) ==> r matches Err(e) && e@ == ev),
{
    let ghost ws = toks.deep_view();
    if toks.len() == 0 {
        return Err(ParseError { kind: ParseErrorKind::UnknownOpcode, token: Vec::new() });
    }
    proof {
        assert(ws[0] == toks@[0]@);
    }
    let w0 = toks[0].as_slice();
    if kw3(w0, 110, 111, 112) {
        zero_operands(&toks, Instruction::Nop)
    } else if kw3(w0, 115, 119, 112) {
        zero_operands(&toks, Instruction::Swp)
    } else if kw3(w0, 115, 97, 118) {
        zero_operands(&toks, Instruction::Sav)
    } else if kw3(w0, 110, 101, 103) {
        zero_operands(&toks, Instruction::Neg)
    } else if kw3(w0, 106, 109, 112) {
        match jump_operand(&toks) {
            Ok(l) => Ok(Instruction::Jmp(l)),
            Err(e) => Err(e),
        }
    } else if kw3(w0, 106, 101, 122) {
        match jump_operand(&toks) {
            Ok(l) => Ok(Instruction::Jez(l)),
            Err(e) => Err(e),
        }
    } else if kw3(w0, 106, 110, 122) {
        match jump_operand(&toks) {
            Ok(l) => Ok(Instruction::Jnz(l)),
            Err(e) => Err(e),
        }
    } else if kw3(w0, 106, 103, 122) {
        match jump_operand(&toks) {
            Ok(l) => Ok(Instruction::Jgz(l)),
            Err(e) => Err(e),
        }
    } else if kw3(w0, 106, 108, 122) {
        match jump_operand(&toks) {
            Ok(l) => Ok(Instruction::Jlz(l)),
            Err(e) => Err(e),
        }
    } else if kw3(w0, 106, 114, 111) {
        match port_operand(&toks) {
            Ok(p) => Ok(Instruction::Jro(p)),
            Err(e) => Err(e),
        }
    } else if kw3(w0, 97, 100, 100) {
        match port_operand(&toks) {
            Ok(p) => Ok(Instruction::Add(p)),
            Err(e) => Err(e),
        }
    } else if kw3(w0, 115, 117, 98) {
        match port_operand(&toks) {
            Ok(p) => Ok(Instruction::Sub(p)),
            Err(e) => Err(e),
        }
    } else if kw3(w0, 109, 111, 118) {
        parse_mov(&toks)
    } else {
        Err(
            ParseError {
                kind: ParseErrorKind::UnknownOpcode,
                token: copy_bytes(&toks[0]),
            },
        )
    }
}

/// Accepts a bare opcode; any second word is one too many.
fn zero_operands(toks: &Vec<Vec<u8>>, i: Instruction) -> (r: Result<Instruction, ParseError>)
    requires
        toks@.len() >= 1,
    ensures
        (spec_zero_operands(toks.deep_view(), i@) matches Ok(iv) ==> r matches Ok(out) && out@
            == iv),
        (spec_zero_operands(toks.deep_view(), i@) matches Err(ev) ==> r matches Err(e) && e@
            == ev),
{
    if toks.len() == 1 {
        Ok(i)
    } else {
        proof {
            assert(toks.deep_view()[1] == toks@[1]@);
        }
        Err(ParseError { kind: ParseErrorKind::ExtraOperand, token: copy_bytes(&toks[1]) })
    }
}

/// The single label operand of a jump.
fn jump_operand(toks: &Vec<Vec<u8>>) -> (r: Result<Label, ParseError>)
    requires
        toks@.len() >= 1,
    ensures
        toks.deep_view().len() == 2 ==> (r matches Ok(l) && l@ == toks.deep_view()[1]),
        toks.deep_view().len() < 2 ==> (r matches Err(e) && e@ == (ParseErrorV {
            kind: ParseErrorKind::MissingOperand,
            token: toks.deep_view()[0],
        })),
        toks.deep_view().len() > 2 ==> (r matches Err(e) && e@ == (ParseErrorV {
            kind: ParseErrorKind::ExtraOperand,
            token: toks.deep_view()[2],
        })),
{
    proof {
        assert(toks.deep_view()[0] == toks@[0]@);
        if toks@.len() >= 2 {
            assert(toks.deep_view()[1] == toks@[1]@);
        }
        if toks@.len() >= 3 {
            assert(toks.deep_view()[2] == toks@[2]@);
        }
    }
    if toks.len() < 2 {
        Err(ParseError { kind: ParseErrorKind::MissingOperand, token: copy_bytes(&toks[0]) })
    } else if toks.len() > 2 {
        Err(ParseError { kind: ParseErrorKind::ExtraOperand, token: copy_bytes(&toks[2]) })
    } else {
        Ok(Label(copy_bytes(&toks[1])))
    }
}

/// The single port operand of `jro`, `add` and `sub`.
fn port_operand(toks: &Vec<Vec<u8>>) -> (r: Result<Port, ParseError>)
    requires
        toks@.len() >= 1,
    ensures
        (spec_one_port(toks.deep_view(), |p: Port| InstrV::Jro(p)) matches Ok(iv) ==> r matches Ok(
        p,
        ) && iv == InstrV::Jro(p)),
        (spec_one_port(toks.deep_view(), |p: Port| InstrV::Jro(p)) matches Err(ev) ==> r matches Err(
        e,
        ) && e@ == ev),
{
    proof {
        assert(toks.deep_view()[0] == toks@[0]@);
        if toks@.len() >= 2 {
            assert(toks.deep_view()[1] == toks@[1]@);
        }
        if toks@.len() >= 3 {
            assert(toks.deep_view()[2] == toks@[2]@);
        }
    }
    if toks.len() < 2 {
        Err(ParseError { kind: ParseErrorKind::MissingOperand, token: copy_bytes(&toks[0]) })
    } else if toks.len() > 2 {
        Err(ParseError { kind: ParseErrorKind::ExtraOperand, token: copy_bytes(&toks[2]) })
    } else {
        Port::parse(toks[1].as_slice())
    }
}

/// `mov <src>[,] <dst>`.
fn parse_mov(toks: &Vec<Vec<u8>>) -> (r: Result<Instruction, ParseError>)
    requires
        toks@.len() >= 1,
    ensures
        (spec_mov(toks.deep_view()) matches Ok(iv) ==> r matches Ok(i) && i@ == iv),
        (spec_mov(toks.deep_view()) matches Err(ev) ==> r matches Err(e) && e@ == ev),
{
    proof {
        assert(toks.deep_view()[0] == toks@[0]@);
        if toks@.len() >= 2 {
            assert(toks.deep_view()[1] == toks@[1]@);
        }
        if toks@.len() >= 3 {
            assert(toks.deep_view()[2] == toks@[2]@);
        }
        if toks@.len() >= 4 {
            assert(toks.deep_view()[3] == toks@[3]@);
        }
    }
    if toks.len() < 3 {
        return Err(ParseError { kind: ParseErrorKind::MissingOperand, token: copy_bytes(&toks[0]) });
    }
    if toks.len() > 3 {
        return Err(ParseError { kind: ParseErrorKind::ExtraOperand, token: copy_bytes(&toks[3]) });
    }
    let raw = toks[1].as_slice();
    let mut end: usize = raw.len();
    while end > 0 && raw[end - 1] == 44
        invariant
            end <= raw@.len(),
            forall|k: int| end <= k < raw@.len() ==> raw@[k] == 44,
        decreases end,
    {
        end = end - 1;
    }
    let src_tok = sub_bytes(raw, 0, end);
    proof {
        lemma_strip_commas(raw@, end as int);
        assert(raw@.take(end as int) =~= raw@.subrange(0, end as int));
    }
    let src = match Port::parse(src_tok.as_slice()) {
        Ok(p) => p,
        Err(e) => {
            return Err(e);
        },
    };
    let dst = match Port::parse(toks[2].as_slice()) {
        Ok(p) => p,
        Err(e) => {
            return Err(e);
        },
    };
    if let Port::Value(_) = dst {
        return Err(
            ParseError { kind: ParseErrorKind::ImmediateDestination, token: copy_bytes(&toks[2]) },
        );
    }
    Ok(Instruction::Mov(src, dst))
}

} // verus!

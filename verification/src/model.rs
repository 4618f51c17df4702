//! The specification of the extractor: how a line is classified, how the
//! scanner state machine reacts to each line, and how the emitted units are
//! rendered into the final text.

use vstd::prelude::*;
use crate::text::{has_prefix, split_lines, trim_both, trim_front, last_index_of};

verus! {

/// The ways an extraction can fail.  All of them are fatal: no partial result
/// is returned.
#[derive(Clone, Copy, Debug, PartialEq, Eq, Structural)]
pub enum ParseError {
    /// The path of the file carries no extension.
    MissingExtension,
    /// A `startcode` instruction arrived while code was already being emitted.
    StartInsideCode,
    /// An `endcode` instruction arrived while no code was being emitted.
    EndOutsideCode,
    /// An instruction outside the recognized vocabulary.
    UnknownInstruction,
    /// The input ended while code was still being emitted.
    UnterminatedCode,
}

/// The prefix that turns a specification comment into an instruction.
pub open spec fn instruction_prefix() -> Seq<char> {
    "spec:"@
}

/// The instruction that opens a code region.
pub open spec fn startcode_name() -> Seq<char> {
    "startcode"@
}

/// The instruction that closes a code region.
pub open spec fn endcode_name() -> Seq<char> {
    "endcode"@
}

/// The line that opens a fenced code block in the output.
pub open spec fn open_fence() -> Seq<char> {
    "```rust"@
}

/// The line that closes a fenced code block in the output.
pub open spec fn close_fence() -> Seq<char> {
    "```"@
}

/// The line terminator of the output.
pub open spec fn nl() -> Seq<char> {
    "\n"@
}

/// The file extension that makes a file pass through unchanged.
pub open spec fn md_extension() -> Seq<char> {
    "md"@
}

/// A line is a specification line when its leading whitespace is followed by
/// the delimiter.
pub open spec fn is_spec_line(line: Seq<char>, delim: Seq<char>) -> bool {
    has_prefix(trim_front(line), delim)
}

/// The payload of a specification line: what follows the delimiter, with
/// whitespace trimmed at both ends.
pub open spec fn payload_of(line: Seq<char>, delim: Seq<char>) -> Seq<char> {
    trim_both(trim_front(line).skip(delim.len() as int))
}

/// What the scanner sees in one input line.
pub enum LineClass {
    /// Not a specification line; carries the line itself.
    Plain(Seq<char>),
    /// A specification line whose payload begins with the instruction prefix;
    /// carries what follows that prefix, exactly.
    Instruction(Seq<char>),
    /// Any other specification line; carries the payload.
    Prose(Seq<char>),
}

/// Classification of one input line.
pub open spec fn classify(line: Seq<char>, delim: Seq<char>) -> LineClass {
    if !is_spec_line(line, delim) {
        LineClass::Plain(line)
    } else {
        let payload = payload_of(line, delim);
        if has_prefix(payload, instruction_prefix()) {
            LineClass::Instruction(payload.skip(instruction_prefix().len() as int))
        } else {
            LineClass::Prose(payload)
        }
    }
}

/// One line of the output, before rendering.
pub enum OutLine {
    /// The opening fence of a code block.
    OpenFence,
    /// The closing fence of a code block.
    CloseFence,
    /// One half of the blank separator between a run of plain lines and the
    /// prose line after them.
    Blank,
    /// A prose payload, emitted as its own line.
    Prose(Seq<char>),
    /// A plain line copied verbatim from inside a code region.
    Code(Seq<char>),
}

/// The scanner state.
pub struct ScanState {
    /// Whether plain lines are currently copied into a code block: toggled by
    /// `startcode` and `endcode`, initially off.
    pub emitting_code: bool,
    /// Whether the last classified non-instruction line was prose: `None`
    /// before any such line.
    pub prev_was_prose: Option<bool>,
}

/// The state the scanner starts in.
pub open spec fn init_state() -> ScanState {
    ScanState { emitting_code: false, prev_was_prose: None }
}

/// One transition of the scanner: the units emitted for `line` and the state
/// that follows, or the error the line provokes.
pub open spec fn step(st: ScanState, line: Seq<char>, delim: Seq<char>) -> Result<
    (Seq<OutLine>, ScanState),
    ParseError,
> {
    match classify(line, delim) {
        LineClass::Plain(l) => Ok(
            (
                if st.emitting_code {
                    seq![OutLine::Code(l)]
                } else {
                    Seq::empty()
                },
                ScanState { emitting_code: st.emitting_code, prev_was_prose: Some(false) },
            ),
        ),
        LineClass::Instruction(name) => {
            if name == startcode_name() {
                if st.emitting_code {
                    Err(ParseError::StartInsideCode)
                } else {
                    Ok(
                        (
                            seq![OutLine::OpenFence],
                            ScanState { emitting_code: true, prev_was_prose: st.prev_was_prose },
                        ),
                    )
                }
            } else if name == endcode_name() {
                if !st.emitting_code {
                    Err(ParseError::EndOutsideCode)
                } else {
                    Ok(
                        (
                            seq![OutLine::CloseFence],
                            ScanState { emitting_code: false, prev_was_prose: st.prev_was_prose },
                        ),
                    )
                }
            } else {
                Err(ParseError::UnknownInstruction)
            }
        },
        LineClass::Prose(p) => {
            let sep: Seq<OutLine> = if st.prev_was_prose == Some(false) {
                seq![OutLine::Blank, OutLine::Blank]
            } else {
                Seq::empty()
            };
            Ok(
                (
                    sep.push(OutLine::Prose(p)),
                    ScanState { emitting_code: st.emitting_code, prev_was_prose: Some(true) },
                ),
            )
        },
    }
}

/// The scanner run over a sequence of lines from state `st`: all emitted
/// units and the final state, or the first error.
pub open spec fn run(lines: Seq<Seq<char>>, delim: Seq<char>, st: ScanState) -> Result<
    (Seq<OutLine>, ScanState),
    ParseError,
>
    decreases lines.len(),
{
    if lines.len() == 0 {
        Ok((Seq::empty(), st))
    } else {
        match step(st, lines[0], delim) {
            Ok(p) => match run(lines.skip(1), delim, p.1) {
                Ok(q) => Ok((p.0 + q.0, q.1)),
                Err(e) => Err(e),
            },
            Err(e) => Err(e),
        }
    }
}

/// The complete scan: a run from the initial state, which must end outside a
/// code region.
pub open spec fn scan(lines: Seq<Seq<char>>, delim: Seq<char>) -> Result<Seq<OutLine>, ParseError> {
    match run(lines, delim, init_state()) {
        Ok(p) => if p.1.emitting_code {
            Err(ParseError::UnterminatedCode)
        } else {
            Ok(p.0)
        },
        Err(e) => Err(e),
    }
}

/// The text of one output unit, without its line terminator.
pub open spec fn line_text(u: OutLine) -> Seq<char> {
    match u {
        OutLine::OpenFence => open_fence(),
        OutLine::CloseFence => close_fence(),
        OutLine::Blank => Seq::empty(),
        OutLine::Prose(p) => p,
        OutLine::Code(l) => l,
    }
}

/// The output text: each unit on a line of its own.
pub open spec fn render(units: Seq<OutLine>) -> Seq<char>
    decreases units.len(),
{
    if units.len() == 0 {
        Seq::empty()
    } else {
        line_text(units[0]) + nl() + render(units.skip(1))
    }
}

/// What scanning a whole file's contents returns.
pub open spec fn extract_code_spec(contents: Seq<char>, delim: Seq<char>) -> Result<
    Seq<char>,
    ParseError,
> {
    match scan(split_lines(contents), delim) {
        Ok(units) => Ok(render(units)),
        Err(e) => Err(e),
    }
}

/// The file name component of a path: what follows its last separator.
pub open spec fn file_name_of(path: Seq<char>) -> Seq<char> {
    path.skip(last_index_of(path, '/') + 1)
}

/// The extension of a path: what follows the last dot of its file name.  A
/// name without a dot, or whose only dot leads it, has none.
pub open spec fn extension_of(path: Seq<char>) -> Option<Seq<char>> {
    let name = file_name_of(path);
    let dot: int = last_index_of(name, '.');
    if dot <= 0 {
        None
    } else {
        Some(name.skip(dot + 1))
    }
}

/// What extracting a file returns: its contents unchanged when the extension
/// is `md`, the scan of its contents otherwise, and an error when the path
/// has no extension.
pub open spec fn extract_file_spec(
    delim: Seq<char>,
    path: Seq<char>,
    contents: Seq<char>,
) -> Result<Seq<char>, ParseError> {
    match extension_of(path) {
        None => Err(ParseError::MissingExtension),
        Some(ext) => if ext == md_extension() {
            Ok(contents)
        } else {
            extract_code_spec(contents, delim)
        },
    }
}

/// A run distributes over concatenation of its input: the first part runs
/// from the given state, the second from the state the first part reaches,
/// and their outputs follow each other.  In particular the units emitted for
/// earlier lines precede those emitted for later lines.
pub proof fn lemma_run_append(a: Seq<Seq<char>>, b: Seq<Seq<char>>, delim: Seq<char>, st: ScanState)
    ensures
        run(a + b, delim, st) == (match run(a, delim, st) {
            Ok(p) => match run(b, delim, p.1) {
                Ok(q) => Ok::<(Seq<OutLine>, ScanState), ParseError>((p.0 + q.0, q.1)),
                Err(e) => Err(e),
            },
            Err(e) => Err(e),
        }),
    decreases a.len(),
{
    if a.len() == 0 {
        assert(a + b =~= b);
        match run(b, delim, st) {
            Ok(q) => {
                assert(Seq::<OutLine>::empty() + q.0 =~= q.0);
            },
            Err(_) => {},
        }
    } else {
        assert((a + b)[0] == a[0]);
        assert((a + b).skip(1) =~= a.skip(1) + b);
        match step(st, a[0], delim) {
            Ok(p) => {
                lemma_run_append(a.skip(1), b, delim, p.1);
                match run(a.skip(1), delim, p.1) {
                    Ok(q1) => {
                        match run(b, delim, q1.1) {
                            Ok(q2) => {
                                assert(p.0 + (q1.0 + q2.0) =~= (p.0 + q1.0) + q2.0);
                            },
                            Err(_) => {},
                        }
                    },
                    Err(_) => {},
                }
            },
            Err(_) => {},
        }
    }
}

/// A run extended by one line takes one more step from its final state.
pub proof fn lemma_run_snoc(lines: Seq<Seq<char>>, l: Seq<char>, delim: Seq<char>, st: ScanState)
    ensures
        run(lines.push(l), delim, st) == (match run(lines, delim, st) {
            Ok(p) => match step(p.1, l, delim) {
                Ok(q) => Ok::<(Seq<OutLine>, ScanState), ParseError>((p.0 + q.0, q.1)),
                Err(e) => Err(e),
            },
            Err(e) => Err(e),
        }),
{
    assert(lines.push(l) =~= lines + seq![l]);
    lemma_run_append(lines, seq![l], delim, st);
    match run(lines, delim, st) {
        Ok(p) => {
            match step(p.1, l, delim) {
                Ok(q) => {
                    assert(seq![l][0] == l);
                    assert(seq![l].skip(1).len() == 0);
                    assert(run(seq![l].skip(1), delim, q.1) == Ok::<
                        (Seq<OutLine>, ScanState),
                        ParseError,
                    >((Seq::empty(), q.1)));
                    assert(run(seq![l], delim, p.1) == Ok::<(Seq<OutLine>, ScanState), ParseError>(
                        (q.0 + Seq::empty(), q.1),
                    ));
                    assert(q.0 + Seq::<OutLine>::empty() =~= q.0);
                },
                Err(_) => {
                    assert(seq![l][0] == l);
                },
            }
        },
        Err(_) => {},
    }
}

/// Rendering distributes over concatenation of the units.
pub proof fn lemma_render_append(a: Seq<OutLine>, b: Seq<OutLine>)
    ensures
        render(a + b) == render(a) + render(b),
    decreases a.len(),
{
    if a.len() == 0 {
        assert(a + b =~= b);
        assert(Seq::<char>::empty() + render(b) =~= render(b));
    } else {
        assert((a + b)[0] == a[0]);
        assert((a + b).skip(1) =~= a.skip(1) + b);
        lemma_render_append(a.skip(1), b);
        assert(line_text(a[0]) + nl() + (render(a.skip(1)) + render(b)) =~= (line_text(a[0]) + nl()
            + render(a.skip(1))) + render(b));
    }
}

/// Rendering one more unit appends its text and a line terminator.
pub proof fn lemma_render_snoc(units: Seq<OutLine>, u: OutLine)
    ensures
        render(units.push(u)) == render(units) + line_text(u) + nl(),
{
    assert(units.push(u) =~= units + seq![u]);
    lemma_render_append(units, seq![u]);
    assert(seq![u].skip(1).len() == 0);
    assert(render(seq![u]) == line_text(u) + nl() + render(seq![u].skip(1)));
    assert(line_text(u) + nl() + render(seq![u].skip(1)) =~= line_text(u) + nl());
    assert(render(units) + (line_text(u) + nl()) =~= render(units) + line_text(u) + nl());
}

} // verus!

//! The general properties of the extractor, stated over the model and proved
//! once for all inputs: what a file without specification lines yields, how
//! many prose lines are emitted, how the code fences are arranged, what order
//! the output follows, and how Markdown pass-through behaves.

use vstd::prelude::*;
use crate::model::{
    classify, extension_of, extract_code_spec, extract_file_spec, init_state, is_spec_line,
    lemma_run_append, md_extension, run, scan, step, LineClass, OutLine, ParseError, ScanState,
};
use crate::text::split_lines;

verus! {

/// A run over lines none of which is a specification line emits nothing and
/// leaves code emission off.
proof fn lemma_run_all_plain(lines: Seq<Seq<char>>, delim: Seq<char>, st: ScanState)
    requires
        !st.emitting_code,
        forall|i: int| 0 <= i < lines.len() ==> !is_spec_line(#[trigger] lines[i], delim),
    ensures
        ({
            let r = run(lines, delim, st);
            r is Ok && r->Ok_0.0 == Seq::<OutLine>::empty() && !r->Ok_0.1.emitting_code
        }),
    decreases lines.len(),
{
    if lines.len() > 0 {
        let st2 = ScanState { emitting_code: st.emitting_code, prev_was_prose: Some(false) };
        assert(classify(lines[0], delim) == LineClass::Plain(lines[0]));
        assert(step(st, lines[0], delim) == Ok::<(Seq<OutLine>, ScanState), ParseError>(
            (Seq::empty(), st2),
        ));
        assert forall|i: int| 0 <= i < lines.skip(1).len() implies !is_spec_line(
            #[trigger] lines.skip(1)[i],
            delim,
        ) by {
            assert(lines.skip(1)[i] == lines[i + 1]);
        }
        lemma_run_all_plain(lines.skip(1), delim, st2);
        assert(Seq::<OutLine>::empty() + Seq::<OutLine>::empty() =~= Seq::<OutLine>::empty());
    }
}

/// A file none of whose lines is a specification line extracts to the empty
/// text.  Instructions are specification lines, so such a file has none.
pub proof fn lemma_no_spec_lines_extracts_nothing(contents: Seq<char>, delim: Seq<char>)
    requires
        forall|i: int| 0 <= i < split_lines(contents).len() ==> !is_spec_line(
            #[trigger] split_lines(contents)[i],
            delim,
        ),
    ensures
        extract_code_spec(contents, delim) == Ok::<Seq<char>, ParseError>(Seq::<char>::empty()),
{
    lemma_run_all_plain(split_lines(contents), delim, init_state());
}

/// The number of prose lines among the emitted units.
pub open spec fn prose_unit_count(units: Seq<OutLine>) -> nat
    decreases units.len(),
{
    if units.len() == 0 {
        0
    } else {
        (match units[0] {
            OutLine::Prose(_) => 1nat,
            _ => 0nat,
        }) + prose_unit_count(units.skip(1))
    }
}

/// The number of input lines that the scanner classifies as prose.
pub open spec fn prose_line_count(lines: Seq<Seq<char>>, delim: Seq<char>) -> nat
    decreases lines.len(),
{
    if lines.len() == 0 {
        0
    } else {
        (match classify(lines[0], delim) {
            LineClass::Prose(_) => 1nat,
            _ => 0nat,
        }) + prose_line_count(lines.skip(1), delim)
    }
}

proof fn lemma_prose_unit_count_append(a: Seq<OutLine>, b: Seq<OutLine>)
    ensures
        prose_unit_count(a + b) == prose_unit_count(a) + prose_unit_count(b),
    decreases a.len(),
{
    if a.len() == 0 {
        assert(a + b =~= b);
    } else {
        assert((a + b)[0] == a[0]);
        assert((a + b).skip(1) =~= a.skip(1) + b);
        lemma_prose_unit_count_append(a.skip(1), b);
    }
}

proof fn lemma_prose_unit_count_singleton(u: OutLine)
    ensures
        prose_unit_count(seq![u]) == (match u {
            OutLine::Prose(_) => 1nat,
            _ => 0nat,
        }),
{
    reveal_with_fuel(prose_unit_count, 2);
    assert(seq![u][0] == u);
    assert(seq![u].skip(1).len() == 0);
}

/// A successful run emits exactly one prose unit per prose input line.
proof fn lemma_run_prose_count(lines: Seq<Seq<char>>, delim: Seq<char>, st: ScanState)
    requires
        run(lines, delim, st) is Ok,
    ensures
        prose_unit_count(run(lines, delim, st)->Ok_0.0) == prose_line_count(lines, delim),
    decreases lines.len(),
{
    if lines.len() > 0 {
        match step(st, lines[0], delim) {
            Ok(p) => {
                lemma_run_prose_count(lines.skip(1), delim, p.1);
                lemma_prose_unit_count_append(p.0, run(lines.skip(1), delim, p.1)->Ok_0.0);
                match classify(lines[0], delim) {
                    LineClass::Plain(l) => {
                        if st.emitting_code {
                            lemma_prose_unit_count_singleton(OutLine::Code(l));
                        }
                    },
                    LineClass::Instruction(_) => {
                        lemma_prose_unit_count_singleton(OutLine::OpenFence);
                        lemma_prose_unit_count_singleton(OutLine::CloseFence);
                    },
                    LineClass::Prose(pp) => {
                        lemma_prose_unit_count_singleton(OutLine::Blank);
                        lemma_prose_unit_count_singleton(OutLine::Prose(pp));
                        if st.prev_was_prose == Some(false) {
                            let blanks = seq![OutLine::Blank] + seq![OutLine::Blank];
                            assert(p.0 =~= blanks + seq![OutLine::Prose(pp)]);
                            lemma_prose_unit_count_append(seq![OutLine::Blank], seq![OutLine::Blank]);
                            lemma_prose_unit_count_append(blanks, seq![OutLine::Prose(pp)]);
                        } else {
                            assert(p.0 =~= seq![OutLine::Prose(pp)]);
                        }
                    },
                }
            },
            Err(_) => {
                assert(false);
            },
        }
    }
}

/// Emission count: a successful scan emits exactly one prose line for each
/// input line whose payload is prose rather than an instruction.
pub proof fn lemma_emission_count(lines: Seq<Seq<char>>, delim: Seq<char>)
    requires
        scan(lines, delim) is Ok,
    ensures
        prose_unit_count(scan(lines, delim)->Ok_0) == prose_line_count(lines, delim),
{
    lemma_run_prose_count(lines, delim, init_state());
}

/// Whether a unit is one of the two fence lines.
pub open spec fn is_fence(u: OutLine) -> bool {
    u == OutLine::OpenFence || u == OutLine::CloseFence
}

/// The fence units among the emitted units, in order.
pub open spec fn fence_units(units: Seq<OutLine>) -> Seq<OutLine>
    decreases units.len(),
{
    if units.len() == 0 {
        Seq::empty()
    } else {
        (if is_fence(units[0]) {
            seq![units[0]]
        } else {
            Seq::empty()
        }) + fence_units(units.skip(1))
    }
}

/// The fences alternate, the next expected one being an opening fence when
/// `open_next` holds and a closing fence otherwise.
pub open spec fn alternates(fs: Seq<OutLine>, open_next: bool) -> bool
    decreases fs.len(),
{
    if fs.len() == 0 {
        true
    } else if open_next {
        fs[0] == OutLine::OpenFence && alternates(fs.skip(1), false)
    } else {
        fs[0] == OutLine::CloseFence && alternates(fs.skip(1), true)
    }
}

/// The number of opening fences among the units.
pub open spec fn open_count(units: Seq<OutLine>) -> nat
    decreases units.len(),
{
    if units.len() == 0 {
        0
    } else {
        (if units[0] == OutLine::OpenFence {
            1nat
        } else {
            0nat
        }) + open_count(units.skip(1))
    }
}

/// The number of closing fences among the units.
pub open spec fn close_count(units: Seq<OutLine>) -> nat
    decreases units.len(),
{
    if units.len() == 0 {
        0
    } else {
        (if units[0] == OutLine::CloseFence {
            1nat
        } else {
            0nat
        }) + close_count(units.skip(1))
    }
}

proof fn lemma_fence_counts_append(a: Seq<OutLine>, b: Seq<OutLine>)
    ensures
        open_count(a + b) == open_count(a) + open_count(b),
        close_count(a + b) == close_count(a) + close_count(b),
        fence_units(a + b) == fence_units(a) + fence_units(b),
    decreases a.len(),
{
    if a.len() == 0 {
        assert(a + b =~= b);
        assert(Seq::<OutLine>::empty() + fence_units(b) =~= fence_units(b));
    } else {
        assert((a + b)[0] == a[0]);
        assert((a + b).skip(1) =~= a.skip(1) + b);
        lemma_fence_counts_append(a.skip(1), b);
        if is_fence(a[0]) {
            assert(seq![a[0]] + (fence_units(a.skip(1)) + fence_units(b)) =~= (seq![a[0]]
                + fence_units(a.skip(1))) + fence_units(b));
        } else {
            assert(Seq::<OutLine>::empty() + (fence_units(a.skip(1)) + fence_units(b)) =~= (
            Seq::<OutLine>::empty() + fence_units(a.skip(1))) + fence_units(b));
        }
    }
}

proof fn lemma_fence_counts_singleton(u: OutLine)
    ensures
        open_count(seq![u]) == (if u == OutLine::OpenFence {
            1nat
        } else {
            0nat
        }),
        close_count(seq![u]) == (if u == OutLine::CloseFence {
            1nat
        } else {
            0nat
        }),
        fence_units(seq![u]) == (if is_fence(u) {
            seq![u]
        } else {
            Seq::<OutLine>::empty()
        }),
{
    reveal_with_fuel(open_count, 2);
    reveal_with_fuel(close_count, 2);
    reveal_with_fuel(fence_units, 2);
    assert(seq![u][0] == u);
    assert(seq![u].skip(1).len() == 0);
    if is_fence(u) {
        assert(seq![u] + Seq::<OutLine>::empty() =~= seq![u]);
    } else {
        assert(Seq::<OutLine>::empty() + Seq::<OutLine>::empty() =~= Seq::<
            OutLine,
        >::empty());
    }
}

proof fn lemma_alternates_prepend(u: OutLine, fs: Seq<OutLine>, open_next: bool)
    requires
        open_next ==> u == OutLine::OpenFence,
        !open_next ==> u == OutLine::CloseFence,
        alternates(fs, !open_next),
    ensures
        alternates(seq![u] + fs, open_next),
{
    assert((seq![u] + fs)[0] == u);
    assert((seq![u] + fs).skip(1) =~= fs);
}

/// A successful run emits fences that alternate correctly for the state it
/// starts in, and their counts differ exactly as the code flag changed.
proof fn lemma_run_fences(lines: Seq<Seq<char>>, delim: Seq<char>, st: ScanState)
    requires
        run(lines, delim, st) is Ok,
    ensures
        ({
            let u = run(lines, delim, st)->Ok_0.0;
            let st2 = run(lines, delim, st)->Ok_0.1;
            &&& alternates(fence_units(u), !st.emitting_code)
            &&& open_count(u) + (if st.emitting_code {
                1nat
            } else {
                0nat
            }) == close_count(u) + (if st2.emitting_code {
                1nat
            } else {
                0nat
            })
        }),
    decreases lines.len(),
{
    if lines.len() > 0 {
        match step(st, lines[0], delim) {
            Ok(p) => {
                let rest = run(lines.skip(1), delim, p.1)->Ok_0.0;
                lemma_run_fences(lines.skip(1), delim, p.1);
                lemma_fence_counts_append(p.0, rest);
                match classify(lines[0], delim) {
                    LineClass::Plain(l) => {
                        if st.emitting_code {
                            lemma_fence_counts_singleton(OutLine::Code(l));
                        } else {
                            assert(p.0 =~= Seq::<OutLine>::empty());
                        }
                        assert(Seq::<OutLine>::empty() + fence_units(rest) =~= fence_units(rest));
                    },
                    LineClass::Instruction(_) => {
                        lemma_fence_counts_singleton(OutLine::OpenFence);
                        lemma_fence_counts_singleton(OutLine::CloseFence);
                        if p.0 == seq![OutLine::OpenFence] {
                            lemma_alternates_prepend(
                                OutLine::OpenFence,
                                fence_units(rest),
                                !st.emitting_code,
                            );
                        } else {
                            lemma_alternates_prepend(
                                OutLine::CloseFence,
                                fence_units(rest),
                                !st.emitting_code,
                            );
                        }
                    },
                    LineClass::Prose(pp) => {
                        lemma_fence_counts_singleton(OutLine::Blank);
                        lemma_fence_counts_singleton(OutLine::Prose(pp));
                        if st.prev_was_prose == Some(false) {
                            let blanks = seq![OutLine::Blank] + seq![OutLine::Blank];
                            assert(p.0 =~= blanks + seq![OutLine::Prose(pp)]);
                            lemma_fence_counts_append(seq![OutLine::Blank], seq![OutLine::Blank]);
                            lemma_fence_counts_append(blanks, seq![OutLine::Prose(pp)]);
                        } else {
                            assert(p.0 =~= seq![OutLine::Prose(pp)]);
                        }
                        assert(Seq::<OutLine>::empty() + fence_units(rest) =~= fence_units(rest));
                    },
                }
            },
            Err(_) => {
                assert(false);
            },
        }
    }
}

/// Code-region balance: a successful scan emits as many opening fences as
/// closing ones, and they strictly alternate starting with an opening fence.
pub proof fn lemma_code_region_balance(lines: Seq<Seq<char>>, delim: Seq<char>)
    requires
        scan(lines, delim) is Ok,
    ensures
        open_count(scan(lines, delim)->Ok_0) == close_count(scan(lines, delim)->Ok_0),
        alternates(fence_units(scan(lines, delim)->Ok_0), true),
{
    lemma_run_fences(lines, delim, init_state());
}

/// Order preservation: a run over a concatenation emits first what the first
/// part emits, then, continuing from the state the first part reaches, what
/// the second part emits.  The output never reorders input lines.
pub proof fn lemma_order_preservation(
    front: Seq<Seq<char>>,
    back: Seq<Seq<char>>,
    delim: Seq<char>,
)
    requires
        run(front + back, delim, init_state()) is Ok,
    ensures
        ({
            let whole = run(front + back, delim, init_state())->Ok_0;
            let first = run(front, delim, init_state())->Ok_0;
            &&& run(front, delim, init_state()) is Ok
            &&& run(back, delim, first.1) is Ok
            &&& whole.0 == first.0 + run(back, delim, first.1)->Ok_0.0
        }),
{
    lemma_run_append(front, back, delim, init_state());
}

/// A Markdown file passes through unchanged, whatever its contents.
pub proof fn lemma_markdown_pass_through(delim: Seq<char>, path: Seq<char>, contents: Seq<char>)
    requires
        extension_of(path) == Some(md_extension()),
    ensures
        extract_file_spec(delim, path, contents) == Ok::<Seq<char>, ParseError>(contents),
{
}

/// Idempotence under Markdown pass-through: feeding any successful extraction
/// back through the extractor under a Markdown path returns it unchanged.
pub proof fn lemma_markdown_idempotent(
    delim: Seq<char>,
    path: Seq<char>,
    contents: Seq<char>,
    md_path: Seq<char>,
)
    requires
        extension_of(md_path) == Some(md_extension()),
        extract_file_spec(delim, path, contents) is Ok,
    ensures
        extract_file_spec(delim, md_path, extract_file_spec(delim, path, contents)->Ok_0)
            == Ok::<Seq<char>, ParseError>(extract_file_spec(delim, path, contents)->Ok_0),
{
}

} // verus!

//! The executable line scanner, proved to implement the state machine of
//! [`crate::model`].

use vstd::prelude::*;
use crate::model::{
    classify, init_state, lemma_render_snoc, lemma_run_append, lemma_run_snoc, line_text, render,
    run, scan, step, LineClass, OutLine, ParseError, ScanState,
};
use crate::text::{
    first_unspaced, has_prefix, is_space, last_unspaced, lemma_trim_back_at, lemma_trim_front_at,
    region_eq, region_has_prefix, views_of,
};

verus! {

/// A step that fails on some line fails the whole scan with that error.
proof fn lemma_scan_error_at(
    lv: Seq<Seq<char>>,
    d: Seq<char>,
    i: int,
    units: Seq<OutLine>,
    st: ScanState,
    e: ParseError,
)
    requires
        0 <= i < lv.len(),
        run(lv.take(i), d, init_state()) == Ok::<(Seq<OutLine>, ScanState), ParseError>(
            (units, st),
        ),
        step(st, lv[i], d) == Err::<(Seq<OutLine>, ScanState), ParseError>(e),
    ensures
        scan(lv, d) == Err::<Seq<OutLine>, ParseError>(e),
{
    assert(lv =~= lv.take(i) + lv.skip(i));
    lemma_run_append(lv.take(i), lv.skip(i), d, init_state());
    assert(lv.skip(i)[0] == lv[i]);
    assert(run(lv.skip(i), d, st) == Err::<(Seq<OutLine>, ScanState), ParseError>(e));
}

/// Scan a file's lines: emit the prose payloads of its specification lines,
/// fence and copy the plain lines of each code region, and separate a run of
/// plain lines from the prose after it by a blank line.
pub fn scan_lines(delimiter: &str, lines: &Vec<String>) -> (r: Result<String, ParseError>)
    requires
        delimiter@.len() > 0,
    ensures
        ({
            let m = scan(views_of(lines@), delimiter@);
            &&& m is Ok ==> r is Ok && r->Ok_0@ == render(m->Ok_0)
            &&& m is Err ==> r is Err && r->Err_0 == m->Err_0
        }),
{
    let ghost d = delimiter@;
    let ghost lv = views_of(lines@);
    let mut result = String::new();
    let mut emitting_code = false;
    let mut prev_was_prose: Option<bool> = None;
    let ghost mut units: Seq<OutLine> = Seq::empty();
    let mut idx: usize = 0;
    proof {
        assert(lv.take(0int).len() == 0);
    }
    while idx < lines.len()
        invariant
            0 <= idx <= lines.len(),
            d == delimiter@,
            d.len() > 0,
            lv == views_of(lines@),
            run(lv.take(idx as int), d, init_state()) == Ok::<
                (Seq<OutLine>, ScanState),
                ParseError,
            >((units, (ScanState { emitting_code: emitting_code, prev_was_prose: prev_was_prose }))),
            result@ == render(units),
        decreases lines.len() - idx,
    {
        let line: &String = &lines[idx];
        let ls: &str = line.as_str();
        let n: usize = ls.unicode_len();
        let ghost st = ScanState { emitting_code: emitting_code, prev_was_prose: prev_was_prose };
        let ghost units0 = units;
        proof {
            assert(lv[idx as int] == line@);
        }
        let ts = first_unspaced(ls, 0);
        proof {
            lemma_trim_front_at(line@, ts as int);
            assert(line@.subrange(ts as int, n as int) =~= line@.skip(ts as int));
        }
        let is_specl = region_has_prefix(ls, ts, n, delimiter);
        if !is_specl {
            // A plain line: copied only inside a code region.
            let ghost st2 = ScanState { emitting_code: emitting_code, prev_was_prose: Some(false) };
            let ghost bu: Seq<OutLine> = if emitting_code {
                seq![OutLine::Code(line@)]
            } else {
                Seq::empty()
            };
            proof {
                assert(classify(line@, d) == LineClass::Plain(line@));
                assert(step(st, line@, d) == Ok::<(Seq<OutLine>, ScanState), ParseError>(
                    (bu, st2),
                ));
            }
            if emitting_code {
                result.append(ls);
                result.append("\n");
                proof {
                    lemma_render_snoc(units, OutLine::Code(line@));
                    units = units.push(OutLine::Code(line@));
                    assert(result@ == render(units));
                }
            }
            proof {
                assert(units =~= units0 + bu);
                lemma_run_snoc(lv.take(idx as int), line@, d, init_state());
                assert(lv.take(idx as int).push(line@) =~= lv.take(idx as int + 1));
            }
            prev_was_prose = Some(false);
        } else {
            // A specification line: locate its payload.
            let dlen: usize = delimiter.unicode_len();
            proof {
                assert(has_prefix(line@.skip(ts as int), d));
                assert(ts + dlen <= n);
            }
            let after: usize = ts + dlen;
            let p_lo = first_unspaced(ls, after);
            let p_hi = last_unspaced(ls, p_lo, n);
            let ghost payload = crate::model::payload_of(line@, d);
            proof {
                assert(line@.skip(ts as int).skip(dlen as int) =~= line@.skip(after as int));
                assert forall|i2: int| 0 <= i2 < p_lo - after implies is_space(
                    line@.skip(after as int)[i2],
                ) by {
                    assert(line@.skip(after as int)[i2] == line@[after + i2]);
                }
                lemma_trim_front_at(line@.skip(after as int), p_lo - after);
                assert(line@.skip(after as int).skip(p_lo - after) =~= line@.skip(p_lo as int));
                assert forall|i2: int| p_hi - p_lo <= i2 < n - p_lo implies is_space(
                    line@.skip(p_lo as int)[i2],
                ) by {
                    assert(line@.skip(p_lo as int)[i2] == line@[p_lo + i2]);
                }
                lemma_trim_back_at(line@.skip(p_lo as int), p_hi - p_lo);
                assert(line@.skip(p_lo as int).take(p_hi - p_lo) =~= line@.subrange(
                    p_lo as int,
                    p_hi as int,
                ));
                assert(payload == line@.subrange(p_lo as int, p_hi as int));
            }
            let is_instr = region_has_prefix(ls, p_lo, p_hi, "spec:");
            if is_instr {
                // An instruction: the bytes after the prefix name it exactly.
                let iplen: usize = "spec:".unicode_len();
                proof {
                    assert(iplen <= p_hi - p_lo);
                }
                let i_lo: usize = p_lo + iplen;
                let ghost name = payload.skip(iplen as int);
                proof {
                    assert(name =~= line@.subrange(i_lo as int, p_hi as int));
                    assert(classify(line@, d) == LineClass::Instruction(name));
                }
                let is_start = region_eq(ls, i_lo, p_hi, "startcode");
                if is_start {
                    if emitting_code {
                        proof {
                            assert(step(st, line@, d) == Err::<
                                (Seq<OutLine>, ScanState),
                                ParseError,
                            >(ParseError::StartInsideCode));
                            lemma_scan_error_at(
                                lv,
                                d,
                                idx as int,
                                units,
                                st,
                                ParseError::StartInsideCode,
                            );
                        }
                        return Err(ParseError::StartInsideCode);
                    }
                    let ghost st2 = ScanState {
                        emitting_code: true,
                        prev_was_prose: prev_was_prose,
                    };
                    proof {
                        assert(step(st, line@, d) == Ok::<(Seq<OutLine>, ScanState), ParseError>(
                            (seq![OutLine::OpenFence], st2),
                        ));
                    }
                    result.append("```rust");
                    result.append("\n");
                    proof {
                        lemma_render_snoc(units, OutLine::OpenFence);
                        units = units.push(OutLine::OpenFence);
                        assert(result@ == render(units));
                        assert(units =~= units0 + seq![OutLine::OpenFence]);
                        lemma_run_snoc(lv.take(idx as int), line@, d, init_state());
                        assert(lv.take(idx as int).push(line@) =~= lv.take(idx as int + 1));
                    }
                    emitting_code = true;
                } else {
                    let is_end = region_eq(ls, i_lo, p_hi, "endcode");
                    if is_end {
                        if !emitting_code {
                            proof {
                                assert(step(st, line@, d) == Err::<
                                    (Seq<OutLine>, ScanState),
                                    ParseError,
                                >(ParseError::EndOutsideCode));
                                lemma_scan_error_at(
                                    lv,
                                    d,
                                    idx as int,
                                    units,
                                    st,
                                    ParseError::EndOutsideCode,
                                );
                            }
                            return Err(ParseError::EndOutsideCode);
                        }
                        let ghost st2 = ScanState {
                            emitting_code: false,
                            prev_was_prose: prev_was_prose,
                        };
                        proof {
                            assert(step(st, line@, d) == Ok::<
                                (Seq<OutLine>, ScanState),
                                ParseError,
                            >((seq![OutLine::CloseFence], st2)));
                        }
                        result.append("```");
                        result.append("\n");
                        proof {
                            lemma_render_snoc(units, OutLine::CloseFence);
                            units = units.push(OutLine::CloseFence);
                            assert(result@ == render(units));
                            assert(units =~= units0 + seq![OutLine::CloseFence]);
                            lemma_run_snoc(lv.take(idx as int), line@, d, init_state());
                            assert(lv.take(idx as int).push(line@) =~= lv.take(idx as int + 1));
                        }
                        emitting_code = false;
                    } else {
                        proof {
                            assert(name != crate::model::startcode_name());
                            assert(name != crate::model::endcode_name());
                            assert(step(st, line@, d) == Err::<
                                (Seq<OutLine>, ScanState),
                                ParseError,
                            >(ParseError::UnknownInstruction));
                            lemma_scan_error_at(
                                lv,
                                d,
                                idx as int,
                                units,
                                st,
                                ParseError::UnknownInstruction,
                            );
                        }
                        return Err(ParseError::UnknownInstruction);
                    }
                }
            } else {
                // Prose: separate it from a preceding run of plain lines.
                let ghost st2 = ScanState { emitting_code: emitting_code, prev_was_prose: Some(
                    true,
                ) };
                let ghost sepu: Seq<OutLine> = if st.prev_was_prose == Some(false) {
                    seq![OutLine::Blank, OutLine::Blank]
                } else {
                    Seq::empty()
                };
                proof {
                    assert(classify(line@, d) == LineClass::Prose(payload));
                    assert(step(st, line@, d) == Ok::<(Seq<OutLine>, ScanState), ParseError>(
                        (sepu.push(OutLine::Prose(payload)), st2),
                    ));
                }
                let sep_needed = match prev_was_prose {
                    Some(b) => !b,
                    None => false,
                };
                if sep_needed {
                    result.append("\n");
                    proof {
                        lemma_render_snoc(units, OutLine::Blank);
                        assert(render(units) + line_text(OutLine::Blank) + crate::model::nl()
                            =~= render(units) + crate::model::nl());
                        units = units.push(OutLine::Blank);
                        assert(result@ == render(units));
                    }
                    result.append("\n");
                    proof {
                        lemma_render_snoc(units, OutLine::Blank);
                        assert(render(units) + line_text(OutLine::Blank) + crate::model::nl()
                            =~= render(units) + crate::model::nl());
                        units = units.push(OutLine::Blank);
                        assert(result@ == render(units));
                    }
                }
                let ptext = ls.substring_char(p_lo, p_hi);
                result.append(ptext);
                result.append("\n");
                proof {
                    lemma_render_snoc(units, OutLine::Prose(payload));
                    units = units.push(OutLine::Prose(payload));
                    assert(result@ == render(units));
                    assert(units =~= units0 + sepu.push(OutLine::Prose(payload)));
                    lemma_run_snoc(lv.take(idx as int), line@, d, init_state());
                    assert(lv.take(idx as int).push(line@) =~= lv.take(idx as int + 1));
                }
                prev_was_prose = Some(true);
            }
        }
        idx += 1;
    }
    proof {
        assert(lv.take(lines.len() as int) =~= lv);
    }
    if emitting_code {
        return Err(ParseError::UnterminatedCode);
    }
    Ok(result)
}

} // verus!

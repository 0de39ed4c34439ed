//! Proved laws of the parser: how the registry of one parse relates to
//! the structure of the input, stated over the parser's mathematical
//! model and checked by the verifier.

use crate::default_label;
use crate::parser::{
    append_active_m, append_label_m, apply_label_start, elision, end_m, err_line,
    lemma_reg_index_absent, lemma_reg_index_at, lemma_reg_index_props, lemma_run_prefix_err,
    parse_spec, reg_contains, reg_index, run_prefix, start_m, step, EntryModel, ErrModel,
    ModeFamily, StateModel,
};
use crate::tokenizer::{token_of, TokenModel};
use vstd::prelude::*;

verus! {

/// Whether `line` is a label directive (`+IN`/`-IN`) for `lbl`.
pub open spec fn is_label_tok(line: Seq<char>, markers: Seq<Seq<char>>, lbl: Seq<char>) -> bool {
    match token_of(line, markers) {
        Some(TokenModel::In { label, start }) => label == lbl,
        _ => false,
    }
}

/// What one line adds to the buffer of every record that is active while
/// it is processed (label bookkeeping aside): substitution text where a
/// substitution opens, the line itself where plain content passes the
/// gates, nothing otherwise.
pub open spec fn contribution(
    st: StateModel,
    line: Seq<char>,
    markers: Seq<Seq<char>>,
    solution: bool,
) -> Seq<char> {
    match token_of(line, markers) {
        Some(TokenModel::Subst { text, start }) => if start {
            text + "\n"@
        } else {
            Seq::empty()
        },
        Some(TokenModel::ExcSubst { text, start }) => if start && !solution && !st.quiet {
            text + "\n"@
        } else {
            Seq::empty()
        },
        None => if !st.quiet && (solution || !st.exercise_quiet) {
            line + "\n"@
        } else {
            Seq::empty()
        },
        _ => Seq::empty(),
    }
}

/// The text an always-active record receives over the lines `[a, b)`.
pub open spec fn span_content(
    lines: Seq<Seq<char>>,
    markers: Seq<Seq<char>>,
    solution: bool,
    a: int,
    b: int,
) -> Seq<char>
    decreases b - a,
{
    if a >= b {
        Seq::empty()
    } else {
        span_content(lines, markers, solution, a, b - 1) + contribution(
            run_prefix(lines, markers, solution, b - 1)->Ok_0,
            lines[b - 1],
            markers,
            solution,
        )
    }
}

/// The lines `[a, b)` themselves, each with a newline.
pub open spec fn lines_concat(lines: Seq<Seq<char>>, a: int, b: int) -> Seq<char>
    decreases b - a,
{
    if a >= b {
        Seq::empty()
    } else {
        lines_concat(lines, a, b - 1) + lines[b - 1] + "\n"@
    }
}

/// A run that reaches `n` without an error was error-free at every
/// earlier prefix too.
pub proof fn lemma_run_ok_at(
    lines: Seq<Seq<char>>,
    markers: Seq<Seq<char>>,
    solution: bool,
    i: int,
    n: int,
)
    requires
        0 <= i <= n,
        run_prefix(lines, markers, solution, n) is Ok,
    ensures
        run_prefix(lines, markers, solution, i) is Ok,
{
    if run_prefix(lines, markers, solution, i) is Err {
        lemma_run_prefix_err(lines, markers, solution, i, n);
    }
}

/// `reg_index` depends only on the labels of the entries.
proof fn lemma_reg_index_same_labels(r1: Seq<EntryModel>, r2: Seq<EntryModel>, lbl: Seq<char>)
    requires
        r1.len() == r2.len(),
        forall|j: int| 0 <= j < r1.len() ==> r1[j].label == #[trigger] r2[j].label,
    ensures
        reg_index(r1, lbl) == reg_index(r2, lbl),
    decreases r1.len(),
{
    if r1.len() > 0 {
        assert(forall|j: int|
            1 <= j < r1.len() ==> #[trigger] r1[j] == r1.drop_first()[j - 1]);
        assert(forall|j: int|
            1 <= j < r2.len() ==> #[trigger] r2[j] == r2.drop_first()[j - 1]);
        assert(forall|j: int|
            0 <= j < r1.drop_first().len() ==> r1.drop_first()[j].label
                == #[trigger] r2.drop_first()[j].label);
        lemma_reg_index_same_labels(r1.drop_first(), r2.drop_first(), lbl);
    }
}

/// A label event for `other` leaves the index and the record of a
/// different label `lbl` untouched.
proof fn lemma_start_m_other(reg: Seq<EntryModel>, other: Seq<char>, lbl: Seq<char>)
    requires
        other != lbl,
    ensures
        reg_index(start_m(reg, other), lbl) == reg_index(reg, lbl),
        reg_contains(reg, lbl) ==> start_m(reg, other)[reg_index(reg, lbl)] == reg[reg_index(
            reg,
            lbl,
        )],
    decreases reg.len(),
{
    let r2 = start_m(reg, other);
    lemma_reg_index_props(reg, other);
    lemma_reg_index_props(reg, lbl);
    if reg_index(reg, other) < 0 {
        // a fresh entry for `other` is pushed at the end
        if reg_contains(reg, lbl) {
            lemma_reg_index_at(r2, lbl, reg_index(reg, lbl));
        } else {
            lemma_reg_index_absent(r2, lbl);
        }
    } else {
        assert(forall|j: int| 0 <= j < reg.len() ==> reg[j].label == #[trigger] r2[j].label);
        lemma_reg_index_same_labels(reg, r2, lbl);
    }
}

/// Marking `other` closed leaves a different label's entry untouched.
proof fn lemma_end_m_other(reg: Seq<EntryModel>, other: Seq<char>, lbl: Seq<char>)
    requires
        other != lbl,
    ensures
        reg_index(end_m(reg, other), lbl) == reg_index(reg, lbl),
        reg_contains(reg, lbl) ==> end_m(reg, other)[reg_index(reg, lbl)] == reg[reg_index(
            reg,
            lbl,
        )],
{
    let r2 = end_m(reg, other);
    lemma_reg_index_props(reg, other);
    lemma_reg_index_props(reg, lbl);
    if reg_index(reg, other) >= 0 {
        assert(forall|j: int| 0 <= j < reg.len() ==> reg[j].label == #[trigger] r2[j].label);
        lemma_reg_index_same_labels(reg, r2, lbl);
    }
}

/// Appending to `other`'s buffer leaves a different label's entry
/// untouched.
proof fn lemma_append_label_m_other(
    reg: Seq<EntryModel>,
    other: Seq<char>,
    text: Seq<char>,
    lbl: Seq<char>,
)
    requires
        other != lbl,
    ensures
        reg_index(append_label_m(reg, other, text), lbl) == reg_index(reg, lbl),
        reg_contains(reg, lbl) ==> append_label_m(reg, other, text)[reg_index(reg, lbl)]
            == reg[reg_index(reg, lbl)],
{
    let r2 = append_label_m(reg, other, text);
    lemma_reg_index_props(reg, other);
    lemma_reg_index_props(reg, lbl);
    if reg_index(reg, other) >= 0 {
        assert(forall|j: int| 0 <= j < reg.len() ==> reg[j].label == #[trigger] r2[j].label);
        lemma_reg_index_same_labels(reg, r2, lbl);
    }
}

/// An append to all active records keeps every index and adds exactly the
/// text to the active ones.
proof fn lemma_append_active_m_index(reg: Seq<EntryModel>, text: Seq<char>, lbl: Seq<char>)
    ensures
        reg_index(append_active_m(reg, text), lbl) == reg_index(reg, lbl),
{
    let r2 = append_active_m(reg, text);
    assert(forall|j: int| 0 <= j < reg.len() ==> reg[j].label == #[trigger] r2[j].label);
    lemma_reg_index_same_labels(reg, r2, lbl);
}

/// One step of the machine, seen from a label the line does not name:
/// the label's index, activity and open-count are untouched, and its
/// buffer grows by exactly the line's contribution if it is active.
proof fn lemma_step_other_label(
    st: StateModel,
    line: Seq<char>,
    line_no: int,
    total: int,
    markers: Seq<Seq<char>>,
    solution: bool,
    lbl: Seq<char>,
)
    requires
        step(st, line, line_no, total, markers, solution) is Ok,
        !is_label_tok(line, markers, lbl),
    ensures
        ({
            let r2 = step(st, line, line_no, total, markers, solution)->Ok_0.reg;
            &&& reg_index(r2, lbl) == reg_index(st.reg, lbl)
            &&& (reg_contains(st.reg, lbl) ==> {
                let i = reg_index(st.reg, lbl);
                &&& r2[i].label == st.reg[i].label
                &&& r2[i].rec.active == st.reg[i].rec.active
                &&& r2[i].rec.counter == st.reg[i].rec.counter
                &&& r2[i].rec.buffer == st.reg[i].rec.buffer + (if st.reg[i].rec.active {
                    contribution(st, line, markers, solution)
                } else {
                    Seq::<char>::empty()
                })
            })
        }),
{
    let r2 = step(st, line, line_no, total, markers, solution)->Ok_0.reg;
    let i = reg_index(st.reg, lbl);
    lemma_reg_index_props(st.reg, lbl);
    match token_of(line, markers) {
        Some(TokenModel::In { label, start }) => {
            if start {
                let r1 = start_m(st.reg, label);
                lemma_start_m_other(st.reg, label, lbl);
                lemma_append_label_m_other(r1, label, elision(), lbl);
                if reg_contains(st.reg, lbl) {
                    assert(st.reg[i].rec.buffer + Seq::<char>::empty() =~= st.reg[i].rec.buffer);
                }
            } else {
                let r1 = end_m(st.reg, label);
                lemma_end_m_other(st.reg, label, lbl);
                lemma_append_label_m_other(r1, label, elision(), lbl);
                if reg_contains(st.reg, lbl) {
                    assert(st.reg[i].rec.buffer + Seq::<char>::empty() =~= st.reg[i].rec.buffer);
                }
            }
        },
        Some(TokenModel::Out { start }) => {
            if reg_contains(st.reg, lbl) {
                assert(st.reg[i].rec.buffer + Seq::<char>::empty() =~= st.reg[i].rec.buffer);
            }
        },
        Some(TokenModel::Exc { start }) => {
            if reg_contains(st.reg, lbl) {
                assert(st.reg[i].rec.buffer + Seq::<char>::empty() =~= st.reg[i].rec.buffer);
            }
        },
        Some(TokenModel::Subst { text, start }) => {
            if start {
                lemma_append_active_m_index(st.reg, text + "\n"@, lbl);
            }
            if reg_contains(st.reg, lbl) {
                assert(st.reg[i].rec.buffer + Seq::<char>::empty() =~= st.reg[i].rec.buffer);
            }
        },
        Some(TokenModel::ExcSubst { text, start }) => {
            if start && !solution && !st.quiet {
                lemma_append_active_m_index(st.reg, text + "\n"@, lbl);
            }
            if reg_contains(st.reg, lbl) {
                assert(st.reg[i].rec.buffer + Seq::<char>::empty() =~= st.reg[i].rec.buffer);
            }
        },
        None => {
            if !st.quiet && (solution || !st.exercise_quiet) {
                lemma_append_active_m_index(st.reg, line + "\n"@, lbl);
            }
            if reg_contains(st.reg, lbl) {
                assert(st.reg[i].rec.buffer + Seq::<char>::empty() =~= st.reg[i].rec.buffer);
            }
        },
    }
}

/// Over a span of lines that never name `lbl`, the label's index,
/// activity and open-count stand still, and its buffer grows by exactly
/// the span's content while it is active.
pub proof fn lemma_span_no_label(
    lines: Seq<Seq<char>>,
    markers: Seq<Seq<char>>,
    solution: bool,
    lbl: Seq<char>,
    a: int,
    b: int,
)
    requires
        0 <= a <= b <= lines.len(),
        run_prefix(lines, markers, solution, b) is Ok,
        forall|t: int| a <= t < b ==> !is_label_tok(#[trigger] lines[t], markers, lbl),
    ensures
        ({
            let ra = run_prefix(lines, markers, solution, a)->Ok_0.reg;
            let rb = run_prefix(lines, markers, solution, b)->Ok_0.reg;
            &&& reg_index(rb, lbl) == reg_index(ra, lbl)
            &&& (reg_contains(ra, lbl) ==> {
                let i = reg_index(ra, lbl);
                &&& rb[i].label == ra[i].label
                &&& rb[i].rec.active == ra[i].rec.active
                &&& rb[i].rec.counter == ra[i].rec.counter
                &&& rb[i].rec.buffer == ra[i].rec.buffer + (if ra[i].rec.active {
                    span_content(lines, markers, solution, a, b)
                } else {
                    Seq::<char>::empty()
                })
            })
        }),
    decreases b - a,
{
    lemma_run_ok_at(lines, markers, solution, a, b);
    if b > a {
        lemma_run_ok_at(lines, markers, solution, b - 1, b);
        lemma_span_no_label(lines, markers, solution, lbl, a, b - 1);
        let stm = run_prefix(lines, markers, solution, b - 1)->Ok_0;
        lemma_step_other_label(stm, lines[b - 1], b, lines.len() as int, markers, solution, lbl);
        let ra = run_prefix(lines, markers, solution, a)->Ok_0.reg;
        if reg_contains(ra, lbl) {
            let i = reg_index(ra, lbl);
            if ra[i].rec.active {
                assert(ra[i].rec.buffer + span_content(lines, markers, solution, a, b - 1)
                    + contribution(stm, lines[b - 1], markers, solution) =~= ra[i].rec.buffer + (
                span_content(lines, markers, solution, a, b - 1) + contribution(
                    stm,
                    lines[b - 1],
                    markers,
                    solution,
                )));
            } else {
                assert(ra[i].rec.buffer + Seq::<char>::empty() =~= ra[i].rec.buffer);
            }
        }
    }
}

/// Closing any label never moves another label's index.
proof fn lemma_end_m_index(reg: Seq<EntryModel>, closed: Seq<char>, lbl: Seq<char>)
    ensures
        reg_index(end_m(reg, closed), lbl) == reg_index(reg, lbl),
{
    let r2 = end_m(reg, closed);
    lemma_reg_index_props(reg, closed);
    if reg_index(reg, closed) >= 0 {
        assert(forall|j: int| 0 <= j < reg.len() ==> reg[j].label == #[trigger] r2[j].label);
        lemma_reg_index_same_labels(reg, r2, lbl);
    }
}

/// Appending to any label's buffer never moves another label's index.
proof fn lemma_append_label_m_index(
    reg: Seq<EntryModel>,
    target: Seq<char>,
    text: Seq<char>,
    lbl: Seq<char>,
)
    ensures
        reg_index(append_label_m(reg, target, text), lbl) == reg_index(reg, lbl),
{
    let r2 = append_label_m(reg, target, text);
    lemma_reg_index_props(reg, target);
    if reg_index(reg, target) >= 0 {
        assert(forall|j: int| 0 <= j < reg.len() ==> reg[j].label == #[trigger] r2[j].label);
        lemma_reg_index_same_labels(reg, r2, lbl);
    }
}

/// Re-registering a label that is already present keeps its index.
proof fn lemma_start_m_index_present(reg: Seq<EntryModel>, lbl: Seq<char>)
    requires
        reg_contains(reg, lbl),
    ensures
        reg_index(start_m(reg, lbl), lbl) == reg_index(reg, lbl),
{
    let r2 = start_m(reg, lbl);
    lemma_reg_index_props(reg, lbl);
    assert(forall|j: int| 0 <= j < reg.len() ==> reg[j].label == #[trigger] r2[j].label);
    lemma_reg_index_same_labels(reg, r2, lbl);
}

/// No step removes a registered label.
proof fn lemma_step_presence(
    st: StateModel,
    line: Seq<char>,
    line_no: int,
    total: int,
    markers: Seq<Seq<char>>,
    solution: bool,
    lbl: Seq<char>,
)
    requires
        step(st, line, line_no, total, markers, solution) is Ok,
        reg_contains(st.reg, lbl),
    ensures
        reg_contains(step(st, line, line_no, total, markers, solution)->Ok_0.reg, lbl),
{
    if is_label_tok(line, markers, lbl) {
        match token_of(line, markers) {
            Some(TokenModel::In { label, start }) => {
                if start {
                    let r1 = start_m(st.reg, lbl);
                    lemma_start_m_index_present(st.reg, lbl);
                    lemma_append_label_m_index(r1, lbl, elision(), lbl);
                } else {
                    let r1 = end_m(st.reg, lbl);
                    lemma_end_m_index(st.reg, lbl, lbl);
                    lemma_append_label_m_index(r1, lbl, elision(), lbl);
                }
            },
            _ => {},
        }
    } else {
        lemma_step_other_label(st, line, line_no, total, markers, solution, lbl);
    }
}

/// A registered label stays registered for the rest of the run.
proof fn lemma_run_presence(
    lines: Seq<Seq<char>>,
    markers: Seq<Seq<char>>,
    solution: bool,
    lbl: Seq<char>,
    a: int,
    n: int,
)
    requires
        0 <= a <= n,
        run_prefix(lines, markers, solution, n) is Ok,
        reg_contains(run_prefix(lines, markers, solution, a)->Ok_0.reg, lbl),
    ensures
        reg_contains(run_prefix(lines, markers, solution, n)->Ok_0.reg, lbl),
    decreases n - a,
{
    if n > a {
        lemma_run_ok_at(lines, markers, solution, n - 1, n);
        lemma_run_presence(lines, markers, solution, lbl, a, n - 1);
        lemma_step_presence(
            run_prefix(lines, markers, solution, n - 1)->Ok_0,
            lines[n - 1],
            n,
            lines.len() as int,
            markers,
            solution,
            lbl,
        );
    }
}

/// Every successful parse carries the default label in its result.
pub proof fn lemma_default_label_present(
    lines: Seq<Seq<char>>,
    markers: Seq<Seq<char>>,
    solution: bool,
)
    requires
        parse_spec(lines, markers, solution) is Ok,
    ensures
        reg_contains(parse_spec(lines, markers, solution)->Ok_0, default_label()),
{
    let total = lines.len() as int;
    assert(reg_contains(run_prefix(lines, markers, solution, 0)->Ok_0.reg, default_label()));
    lemma_run_presence(lines, markers, solution, default_label(), 0, total);
    lemma_end_m_index(
        run_prefix(lines, markers, solution, total)->Ok_0.reg,
        default_label(),
        default_label(),
    );
}

/// Every label that an accepted `+IN` line opens is present in the
/// result, whatever regions were active around it.
pub proof fn lemma_opened_label_present(
    lines: Seq<Seq<char>>,
    markers: Seq<Seq<char>>,
    solution: bool,
    lbl: Seq<char>,
    i: int,
)
    requires
        parse_spec(lines, markers, solution) is Ok,
        0 <= i < lines.len(),
        token_of(lines[i], markers) == Some(TokenModel::In { label: lbl, start: true }),
    ensures
        reg_contains(parse_spec(lines, markers, solution)->Ok_0, lbl),
{
    let total = lines.len() as int;
    lemma_run_ok_at(lines, markers, solution, i + 1, total);
    let st = run_prefix(lines, markers, solution, i)->Ok_0;
    let r1 = start_m(st.reg, lbl);
    lemma_reg_index_props(st.reg, lbl);
    if reg_index(st.reg, lbl) < 0 {
        lemma_reg_index_at(r1, lbl, st.reg.len() as int);
    } else {
        lemma_start_m_index_present(st.reg, lbl);
    }
    lemma_append_label_m_index(r1, lbl, elision(), lbl);
    lemma_run_presence(lines, markers, solution, lbl, i + 1, total);
    lemma_end_m_index(run_prefix(lines, markers, solution, total)->Ok_0.reg, default_label(), lbl);
}

/// The default label's record in a successful parse of a file that never
/// names the sentinel itself: closed at the end, never re-opened, and its
/// buffer is exactly the file's gated content, with no elision marker
/// from the open/close bookkeeping.
pub proof fn lemma_default_label_spans_file(
    lines: Seq<Seq<char>>,
    markers: Seq<Seq<char>>,
    solution: bool,
)
    requires
        parse_spec(lines, markers, solution) is Ok,
        forall|t: int|
            0 <= t < lines.len() ==> !is_label_tok(#[trigger] lines[t], markers, default_label()),
    ensures
        ({
            let reg = parse_spec(lines, markers, solution)->Ok_0;
            &&& reg_contains(reg, default_label())
            &&& reg[reg_index(reg, default_label())].rec.active == false
            &&& reg[reg_index(reg, default_label())].rec.counter == 0
            &&& reg[reg_index(reg, default_label())].rec.buffer == span_content(
                lines,
                markers,
                solution,
                0,
                lines.len() as int,
            )
        }),
{
    let total = lines.len() as int;
    let lbl = default_label();
    let r0 = run_prefix(lines, markers, solution, 0)->Ok_0.reg;
    assert(reg_index(r0, lbl) == 0);
    lemma_span_no_label(lines, markers, solution, lbl, 0, total);
    let rt = run_prefix(lines, markers, solution, total)->Ok_0.reg;
    assert(rt[0].rec.buffer == Seq::<char>::empty() + span_content(
        lines,
        markers,
        solution,
        0,
        total,
    ));
    assert(Seq::<char>::empty() + span_content(lines, markers, solution, 0, total) =~= span_content(
        lines,
        markers,
        solution,
        0,
        total,
    ));
    lemma_reg_index_props(rt, lbl);
    lemma_end_m_index(rt, lbl, lbl);
}

/// Every re-opening of a label away from line 1 adds exactly one
/// leading elision marker to its buffer, and nothing else.
pub proof fn lemma_reopen_inserts_marker(
    lines: Seq<Seq<char>>,
    markers: Seq<Seq<char>>,
    solution: bool,
    lbl: Seq<char>,
    i: int,
)
    requires
        1 < i <= lines.len(),
        run_prefix(lines, markers, solution, i) is Ok,
        token_of(lines[i - 1], markers) == Some(TokenModel::In { label: lbl, start: true }),
        reg_contains(run_prefix(lines, markers, solution, i - 1)->Ok_0.reg, lbl),
    ensures
        ({
            let before = run_prefix(lines, markers, solution, i - 1)->Ok_0.reg;
            let after = run_prefix(lines, markers, solution, i)->Ok_0.reg;
            let k = reg_index(before, lbl);
            &&& reg_index(after, lbl) == k
            &&& after[k].rec.active == true
            &&& after[k].rec.counter == before[k].rec.counter + 1
            &&& after[k].rec.buffer == before[k].rec.buffer + elision()
        }),
{
    lemma_run_ok_at(lines, markers, solution, i - 1, i);
    let st = run_prefix(lines, markers, solution, i - 1)->Ok_0;
    let k = reg_index(st.reg, lbl);
    lemma_reg_index_props(st.reg, lbl);
    let r1 = start_m(st.reg, lbl);
    lemma_start_m_index_present(st.reg, lbl);
    lemma_reg_index_props(r1, lbl);
    lemma_append_label_m_index(r1, lbl, elision(), lbl);
}

/// Whether `line` opens the toggle family `fam`.
pub open spec fn is_open_tok(line: Seq<char>, markers: Seq<Seq<char>>, fam: ModeFamily) -> bool {
    match token_of(line, markers) {
        Some(TokenModel::Out { start }) => start && fam is Out,
        Some(TokenModel::Exc { start }) => start && fam is Exc,
        Some(TokenModel::Subst { text, start }) => start && fam is Var,
        Some(TokenModel::ExcSubst { text, start }) => start && fam is ExcSubst,
        _ => false,
    }
}

/// Whether `line` closes the toggle family `fam`.
pub open spec fn is_close_tok(line: Seq<char>, markers: Seq<Seq<char>>, fam: ModeFamily) -> bool {
    match token_of(line, markers) {
        Some(TokenModel::Out { start }) => !start && fam is Out,
        Some(TokenModel::Exc { start }) => !start && fam is Exc,
        Some(TokenModel::Subst { text, start }) => !start && fam is Var,
        Some(TokenModel::ExcSubst { text, start }) => !start && fam is ExcSubst,
        _ => false,
    }
}

/// The mode flag of the family `fam`.
pub open spec fn flag_of(st: StateModel, fam: ModeFamily) -> bool {
    match fam {
        ModeFamily::Out => st.out,
        ModeFamily::Exc => st.exc,
        ModeFamily::Var => st.var,
        ModeFamily::ExcSubst => st.excsubst,
    }
}

/// Opening a toggle directive whose family is already open fails the
/// whole parse with `UnbalancedOpen` naming that line.
pub proof fn lemma_unbalanced_open(
    lines: Seq<Seq<char>>,
    markers: Seq<Seq<char>>,
    solution: bool,
    fam: ModeFamily,
    i: int,
)
    requires
        0 <= i < lines.len(),
        run_prefix(lines, markers, solution, i) is Ok,
        is_open_tok(lines[i], markers, fam),
        flag_of(run_prefix(lines, markers, solution, i)->Ok_0, fam),
    ensures
        parse_spec(lines, markers, solution) == Err::<Seq<EntryModel>, ErrModel>(
            ErrModel::UnbalancedOpen { fam, line: i + 1 },
        ),
{
    let st = run_prefix(lines, markers, solution, i)->Ok_0;
    assert(step(st, lines[i], i + 1, lines.len() as int, markers, solution) == Err::<
        StateModel,
        ErrModel,
    >(ErrModel::UnbalancedOpen { fam, line: i + 1 }));
    lemma_run_prefix_err(lines, markers, solution, i + 1, lines.len() as int);
}

/// Closing a toggle directive whose family is not open fails the whole
/// parse with `UnbalancedClose` naming that line.
pub proof fn lemma_unbalanced_close(
    lines: Seq<Seq<char>>,
    markers: Seq<Seq<char>>,
    solution: bool,
    fam: ModeFamily,
    i: int,
)
    requires
        0 <= i < lines.len(),
        run_prefix(lines, markers, solution, i) is Ok,
        is_close_tok(lines[i], markers, fam),
        !flag_of(run_prefix(lines, markers, solution, i)->Ok_0, fam),
    ensures
        parse_spec(lines, markers, solution) == Err::<Seq<EntryModel>, ErrModel>(
            ErrModel::UnbalancedClose { fam, line: i + 1 },
        ),
{
    let st = run_prefix(lines, markers, solution, i)->Ok_0;
    assert(step(st, lines[i], i + 1, lines.len() as int, markers, solution) == Err::<
        StateModel,
        ErrModel,
    >(ErrModel::UnbalancedClose { fam, line: i + 1 }));
    lemma_run_prefix_err(lines, markers, solution, i + 1, lines.len() as int);
}

/// Whether no two entries carry the same label.
pub open spec fn labels_distinct(reg: Seq<EntryModel>) -> bool {
    forall|j: int, k: int| 0 <= j < k < reg.len() ==> reg[j].label != reg[k].label
}

/// No step introduces a second entry for a label that is already
/// registered.
proof fn lemma_step_distinct(
    st: StateModel,
    line: Seq<char>,
    line_no: int,
    total: int,
    markers: Seq<Seq<char>>,
    solution: bool,
)
    requires
        step(st, line, line_no, total, markers, solution) is Ok,
        labels_distinct(st.reg),
    ensures
        labels_distinct(step(st, line, line_no, total, markers, solution)->Ok_0.reg),
{
    let r2 = step(st, line, line_no, total, markers, solution)->Ok_0.reg;
    match token_of(line, markers) {
        Some(TokenModel::In { label, start }) => {
            lemma_reg_index_props(st.reg, label);
            if start {
                let r1 = start_m(st.reg, label);
                assert(labels_distinct(r1));
                lemma_reg_index_props(r1, label);
                assert(labels_distinct(r2));
            } else {
                let r1 = end_m(st.reg, label);
                assert(labels_distinct(r1));
                lemma_reg_index_props(r1, label);
                assert(labels_distinct(r2));
            }
        },
        Some(TokenModel::Subst { text, start }) => {
            assert(labels_distinct(r2));
        },
        Some(TokenModel::ExcSubst { text, start }) => {
            assert(labels_distinct(r2));
        },
        None => {
            assert(labels_distinct(r2));
        },
        _ => {},
    }
}

/// The labels of a successful parse are unique: one record per label.
pub proof fn lemma_labels_unique(lines: Seq<Seq<char>>, markers: Seq<Seq<char>>, solution: bool)
    requires
        parse_spec(lines, markers, solution) is Ok,
    ensures
        labels_distinct(parse_spec(lines, markers, solution)->Ok_0),
{
    let total = lines.len() as int;
    lemma_run_distinct(lines, markers, solution, total);
    let rt = run_prefix(lines, markers, solution, total)->Ok_0.reg;
    lemma_reg_index_props(rt, default_label());
}

/// After any number of steps the registry's labels are distinct.
proof fn lemma_run_distinct(
    lines: Seq<Seq<char>>,
    markers: Seq<Seq<char>>,
    solution: bool,
    n: int,
)
    requires
        run_prefix(lines, markers, solution, n) is Ok,
    ensures
        labels_distinct(run_prefix(lines, markers, solution, n)->Ok_0.reg),
    decreases n,
{
    if n > 0 {
        lemma_run_ok_at(lines, markers, solution, n - 1, n);
        lemma_run_distinct(lines, markers, solution, n - 1);
        lemma_step_distinct(
            run_prefix(lines, markers, solution, n - 1)->Ok_0,
            lines[n - 1],
            n,
            lines.len() as int,
            markers,
            solution,
        );
    }
}

/// The content of a span is the content of its two halves.
proof fn lemma_span_split(
    lines: Seq<Seq<char>>,
    markers: Seq<Seq<char>>,
    solution: bool,
    a: int,
    m: int,
    b: int,
)
    requires
        a <= m <= b,
    ensures
        span_content(lines, markers, solution, a, b) == span_content(lines, markers, solution, a, m)
            + span_content(lines, markers, solution, m, b),
    decreases b - m,
{
    if b == m {
        assert(span_content(lines, markers, solution, a, m) + Seq::<char>::empty()
            =~= span_content(lines, markers, solution, a, m));
    } else {
        lemma_span_split(lines, markers, solution, a, m, b - 1);
        let c = contribution(
            run_prefix(lines, markers, solution, b - 1)->Ok_0,
            lines[b - 1],
            markers,
            solution,
        );
        assert((span_content(lines, markers, solution, a, m) + span_content(
            lines,
            markers,
            solution,
            m,
            b - 1,
        )) + c =~= span_content(lines, markers, solution, a, m) + (span_content(
            lines,
            markers,
            solution,
            m,
            b - 1,
        ) + c));
    }
}

/// A label started and ended exactly once produces a buffer holding the
/// content gathered between the two directives, bounded by an elision
/// marker on each side that does not touch the file boundary: no leading
/// marker for a start at line 1, no trailing marker for an end at the
/// last line.
pub proof fn lemma_single_extract(
    lines: Seq<Seq<char>>,
    markers: Seq<Seq<char>>,
    solution: bool,
    lbl: Seq<char>,
    i: int,
    j: int,
)
    requires
        parse_spec(lines, markers, solution) is Ok,
        1 <= i < j <= lines.len(),
        lbl != default_label(),
        token_of(lines[i - 1], markers) == Some(TokenModel::In { label: lbl, start: true }),
        token_of(lines[j - 1], markers) == Some(TokenModel::In { label: lbl, start: false }),
        forall|t: int|
            0 <= t < lines.len() && t != i - 1 && t != j - 1 ==> !is_label_tok(
                #[trigger] lines[t],
                markers,
                lbl,
            ),
    ensures
        ({
            let reg = parse_spec(lines, markers, solution)->Ok_0;
            &&& reg_contains(reg, lbl)
            &&& reg[reg_index(reg, lbl)].rec.active == false
            &&& reg[reg_index(reg, lbl)].rec.counter == 0
            &&& reg[reg_index(reg, lbl)].rec.buffer == (if i > 1 {
                elision()
            } else {
                Seq::<char>::empty()
            }) + span_content(lines, markers, solution, i, j - 1) + (if j < lines.len() {
                elision()
            } else {
                Seq::<char>::empty()
            })
        }),
{
    let total = lines.len() as int;
    let lead: Seq<char> = if i > 1 {
        elision()
    } else {
        Seq::empty()
    };
    let trail: Seq<char> = if j < total {
        elision()
    } else {
        Seq::empty()
    };
    lemma_run_ok_at(lines, markers, solution, i, total);
    lemma_run_ok_at(lines, markers, solution, j, total);

    // The label is absent until the opening line: the initial registry
    // holds only the default label.
    let r0 = run_prefix(lines, markers, solution, 0)->Ok_0.reg;
    assert(forall|t: int| 0 <= t < r0.len() ==> r0[t].label != lbl);
    lemma_reg_index_absent(r0, lbl);
    lemma_span_no_label(lines, markers, solution, lbl, 0, i - 1);
    let st1 = run_prefix(lines, markers, solution, i - 1)->Ok_0;
    assert(reg_index(st1.reg, lbl) == -1);

    // The opening line registers it, fresh and active; away from line 1
    // a leading elision marker goes in.
    let k = st1.reg.len() as int;
    let r1 = start_m(st1.reg, lbl);
    lemma_reg_index_props(st1.reg, lbl);
    lemma_reg_index_at(r1, lbl, k);
    lemma_reg_index_props(r1, lbl);
    let ri = run_prefix(lines, markers, solution, i)->Ok_0.reg;
    assert(ri == apply_label_start(st1.reg, lbl, i));
    assert(reg_index(ri, lbl) == k) by {
        lemma_append_label_m_index(r1, lbl, elision(), lbl);
    }
    assert(ri[k].rec.active == true && ri[k].rec.counter == 0 && ri[k].rec.buffer == lead) by {
        if i > 1 {
            assert(Seq::<char>::empty() + elision() =~= elision());
        }
    }

    // Between the two directives the buffer gathers the span's content.
    lemma_span_no_label(lines, markers, solution, lbl, i, j - 1);
    let st2 = run_prefix(lines, markers, solution, j - 1)->Ok_0;
    assert(reg_index(st2.reg, lbl) == k);
    assert(st2.reg[k].rec.buffer == lead + span_content(lines, markers, solution, i, j - 1));

    // The closing line deactivates it; away from the last line a
    // trailing elision marker goes in.
    lemma_reg_index_props(st2.reg, lbl);
    let r2 = end_m(st2.reg, lbl);
    lemma_end_m_index(st2.reg, lbl, lbl);
    lemma_reg_index_props(r2, lbl);
    let rj = run_prefix(lines, markers, solution, j)->Ok_0.reg;
    assert(reg_index(rj, lbl) == k) by {
        lemma_append_label_m_index(r2, lbl, elision(), lbl);
    }
    assert(rj[k].rec.active == false && rj[k].rec.counter == 0 && rj[k].rec.buffer == lead
        + span_content(lines, markers, solution, i, j - 1) + trail) by {
        if j >= total {
            assert(rj[k].rec.buffer + Seq::<char>::empty() =~= rj[k].rec.buffer);
        }
    }

    // Inactive from there on: nothing else reaches the buffer.
    lemma_span_no_label(lines, markers, solution, lbl, j, total);
    let rt = run_prefix(lines, markers, solution, total)->Ok_0.reg;
    assert(reg_index(rt, lbl) == k && rt[k] == rj[k]);

    // Closing the default label touches only the default entry.
    lemma_end_m_other(rt, default_label(), lbl);
}

/// Plain content under an active quiet gate contributes nothing, and
/// leaves every flag as it stands.
proof fn lemma_plain_span_quiet(
    lines: Seq<Seq<char>>,
    markers: Seq<Seq<char>>,
    solution: bool,
    a: int,
    b: int,
)
    requires
        0 <= a <= b <= lines.len(),
        run_prefix(lines, markers, solution, b) is Ok,
        forall|t: int| a <= t < b ==> token_of(#[trigger] lines[t], markers) is None,
        run_prefix(lines, markers, solution, a)->Ok_0.quiet,
    ensures
        span_content(lines, markers, solution, a, b) == Seq::<char>::empty(),
        ({
            let sa = run_prefix(lines, markers, solution, a)->Ok_0;
            let sb = run_prefix(lines, markers, solution, b)->Ok_0;
            sb == (StateModel { reg: sb.reg, ..sa })
        }),
    decreases b - a,
{
    if b > a {
        lemma_run_ok_at(lines, markers, solution, b - 1, b);
        lemma_plain_span_quiet(lines, markers, solution, a, b - 1);
        assert(Seq::<char>::empty() + Seq::<char>::empty() =~= Seq::<char>::empty());
    }
}

/// Plain content in the solution variant outside any quiet gate is
/// emitted verbatim, and leaves every flag as it stands.
proof fn lemma_plain_span_emit(
    lines: Seq<Seq<char>>,
    markers: Seq<Seq<char>>,
    solution: bool,
    a: int,
    b: int,
)
    requires
        0 <= a <= b <= lines.len(),
        run_prefix(lines, markers, solution, b) is Ok,
        forall|t: int| a <= t < b ==> token_of(#[trigger] lines[t], markers) is None,
        !run_prefix(lines, markers, solution, a)->Ok_0.quiet,
        solution || !run_prefix(lines, markers, solution, a)->Ok_0.exercise_quiet,
    ensures
        span_content(lines, markers, solution, a, b) == lines_concat(lines, a, b),
        ({
            let sa = run_prefix(lines, markers, solution, a)->Ok_0;
            let sb = run_prefix(lines, markers, solution, b)->Ok_0;
            sb == (StateModel { reg: sb.reg, ..sa })
        }),
    decreases b - a,
{
    if b > a {
        lemma_run_ok_at(lines, markers, solution, b - 1, b);
        lemma_plain_span_emit(lines, markers, solution, a, b - 1);
        assert(lines_concat(lines, a, b - 1) + (lines[b - 1] + "\n"@) =~= lines_concat(
            lines,
            a,
            b - 1,
        ) + lines[b - 1] + "\n"@);
    } else {
        assert(span_content(lines, markers, solution, a, b) =~= lines_concat(lines, a, b));
    }
}

/// An `EXCSUBST` region over plain content: outside the solution variant
/// the enclosed lines are replaced by the supplied hint text; in the
/// solution variant the enclosed lines appear verbatim and the hint is
/// suppressed.
pub proof fn lemma_excsubst_region(
    lines: Seq<Seq<char>>,
    markers: Seq<Seq<char>>,
    solution: bool,
    text: Seq<char>,
    i: int,
    j: int,
)
    requires
        0 <= i < j <= lines.len(),
        run_prefix(lines, markers, solution, j) is Ok,
        token_of(lines[i], markers) == Some(TokenModel::ExcSubst { text, start: true }),
        forall|t: int| i < t < j ==> token_of(#[trigger] lines[t], markers) is None,
        !run_prefix(lines, markers, solution, i)->Ok_0.quiet,
        solution || !run_prefix(lines, markers, solution, i)->Ok_0.exercise_quiet,
    ensures
        !solution ==> span_content(lines, markers, solution, i, j) == text + "\n"@,
        solution ==> span_content(lines, markers, solution, i, j) == lines_concat(
            lines,
            i + 1,
            j,
        ),
{
    lemma_run_ok_at(lines, markers, solution, i, j);
    lemma_run_ok_at(lines, markers, solution, i + 1, j);
    let st = run_prefix(lines, markers, solution, i)->Ok_0;
    lemma_span_split(lines, markers, solution, i, i + 1, j);
    assert(span_content(lines, markers, solution, i, i) == Seq::<char>::empty());
    assert(span_content(lines, markers, solution, i, i + 1) =~= Seq::<char>::empty()
        + contribution(st, lines[i], markers, solution));
    assert(Seq::<char>::empty() + contribution(st, lines[i], markers, solution) =~= contribution(
        st,
        lines[i],
        markers,
        solution,
    ));
    if !solution {
        // the hint went in and the region is quiet
        lemma_plain_span_quiet(lines, markers, solution, i + 1, j);
        assert((text + "\n"@) + Seq::<char>::empty() =~= text + "\n"@);
    } else {
        // the hint is suppressed and the lines are emitted
        lemma_plain_span_emit(lines, markers, solution, i + 1, j);
        assert(Seq::<char>::empty() + lines_concat(lines, i + 1, j) =~= lines_concat(
            lines,
            i + 1,
            j,
        ));
    }
}

/// A global-suppression region over plain content contributes nothing to
/// any buffer: the enclosed lines are excluded from every extract.
pub proof fn lemma_suppressed_region_empty(
    lines: Seq<Seq<char>>,
    markers: Seq<Seq<char>>,
    solution: bool,
    i: int,
    j: int,
)
    requires
        0 <= i < j <= lines.len(),
        run_prefix(lines, markers, solution, j) is Ok,
        token_of(lines[i], markers) == Some(TokenModel::Out { start: true }),
        forall|t: int| i < t < j ==> token_of(#[trigger] lines[t], markers) is None,
    ensures
        span_content(lines, markers, solution, i, j) == Seq::<char>::empty(),
{
    lemma_run_ok_at(lines, markers, solution, i, j);
    lemma_run_ok_at(lines, markers, solution, i + 1, j);
    let st = run_prefix(lines, markers, solution, i)->Ok_0;
    lemma_span_split(lines, markers, solution, i, i + 1, j);
    assert(span_content(lines, markers, solution, i, i) == Seq::<char>::empty());
    assert(span_content(lines, markers, solution, i, i + 1) =~= Seq::<char>::empty()
        + contribution(st, lines[i], markers, solution));
    lemma_plain_span_quiet(lines, markers, solution, i + 1, j);
    assert(Seq::<char>::empty() + Seq::<char>::empty() + Seq::<char>::empty() =~= Seq::<
        char,
    >::empty());
}

/// A run over plain content alone cannot fail, and leaves the gates as
/// they began.
proof fn lemma_plain_run_ok(
    lines: Seq<Seq<char>>,
    markers: Seq<Seq<char>>,
    solution: bool,
    n: int,
)
    requires
        0 <= n <= lines.len(),
        forall|t: int| 0 <= t < lines.len() ==> token_of(#[trigger] lines[t], markers) is None,
    ensures
        run_prefix(lines, markers, solution, n) is Ok,
        !run_prefix(lines, markers, solution, n)->Ok_0.quiet,
        !run_prefix(lines, markers, solution, n)->Ok_0.exercise_quiet,
    decreases n,
{
    if n > 0 {
        lemma_plain_run_ok(lines, markers, solution, n - 1);
    }
}

/// A file without directives always parses, and its default buffer is
/// the file itself, line by line.
pub proof fn lemma_plain_file_roundtrip(
    lines: Seq<Seq<char>>,
    markers: Seq<Seq<char>>,
    solution: bool,
)
    requires
        forall|t: int| 0 <= t < lines.len() ==> token_of(#[trigger] lines[t], markers) is None,
    ensures
        parse_spec(lines, markers, solution) is Ok,
        ({
            let reg = parse_spec(lines, markers, solution)->Ok_0;
            &&& reg_contains(reg, default_label())
            &&& reg[reg_index(reg, default_label())].rec.buffer == lines_concat(
                lines,
                0,
                lines.len() as int,
            )
        }),
{
    let total = lines.len() as int;
    lemma_plain_run_ok(lines, markers, solution, total);
    lemma_default_label_spans_file(lines, markers, solution);
    lemma_plain_span_emit(lines, markers, solution, 0, total);
}

/// Every error a step produces names that step's own line.
proof fn lemma_step_err_line(
    st: StateModel,
    line: Seq<char>,
    line_no: int,
    total: int,
    markers: Seq<Seq<char>>,
    solution: bool,
)
    requires
        step(st, line, line_no, total, markers, solution) is Err,
    ensures
        err_line(step(st, line, line_no, total, markers, solution)->Err_0) == line_no,
{
}

/// A violating directive on a line all of whose predecessors were
/// processed cleanly fails the whole parse with exactly that violation.
pub proof fn lemma_error_at(
    lines: Seq<Seq<char>>,
    markers: Seq<Seq<char>>,
    solution: bool,
    i: int,
)
    requires
        0 <= i < lines.len(),
        run_prefix(lines, markers, solution, i) is Ok,
        step(
            run_prefix(lines, markers, solution, i)->Ok_0,
            lines[i],
            i + 1,
            lines.len() as int,
            markers,
            solution,
        ) is Err,
    ensures
        parse_spec(lines, markers, solution) == Err::<Seq<EntryModel>, ErrModel>(
            step(
                run_prefix(lines, markers, solution, i)->Ok_0,
                lines[i],
                i + 1,
                lines.len() as int,
                markers,
                solution,
            )->Err_0,
        ),
        err_line(parse_spec(lines, markers, solution)->Err_0) == i + 1,
{
    let st = run_prefix(lines, markers, solution, i)->Ok_0;
    lemma_step_err_line(st, lines[i], i + 1, lines.len() as int, markers, solution);
    lemma_run_prefix_err(lines, markers, solution, i + 1, lines.len() as int);
}

/// The line behind a failed run: the first one whose directive violated
/// a rule, every line before it having been processed cleanly.
proof fn lemma_run_err_witness(
    lines: Seq<Seq<char>>,
    markers: Seq<Seq<char>>,
    solution: bool,
    n: int,
) -> (i: int)
    requires
        0 <= n <= lines.len(),
        run_prefix(lines, markers, solution, n) is Err,
    ensures
        0 <= i < n,
        run_prefix(lines, markers, solution, i) is Ok,
        step(
            run_prefix(lines, markers, solution, i)->Ok_0,
            lines[i],
            i + 1,
            lines.len() as int,
            markers,
            solution,
        ) == Err::<StateModel, ErrModel>(run_prefix(lines, markers, solution, n)->Err_0),
    decreases n,
{
    if n > 0 && run_prefix(lines, markers, solution, n - 1) is Ok {
        n - 1
    } else if n > 0 {
        lemma_run_err_witness(lines, markers, solution, n - 1)
    } else {
        0  // cannot happen: the empty prefix never fails
    }
}

/// Every parse failure is the first violation: some line exists whose
/// directive produced exactly the reported error while every earlier
/// line was processed cleanly, and the error names that line.
pub proof fn lemma_first_violation(
    lines: Seq<Seq<char>>,
    markers: Seq<Seq<char>>,
    solution: bool,
) -> (i: int)
    requires
        parse_spec(lines, markers, solution) is Err,
    ensures
        0 <= i < lines.len(),
        run_prefix(lines, markers, solution, i) is Ok,
        step(
            run_prefix(lines, markers, solution, i)->Ok_0,
            lines[i],
            i + 1,
            lines.len() as int,
            markers,
            solution,
        ) == Err::<StateModel, ErrModel>(parse_spec(lines, markers, solution)->Err_0),
        err_line(parse_spec(lines, markers, solution)->Err_0) == i + 1,
{
    let i = lemma_run_err_witness(lines, markers, solution, lines.len() as int);
    lemma_step_err_line(
        run_prefix(lines, markers, solution, i)->Ok_0,
        lines[i],
        i + 1,
        lines.len() as int,
        markers,
        solution,
    );
    i
}

} // verus!

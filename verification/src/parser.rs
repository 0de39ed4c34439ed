//! The snippet parser: label registry, mode tracker and the per-line
//! state machine that turns the lines of one file into a registry of
//! labeled output buffers.

use crate::default_label;
use crate::text::{dec_rep, push_chars, push_str_chars, str_views, to_chars, chars_to_string};
use crate::text::str_eq;
use crate::text::u64_dec_chars;
use crate::tokenizer::{read_token, token_of, Token, TokenModel};
use crate::util::Setting;
use crate::DEFAULTLABEL;
use vstd::prelude::*;

verus! {

/// The accumulation state for one label.
///
/// `active`: lines currently processed are appended to this record's buffer.
/// `counter`: how often this label has been re-started in the current file.
/// `buffer`: the accumulated output text.
#[derive(Debug, PartialEq)]
pub struct Record {
    pub active: bool,
    pub counter: i32,
    pub buffer: String,
}

/// Mathematical model of a [`Record`].
#[verifier::ext_equal]
pub struct RecordModel {
    pub active: bool,
    pub counter: int,
    pub buffer: Seq<char>,
}

impl View for Record {
    type V = RecordModel;

    open spec fn view(&self) -> RecordModel {
        RecordModel { active: self.active, counter: self.counter as int, buffer: self.buffer@ }
    }
}

impl Record {
    /// A fresh record with an empty buffer.
    fn new(active: bool) -> (r: Record)
        ensures
            r@ == (RecordModel { active, counter: 0, buffer: Seq::<char>::empty() }),
    {
        Record { active, counter: 0, buffer: String::new() }
    }
}

/// Mathematical model of one registry entry: a label and its record.
#[verifier::ext_equal]
pub struct EntryModel {
    pub label: Seq<char>,
    pub rec: RecordModel,
}

/// The index of the entry for `label`, or -1 where no entry carries it.
pub open spec fn reg_index(reg: Seq<EntryModel>, label: Seq<char>) -> int
    decreases reg.len(),
{
    if reg.len() == 0 {
        -1
    } else if reg[0].label == label {
        0
    } else {
        let r = reg_index(reg.drop_first(), label);
        if r < 0 {
            -1
        } else {
            r + 1
        }
    }
}

/// Whether the registry holds an entry for `label`.
pub open spec fn reg_contains(reg: Seq<EntryModel>, label: Seq<char>) -> bool {
    reg_index(reg, label) >= 0
}

/// `reg_index` points at the first entry carrying its label, and is -1
/// exactly where there is none.
pub proof fn lemma_reg_index_props(reg: Seq<EntryModel>, label: Seq<char>)
    ensures
        reg_index(reg, label) >= 0 ==> reg_index(reg, label) < reg.len() && reg[reg_index(
            reg,
            label,
        )].label == label,
        reg_index(reg, label) >= 0 ==> forall|j: int|
            0 <= j < reg_index(reg, label) ==> reg[j].label != label,
        reg_index(reg, label) < 0 ==> reg_index(reg, label) == -1 && forall|j: int|
            0 <= j < reg.len() ==> reg[j].label != label,
    decreases reg.len(),
{
    if reg.len() > 0 && reg[0].label != label {
        lemma_reg_index_props(reg.drop_first(), label);
        assert(forall|j: int|
            1 <= j < reg.len() ==> #[trigger] reg[j] == reg.drop_first()[j - 1]);
    }
}

/// `reg_index` returns `i` for any sequence whose first entry carrying
/// `label` stands at `i`.
pub proof fn lemma_reg_index_at(reg: Seq<EntryModel>, label: Seq<char>, i: int)
    requires
        0 <= i < reg.len(),
        reg[i].label == label,
        forall|j: int| 0 <= j < i ==> reg[j].label != label,
    ensures
        reg_index(reg, label) == i,
    decreases reg.len(),
{
    if i > 0 {
        assert(forall|j: int|
            1 <= j < reg.len() ==> #[trigger] reg[j] == reg.drop_first()[j - 1]);
        lemma_reg_index_at(reg.drop_first(), label, i - 1);
    }
}

/// `reg_index` returns -1 where no entry carries `label`.
pub proof fn lemma_reg_index_absent(reg: Seq<EntryModel>, label: Seq<char>)
    requires
        forall|j: int| 0 <= j < reg.len() ==> reg[j].label != label,
    ensures
        reg_index(reg, label) == -1,
    decreases reg.len(),
{
    if reg.len() > 0 {
        assert(forall|j: int|
            1 <= j < reg.len() ==> #[trigger] reg[j] == reg.drop_first()[j - 1]);
        lemma_reg_index_absent(reg.drop_first(), label);
    }
}

/// Registers or reactivates `label`: a fresh active record for an unknown
/// label, else the existing record turned active with its open-count
/// increased.
pub open spec fn start_m(reg: Seq<EntryModel>, label: Seq<char>) -> Seq<EntryModel> {
    let i = reg_index(reg, label);
    if i < 0 {
        reg.push(
            EntryModel {
                label,
                rec: RecordModel { active: true, counter: 0, buffer: Seq::empty() },
            },
        )
    } else {
        reg.update(
            i,
            EntryModel {
                label,
                rec: RecordModel {
                    active: true,
                    counter: reg[i].rec.counter + 1,
                    buffer: reg[i].rec.buffer,
                },
            },
        )
    }
}

/// Marks the record for `label` inactive; no change for an unknown label.
pub open spec fn end_m(reg: Seq<EntryModel>, label: Seq<char>) -> Seq<EntryModel> {
    let i = reg_index(reg, label);
    if i < 0 {
        reg
    } else {
        reg.update(
            i,
            EntryModel {
                label,
                rec: RecordModel {
                    active: false,
                    counter: reg[i].rec.counter,
                    buffer: reg[i].rec.buffer,
                },
            },
        )
    }
}

/// Appends `text` to the buffer of the record for `label`; no change for
/// an unknown label.
pub open spec fn append_label_m(reg: Seq<EntryModel>, label: Seq<char>, text: Seq<char>) -> Seq<
    EntryModel,
> {
    let i = reg_index(reg, label);
    if i < 0 {
        reg
    } else {
        reg.update(
            i,
            EntryModel {
                label: reg[i].label,
                rec: RecordModel {
                    active: reg[i].rec.active,
                    counter: reg[i].rec.counter,
                    buffer: reg[i].rec.buffer + text,
                },
            },
        )
    }
}

/// One entry after `text` was offered to every active record.
pub open spec fn append_one_m(e: EntryModel, text: Seq<char>) -> EntryModel {
    if e.rec.active {
        EntryModel {
            label: e.label,
            rec: RecordModel {
                active: e.rec.active,
                counter: e.rec.counter,
                buffer: e.rec.buffer + text,
            },
        }
    } else {
        e
    }
}

/// Appends `text` to the buffer of every active record.
pub open spec fn append_active_m(reg: Seq<EntryModel>, text: Seq<char>) -> Seq<EntryModel> {
    reg.map_values(|e: EntryModel| append_one_m(e, text))
}

#[derive(Debug, PartialEq)]
struct Entry {
    label: String,
    rec: Record,
}

impl View for Entry {
    type V = EntryModel;

    closed spec fn view(&self) -> EntryModel {
        EntryModel { label: self.label@, rec: self.rec@ }
    }
}

/// The label registry: one record per label, in order of first
/// registration.  The output collector of a parse.
#[derive(Debug, PartialEq)]
pub struct Registry {
    entries: Vec<Entry>,
}

impl View for Registry {
    type V = Seq<EntryModel>;

    closed spec fn view(&self) -> Seq<EntryModel> {
        self.entries@.map_values(|e: Entry| e@)
    }
}

impl Registry {
    /// An empty registry.
    pub fn new() -> (r: Registry)
        ensures
            r@ == Seq::<EntryModel>::empty(),
    {
        let r = Registry { entries: Vec::new() };
        proof {
            assert(r@ =~= Seq::<EntryModel>::empty());
        }
        r
    }

    /// The number of labels registered.
    pub fn len(&self) -> (n: usize)
        ensures
            n == self@.len(),
    {
        self.entries.len()
    }

    /// The position of `label`'s entry, if one exists.
    fn find_idx(&self, label: &str) -> (r: Option<usize>)
        ensures
            match r {
                Some(i) => 0 <= i < self@.len() && reg_index(self@, label@) == i,
                None => reg_index(self@, label@) == -1,
            },
    {
        let mut i: usize = 0;
        while i < self.entries.len()
            invariant
                0 <= i <= self@.len(),
                self@.len() == self.entries@.len(),
                forall|j: int| 0 <= j < i ==> self@[j].label != label@,
            decreases self@.len() - i,
        {
            if str_eq(self.entries[i].label.as_str(), label) {
                proof {
                    assert(self@[i as int].label == label@);
                    lemma_reg_index_at(self@, label@, i as int);
                }
                return Some(i);
            }
            i = i + 1;
        }
        proof {
            lemma_reg_index_absent(self@, label@);
        }
        None
    }

    /// The record registered for `label`, if any.
    pub fn get(&self, label: &str) -> (r: Option<&Record>)
        ensures
            match r {
                Some(rec) => reg_contains(self@, label@) && rec@ == self@[reg_index(
                    self@,
                    label@,
                )].rec,
                None => !reg_contains(self@, label@),
            },
    {
        match self.find_idx(label) {
            Some(i) => Some(&self.entries[i].rec),
            None => None,
        }
    }

    /// The label of the entry at position `i`.
    pub fn label_at(&self, i: usize) -> (r: &String)
        requires
            i < self@.len(),
        ensures
            r@ == self@[i as int].label,
    {
        &self.entries[i].label
    }

    /// The record of the entry at position `i`.
    pub fn record_at(&self, i: usize) -> (r: &Record)
        requires
            i < self@.len(),
        ensures
            r@ == self@[i as int].rec,
    {
        &self.entries[i].rec
    }

    /// Registers or reactivates `label`.
    fn start(&mut self, label: &str)
        requires
            forall|j: int|
                0 <= j < old(self)@.len() ==> old(self)@[j].rec.counter < 0x7fff_ffff,
        ensures
            final(self)@ == start_m(old(self)@, label@),
    {
        match self.find_idx(label) {
            None => {
                let ghost reg0 = self@;
                self.entries.push(Entry { label: label.to_owned(), rec: Record::new(true) });
                proof {
                    assert(self@ =~= start_m(reg0, label@));
                }
            },
            Some(i) => {
                let ghost reg0 = self@;
                proof {
                    lemma_reg_index_props(reg0, label@);
                }
                let mut e = self.entries.remove(i);
                e.rec.active = true;
                e.rec.counter = e.rec.counter + 1;
                self.entries.insert(i, e);
                proof {
                    assert(self@ =~= start_m(reg0, label@));
                }
            },
        }
    }

    /// Marks `label`'s record inactive; reports whether it was known.
    fn end(&mut self, label: &str) -> (found: bool)
        ensures
            final(self)@ == end_m(old(self)@, label@),
            found == reg_contains(old(self)@, label@),
    {
        match self.find_idx(label) {
            None => {
                proof {
                    assert(self@ =~= end_m(self@, label@));
                }
                false
            },
            Some(i) => {
                let ghost reg0 = self@;
                proof {
                    lemma_reg_index_props(reg0, label@);
                }
                let mut e = self.entries.remove(i);
                e.rec.active = false;
                self.entries.insert(i, e);
                proof {
                    assert(self@ =~= end_m(reg0, label@));
                }
                true
            },
        }
    }

    /// Appends `text` directly to the buffer of `label`'s record.
    fn append_to_label(&mut self, label: &str, text: &str)
        ensures
            final(self)@ == append_label_m(old(self)@, label@, text@),
    {
        match self.find_idx(label) {
            None => {
                proof {
                    assert(self@ =~= append_label_m(self@, label@, text@));
                }
            },
            Some(i) => {
                let ghost reg0 = self@;
                let mut e = self.entries.remove(i);
                e.rec.buffer.append(text);
                self.entries.insert(i, e);
                proof {
                    assert(self@ =~= append_label_m(reg0, label@, text@));
                }
            },
        }
    }

    /// Appends `text` and a newline to the buffer of every active record.
    fn append_active_line(&mut self, text: &str)
        ensures
            final(self)@ == append_active_m(old(self)@, text@ + "\n"@),
    {
        let ghost reg0 = self@;
        let n = self.entries.len();
        let mut j: usize = 0;
        while j < n
            invariant
                0 <= j <= n,
                n == reg0.len(),
                self@.len() == n,
                forall|k: int| j <= k < n ==> self@[k] == reg0[k],
                forall|k: int| 0 <= k < j ==> self@[k] == append_one_m(reg0[k], text@ + "\n"@),
            decreases n - j,
        {
            let ghost regj = self@;
            if self.entries[j].rec.active {
                let mut e = self.entries.remove(j);
                e.rec.buffer.append(text);
                e.rec.buffer.append("\n");
                self.entries.insert(j, e);
                proof {
                    assert(regj[j as int].rec.buffer + text@ + "\n"@ =~= regj[j as int].rec.buffer
                        + (text@ + "\n"@));
                    assert(self@ =~= regj.update(
                        j as int,
                        append_one_m(regj[j as int], text@ + "\n"@),
                    ));
                }
            }
            j = j + 1;
        }
        proof {
            assert(self@ =~= append_active_m(reg0, text@ + "\n"@));
        }
    }
}

/// The four toggle-directive families tracked by the mode tracker.
pub enum ModeFamily {
    Out,
    Exc,
    Var,
    ExcSubst,
}

/// A parse error: every one is fatal to the current file's parse.
pub enum ErrModel {
    /// A toggle directive opened while already open.
    UnbalancedOpen { fam: ModeFamily, line: int },
    /// A toggle directive closed while not open.
    UnbalancedClose { fam: ModeFamily, line: int },
    /// `-IN` for a label never started.
    LabelCloseWithoutOpen { label: Seq<char>, line: int },
}

/// The 1-based number of the line an error reports.
pub open spec fn err_line(e: ErrModel) -> int {
    match e {
        ErrModel::UnbalancedOpen { fam, line } => line,
        ErrModel::UnbalancedClose { fam, line } => line,
        ErrModel::LabelCloseWithoutOpen { label, line } => line,
    }
}

/// The message text reported for a parse error.
pub open spec fn err_msg(e: ErrModel) -> Seq<char> {
    match e {
        ErrModel::UnbalancedOpen { fam, line } => "Line "@ + dec_rep(line) + match fam {
            ModeFamily::Out => ": Another +OUT"@,
            ModeFamily::Exc => ": Another +EXC"@,
            ModeFamily::Var => ": Another +VAR"@,
            ModeFamily::ExcSubst => ": Another +EXCSUBST"@,
        },
        ErrModel::UnbalancedClose { fam, line } => "Line "@ + dec_rep(line) + match fam {
            ModeFamily::Out => ": -OUT without preceding +OUT"@,
            ModeFamily::Exc => ": -EXC without preceding +EXC"@,
            ModeFamily::Var => ": -VAR without preceding +VAR"@,
            ModeFamily::ExcSubst => ": -EXCSUBST without preceding +EXCSUBST"@,
        },
        ErrModel::LabelCloseWithoutOpen { label, line } => "Line "@ + dec_rep(line)
            + ": End (-) without start (+) for label: "@ + label,
    }
}

/// The elision marker inserted where content was skipped at the boundary
/// of an extract.
pub open spec fn elision() -> Seq<char> {
    "...\n"@
}

/// The whole state carried across one file: the registry, the four mode
/// flags and the two derived line gates.
#[verifier::ext_equal]
pub struct StateModel {
    pub reg: Seq<EntryModel>,
    pub out: bool,
    pub exc: bool,
    pub var: bool,
    pub excsubst: bool,
    pub quiet: bool,
    pub exercise_quiet: bool,
}

/// The state before any line is processed: only the default label,
/// active, with an empty buffer; all flags clear.
pub open spec fn init_state() -> StateModel {
    StateModel {
        reg: seq![
            EntryModel {
                label: default_label(),
                rec: RecordModel { active: true, counter: 0, buffer: Seq::empty() },
            },
        ],
        out: false,
        exc: false,
        var: false,
        excsubst: false,
        quiet: false,
        exercise_quiet: false,
    }
}

/// The registry after a label-start event: the label is registered or
/// reactivated, and away from line 1 an elision marker goes directly
/// into its buffer.
pub open spec fn apply_label_start(reg: Seq<EntryModel>, label: Seq<char>, line_no: int) -> Seq<
    EntryModel,
> {
    let r1 = start_m(reg, label);
    if line_no > 1 {
        append_label_m(r1, label, elision())
    } else {
        r1
    }
}

/// One step of the state machine: the effect of the line `line` (1-based
/// number `line_no` of `total`) on the state `st`.
pub open spec fn step(
    st: StateModel,
    line: Seq<char>,
    line_no: int,
    total: int,
    markers: Seq<Seq<char>>,
    solution: bool,
) -> Result<StateModel, ErrModel> {
    match token_of(line, markers) {
        Some(TokenModel::In { label, start }) => if start {
            Ok(StateModel { reg: apply_label_start(st.reg, label, line_no), ..st })
        } else {
            if reg_index(st.reg, label) < 0 {
                Err(ErrModel::LabelCloseWithoutOpen { label, line: line_no })
            } else {
                let r1 = end_m(st.reg, label);
                let r2 = if line_no < total {
                    append_label_m(r1, label, elision())
                } else {
                    r1
                };
                Ok(StateModel { reg: r2, ..st })
            }
        },
        Some(TokenModel::Out { start }) => if start {
            if st.out {
                Err(ErrModel::UnbalancedOpen { fam: ModeFamily::Out, line: line_no })
            } else {
                Ok(StateModel { out: true, quiet: true, ..st })
            }
        } else {
            if !st.out {
                Err(ErrModel::UnbalancedClose { fam: ModeFamily::Out, line: line_no })
            } else {
                Ok(StateModel { out: false, quiet: false, ..st })
            }
        },
        Some(TokenModel::Exc { start }) => if start {
            if st.exc {
                Err(ErrModel::UnbalancedOpen { fam: ModeFamily::Exc, line: line_no })
            } else {
                Ok(StateModel { exc: true, exercise_quiet: true, ..st })
            }
        } else {
            if !st.exc {
                Err(ErrModel::UnbalancedClose { fam: ModeFamily::Exc, line: line_no })
            } else {
                Ok(StateModel { exc: false, exercise_quiet: false, ..st })
            }
        },
        Some(TokenModel::Subst { text, start }) => if start {
            if st.var {
                Err(ErrModel::UnbalancedOpen { fam: ModeFamily::Var, line: line_no })
            } else {
                Ok(
                    StateModel {
                        var: true,
                        reg: append_active_m(st.reg, text + "\n"@),
                        quiet: true,
                        ..st
                    },
                )
            }
        } else {
            if !st.var {
                Err(ErrModel::UnbalancedClose { fam: ModeFamily::Var, line: line_no })
            } else {
                Ok(StateModel { var: false, quiet: false, ..st })
            }
        },
        Some(TokenModel::ExcSubst { text, start }) => if start {
            if st.excsubst {
                Err(ErrModel::UnbalancedOpen { fam: ModeFamily::ExcSubst, line: line_no })
            } else {
                if !solution && !st.quiet {
                    Ok(
                        StateModel {
                            excsubst: true,
                            reg: append_active_m(st.reg, text + "\n"@),
                            quiet: true,
                            ..st
                        },
                    )
                } else {
                    Ok(StateModel { excsubst: true, ..st })
                }
            }
        } else {
            if !st.excsubst {
                Err(ErrModel::UnbalancedClose { fam: ModeFamily::ExcSubst, line: line_no })
            } else {
                Ok(StateModel { excsubst: false, quiet: false, ..st })
            }
        },
        None => if !st.quiet && (solution || !st.exercise_quiet) {
            Ok(StateModel { reg: append_active_m(st.reg, line + "\n"@), ..st })
        } else {
            Ok(st)
        },
    }
}

/// The state after the first `n` lines, or the first error among them.
pub open spec fn run_prefix(
    lines: Seq<Seq<char>>,
    markers: Seq<Seq<char>>,
    solution: bool,
    n: int,
) -> Result<StateModel, ErrModel>
    decreases n,
{
    if n <= 0 {
        Ok(init_state())
    } else {
        match run_prefix(lines, markers, solution, n - 1) {
            Ok(st) => step(st, lines[n - 1], n, lines.len() as int, markers, solution),
            Err(e) => Err(e),
        }
    }
}

/// The complete parse of a file: every line processed in order, then the
/// default label closed.
pub open spec fn parse_spec(
    lines: Seq<Seq<char>>,
    markers: Seq<Seq<char>>,
    solution: bool,
) -> Result<Seq<EntryModel>, ErrModel> {
    match run_prefix(lines, markers, solution, lines.len() as int) {
        Ok(st) => Ok(end_m(st.reg, default_label())),
        Err(e) => Err(e),
    }
}

/// One step raises no open-count above one more than the bound that
/// held before it.
proof fn lemma_step_counters(
    st: StateModel,
    line: Seq<char>,
    line_no: int,
    total: int,
    markers: Seq<Seq<char>>,
    solution: bool,
    b: int,
)
    requires
        b >= 0,
        forall|j: int| 0 <= j < st.reg.len() ==> #[trigger] st.reg[j].rec.counter <= b,
        step(st, line, line_no, total, markers, solution) is Ok,
    ensures
        forall|j: int|
            0 <= j < step(st, line, line_no, total, markers, solution)->Ok_0.reg.len()
                ==> #[trigger] step(st, line, line_no, total, markers, solution)->Ok_0.reg[j]
                .rec.counter <= b + 1,
{
    let r = step(st, line, line_no, total, markers, solution)->Ok_0.reg;
    match token_of(line, markers) {
        Some(TokenModel::In { label, start }) => {
            lemma_reg_index_props(st.reg, label);
            if start {
                let r1 = start_m(st.reg, label);
                lemma_reg_index_props(r1, label);
                assert(forall|j: int|
                    0 <= j < r1.len() ==> #[trigger] r1[j].rec.counter <= b + 1);
                assert(forall|j: int|
                    0 <= j < r.len() ==> #[trigger] r[j].rec.counter <= b + 1);
            } else {
                let r1 = end_m(st.reg, label);
                lemma_reg_index_props(r1, label);
                assert(forall|j: int|
                    0 <= j < r1.len() ==> #[trigger] r1[j].rec.counter <= b + 1);
                assert(forall|j: int|
                    0 <= j < r.len() ==> #[trigger] r[j].rec.counter <= b + 1);
            }
        },
        Some(TokenModel::Subst { text, start }) => {
            assert(forall|j: int| 0 <= j < r.len() ==> #[trigger] r[j].rec.counter <= b + 1);
        },
        Some(TokenModel::ExcSubst { text, start }) => {
            assert(forall|j: int| 0 <= j < r.len() ==> #[trigger] r[j].rec.counter <= b + 1);
        },
        None => {
            assert(forall|j: int| 0 <= j < r.len() ==> #[trigger] r[j].rec.counter <= b + 1);
        },
        _ => {},
    }
}

/// After `n` lines no open-count exceeds `n`.
proof fn lemma_run_counters(lines: Seq<Seq<char>>, markers: Seq<Seq<char>>, solution: bool, n: int)
    requires
        run_prefix(lines, markers, solution, n) is Ok,
    ensures
        forall|j: int|
            0 <= j < run_prefix(lines, markers, solution, n)->Ok_0.reg.len()
                ==> #[trigger] run_prefix(lines, markers, solution, n)->Ok_0.reg[j].rec.counter
                <= if n >= 0 {
                n
            } else {
                0
            },
    decreases n,
{
    if n > 0 {
        lemma_run_counters(lines, markers, solution, n - 1);
        let st = run_prefix(lines, markers, solution, n - 1)->Ok_0;
        lemma_step_counters(st, lines[n - 1], n, lines.len() as int, markers, solution, n - 1);
    }
}

/// A failed prefix stays failed: the first error aborts the parse.
pub proof fn lemma_run_prefix_err(
    lines: Seq<Seq<char>>,
    markers: Seq<Seq<char>>,
    solution: bool,
    i: int,
    n: int,
)
    requires
        0 <= i <= n,
        run_prefix(lines, markers, solution, i) is Err,
    ensures
        run_prefix(lines, markers, solution, n) == run_prefix(lines, markers, solution, i),
    decreases n,
{
    if n > i {
        lemma_run_prefix_err(lines, markers, solution, i, n - 1);
    }
}

/// The message `Line <line_no><suffix>`.
fn line_msg(line_no: usize, suffix: &str) -> (m: String)
    ensures
        m@ == "Line "@ + dec_rep(line_no as int) + suffix@,
{
    let mut v = to_chars("Line ");
    let d = u64_dec_chars(line_no as u64);
    push_chars(&mut v, &d);
    push_str_chars(&mut v, suffix);
    chars_to_string(&v)
}

/// The message for a `-IN` without a preceding `+IN`.
fn label_close_msg(line_no: usize, label: &str) -> (m: String)
    ensures
        m@ == "Line "@ + dec_rep(line_no as int) + ": End (-) without start (+) for label: "@
            + label@,
{
    let mut v = to_chars("Line ");
    let d = u64_dec_chars(line_no as u64);
    push_chars(&mut v, &d);
    push_str_chars(&mut v, ": End (-) without start (+) for label: ");
    push_str_chars(&mut v, label);
    chars_to_string(&v)
}

/// Parse a vector of text lines (`lines`) and extract snippets.
/// The environment is specified in `setting`.
/// The snippets are returned in a registry whose keys are the snippet
/// labels, each holding the processed text as its `Record` value.
#[verifier::rlimit(60)]
pub fn parse(lines: &Vec<&str>, setting: &Setting) -> (r: Result<Registry, String>)
    requires
        lines@.len() < 0x8000_0000,
    ensures
        match r {
            Ok(reg) => parse_spec(str_views(lines@), setting.markers(), setting.exercise_solution)
                == Ok::<Seq<EntryModel>, ErrModel>(reg@),
            Err(msg) => {
                let sp = parse_spec(str_views(lines@), setting.markers(), setting.exercise_solution);
                sp is Err && msg@ == err_msg(sp->Err_0)
            },
        },
{
    let ghost lm = str_views(lines@);
    let ghost markers = setting.markers();
    let ghost sol = setting.exercise_solution;
    let no_lines = lines.len();  // of the source file
    let mut out = false;
    let mut exc = false;
    let mut var = false;
    let mut excsubst = false;
    let mut quiet = false;  // if true, lines are omitted.
    let mut exercise_quiet = false;  // if true, lines are omitted unless the solution is emitted.

    // Output collector: the default snippet for extracting the whole
    // source code is registered up front.
    let mut coll = Registry::new();
    coll.start(DEFAULTLABEL);
    proof {
        assert(DEFAULTLABEL@ == default_label());
        assert(coll@ =~= init_state().reg);
        assert(StateModel {
            reg: coll@,
            out,
            exc,
            var,
            excsubst,
            quiet,
            exercise_quiet,
        } == init_state());
    }

    let mut i: usize = 0;
    #[verifier::loop_isolation(false)]
    while i < no_lines
        invariant
            0 <= i <= no_lines,
            run_prefix(lm, markers, sol, i as int) == Ok::<StateModel, ErrModel>(
                StateModel { reg: coll@, out, exc, var, excsubst, quiet, exercise_quiet },
            ),
        decreases no_lines - i,
    {
        let ghost st0 = StateModel { reg: coll@, out, exc, var, excsubst, quiet, exercise_quiet };
        let line = lines[i];
        let line_no = i + 1;  // line numbers are 1-based.
        proof {
            assert(lm[i as int] == line@);
        }
        match read_token(line, setting) {
            Some(Token::RegularToken { label, start: true }) => {
                // begin of a code snippet
                proof {
                    lemma_run_counters(lm, markers, sol, i as int);
                }
                coll.start(label.as_str());
                if line_no > 1 {
                    // Print ... but not at the beginning of the file.
                    coll.append_to_label(label.as_str(), "...\n");
                }
                proof {
                    assert(coll@ == apply_label_start(st0.reg, label@, line_no as int));
                    assert(run_prefix(lm, markers, sol, i as int + 1) == Ok::<
                        StateModel,
                        ErrModel,
                    >(StateModel { reg: coll@, out, exc, var, excsubst, quiet, exercise_quiet }));
                }
            },
            Some(Token::RegularToken { label, start: false }) => {
                // end of a code snippet
                let found = coll.end(label.as_str());
                if !found {
                    let m = label_close_msg(line_no, label.as_str());
                    proof {
                        lemma_run_prefix_err(lm, markers, sol, i as int + 1, lm.len() as int);
                    }
                    return Err(m);
                }
                if line_no < no_lines {
                    // Print ... but not at the end of the file.
                    coll.append_to_label(label.as_str(), "...\n");
                }
                proof {
                    assert(run_prefix(lm, markers, sol, i as int + 1) == Ok::<
                        StateModel,
                        ErrModel,
                    >(StateModel { reg: coll@, out, exc, var, excsubst, quiet, exercise_quiet }));
                }
            },
            Some(Token::QuietToken { start: true }) => {
                if out {
                    let m = line_msg(line_no, ": Another +OUT");
                    proof {
                        lemma_run_prefix_err(lm, markers, sol, i as int + 1, lm.len() as int);
                    }
                    return Err(m);
                }
                out = true;
                quiet = true;  // start to omit output.
                proof {
                    assert(run_prefix(lm, markers, sol, i as int + 1) == Ok::<
                        StateModel,
                        ErrModel,
                    >(StateModel { reg: coll@, out, exc, var, excsubst, quiet, exercise_quiet }));
                }
            },
            Some(Token::QuietToken { start: false }) => {
                if !out {
                    let m = line_msg(line_no, ": -OUT without preceding +OUT");
                    proof {
                        lemma_run_prefix_err(lm, markers, sol, i as int + 1, lm.len() as int);
                    }
                    return Err(m);
                }
                out = false;
                quiet = false;  // end omitting output.
                proof {
                    assert(run_prefix(lm, markers, sol, i as int + 1) == Ok::<
                        StateModel,
                        ErrModel,
                    >(StateModel { reg: coll@, out, exc, var, excsubst, quiet, exercise_quiet }));
                }
            },
            Some(Token::ExerciseToken { start: true }) => {
                if exc {
                    let m = line_msg(line_no, ": Another +EXC");
                    proof {
                        lemma_run_prefix_err(lm, markers, sol, i as int + 1, lm.len() as int);
                    }
                    return Err(m);
                }
                exc = true;
                exercise_quiet = true;  // start to omit output in exercise mode.
                proof {
                    assert(run_prefix(lm, markers, sol, i as int + 1) == Ok::<
                        StateModel,
                        ErrModel,
                    >(StateModel { reg: coll@, out, exc, var, excsubst, quiet, exercise_quiet }));
                }
            },
            Some(Token::ExerciseToken { start: false }) => {
                if !exc {
                    let m = line_msg(line_no, ": -EXC without preceding +EXC");
                    proof {
                        lemma_run_prefix_err(lm, markers, sol, i as int + 1, lm.len() as int);
                    }
                    return Err(m);
                }
                exc = false;
                exercise_quiet = false;  // end omitting output in exercise mode.
                proof {
                    assert(run_prefix(lm, markers, sol, i as int + 1) == Ok::<
                        StateModel,
                        ErrModel,
                    >(StateModel { reg: coll@, out, exc, var, excsubst, quiet, exercise_quiet }));
                }
            },
            Some(Token::ReplaceToken { s, start: true }) => {
                if var {
                    let m = line_msg(line_no, ": Another +VAR");
                    proof {
                        lemma_run_prefix_err(lm, markers, sol, i as int + 1, lm.len() as int);
                    }
                    return Err(m);
                }
                var = true;
                // The substitution text goes into every active record.
                coll.append_active_line(s.as_str());
                quiet = true;  // prevents output of the region's own lines.
                proof {
                    assert(run_prefix(lm, markers, sol, i as int + 1) == Ok::<
                        StateModel,
                        ErrModel,
                    >(StateModel { reg: coll@, out, exc, var, excsubst, quiet, exercise_quiet }));
                }
            },
            Some(Token::ReplaceToken { s: _, start: false }) => {
                if !var {
                    let m = line_msg(line_no, ": -VAR without preceding +VAR");
                    proof {
                        lemma_run_prefix_err(lm, markers, sol, i as int + 1, lm.len() as int);
                    }
                    return Err(m);
                }
                var = false;
                quiet = false;  // end marker, output is allowed again.
                proof {
                    assert(run_prefix(lm, markers, sol, i as int + 1) == Ok::<
                        StateModel,
                        ErrModel,
                    >(StateModel { reg: coll@, out, exc, var, excsubst, quiet, exercise_quiet }));
                }
            },
            Some(Token::ExerciseReplaceToken { s, start: true }) => {
                if excsubst {
                    let m = line_msg(line_no, ": Another +EXCSUBST");
                    proof {
                        lemma_run_prefix_err(lm, markers, sol, i as int + 1, lm.len() as int);
                    }
                    return Err(m);
                }
                excsubst = true;
                if !setting.exercise_solution && !quiet {
                    // The hint replaces the region in the exercise variant.
                    coll.append_active_line(s.as_str());
                    quiet = true;  // prevents output of the region's own lines.
                }
                proof {
                    assert(run_prefix(lm, markers, sol, i as int + 1) == Ok::<
                        StateModel,
                        ErrModel,
                    >(StateModel { reg: coll@, out, exc, var, excsubst, quiet, exercise_quiet }));
                }
            },
            Some(Token::ExerciseReplaceToken { s: _, start: false }) => {
                if !excsubst {
                    let m = line_msg(line_no, ": -EXCSUBST without preceding +EXCSUBST");
                    proof {
                        lemma_run_prefix_err(lm, markers, sol, i as int + 1, lm.len() as int);
                    }
                    return Err(m);
                }
                excsubst = false;
                quiet = false;  // end marker, output is allowed again.
                proof {
                    assert(run_prefix(lm, markers, sol, i as int + 1) == Ok::<
                        StateModel,
                        ErrModel,
                    >(StateModel { reg: coll@, out, exc, var, excsubst, quiet, exercise_quiet }));
                }
            },
            None => {
                if !quiet && (setting.exercise_solution || !exercise_quiet) {
                    // Store the line for every active code snippet label.
                    coll.append_active_line(line);
                }
                proof {
                    assert(run_prefix(lm, markers, sol, i as int + 1) == Ok::<
                        StateModel,
                        ErrModel,
                    >(StateModel { reg: coll@, out, exc, var, excsubst, quiet, exercise_quiet }));
                }
            },
        };
        i = i + 1;
    }
    // End the default code snippet; it is always registered.
    let _found = coll.end(DEFAULTLABEL);
    proof {
        assert(DEFAULTLABEL@ == default_label());
    }
    Ok(coll)
}

} // verus!

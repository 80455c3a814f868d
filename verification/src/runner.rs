//! The run of one test file: which command comes next, how what it did is
//! judged, and when the run stops. The driver starts the processes; every
//! decision is taken here.

use vstd::prelude::*;
use crate::case::{lowercase, to_lowercase};
use crate::expectation::{
    default_expectation, CommandExpectation, Expectation, ExpectedStatus, Specification,
    TestSpecification,
};
use crate::pattern::{normalized, seq_matches, Pattern, PatternLine};
use crate::text::{borrow_all, lines_of, split_lines, views};

verus! {

/// How a command ended.
#[derive(Clone, Copy, Debug, PartialEq, Eq, Structural)]
pub enum ExitKind {
    /// It ended normally, with this code.
    Exited(i32),
    /// A signal ended it.
    Signalled,
    /// It ran longer than it was allowed to and was stopped.
    TimedOut,
    /// It could not be started.
    LaunchFailed,
}

/// Whether the status `expected` is met by a command that ended as `actual`.
/// A command that timed out or could not be started meets none.
pub open spec fn status_accepts(expected: ExpectedStatus, actual: ExitKind) -> bool {
    match expected {
        ExpectedStatus::Success => actual == ExitKind::Exited(0),
        ExpectedStatus::Error => actual matches ExitKind::Exited(code) && code != 0,
        ExpectedStatus::Signal => actual is Signalled,
        ExpectedStatus::ExitCode(code) => actual == ExitKind::Exited(code),
    }
}

/// Whether the captured text `captured` is the output that `expected` asks
/// for. Where nothing is asked, every output is.
pub open spec fn output_accepts(expected: Option<Seq<Pattern>>, captured: Seq<char>) -> bool {
    match expected {
        None => true,
        Some(patterns) => seq_matches(patterns, normalized(lines_of(captured))),
    }
}

/// Tells whether the status `expected` is met by a command that ended as
/// `actual`.
pub fn status_matches(expected: ExpectedStatus, actual: ExitKind) -> (r: bool)
    ensures
        r == status_accepts(expected, actual),
{
    match expected {
        ExpectedStatus::Success => match actual {
            ExitKind::Exited(code) => code == 0,
            _ => false,
        },
        ExpectedStatus::Error => match actual {
            ExitKind::Exited(code) => code != 0,
            _ => false,
        },
        ExpectedStatus::Signal => match actual {
            ExitKind::Signalled => true,
            _ => false,
        },
        ExpectedStatus::ExitCode(wanted) => match actual {
            ExitKind::Exited(code) => code == wanted,
            _ => false,
        },
    }
}

/// Tells whether the captured text `captured` is the output that `expected`
/// asks for.
pub fn output_matches(expected: &Option<Vec<PatternLine>>, captured: &str) -> (r: bool)
    ensures
        r == output_accepts(crate::expectation::output_view(*expected), captured@),
{
    match expected {
        None => true,
        Some(patterns) => {
            let owned = split_lines(captured);
            let lines = borrow_all(&owned);
            crate::matcher::matches(patterns.as_slice(), lines.as_slice())
        },
    }
}

/// What a command did: how it ended, and all that it wrote.
#[derive(Clone, Debug, PartialEq, Eq)]
pub struct Captured {
    pub status: ExitKind,
    pub stdout: String,
    pub stderr: String,
}

/// What a `Captured` stands for.
pub struct CapturedView {
    pub status: ExitKind,
    pub stdout: Seq<char>,
    pub stderr: Seq<char>,
}

impl View for Captured {
    type V = CapturedView;

    open spec fn view(&self) -> CapturedView {
        CapturedView { status: self.status, stdout: self.stdout@, stderr: self.stderr@ }
    }
}

/// What became of one command of a test file.
#[derive(Clone, Debug, PartialEq, Eq)]
pub struct CommandOutcome {
    pub label: String,
    /// Whether the command was run. The fields below say nothing of a command
    /// that was not.
    pub ran: bool,
    /// How the command ended.
    pub status: Option<ExitKind>,
    pub status_ok: bool,
    pub stdout_ok: bool,
    pub stderr_ok: bool,
}

/// What a `CommandOutcome` stands for.
pub struct Outcome {
    pub label: Seq<char>,
    pub ran: bool,
    pub status: Option<ExitKind>,
    pub status_ok: bool,
    pub stdout_ok: bool,
    pub stderr_ok: bool,
}

impl View for CommandOutcome {
    type V = Outcome;

    open spec fn view(&self) -> Outcome {
        Outcome {
            label: self.label@,
            ran: self.ran,
            status: self.status,
            status_ok: self.status_ok,
            stdout_ok: self.stdout_ok,
            stderr_ok: self.stderr_ok,
        }
    }
}

impl Outcome {
    /// The command was run and met every check.
    pub open spec fn passed(self) -> bool {
        self.ran && self.status_ok && self.stdout_ok && self.stderr_ok
    }
}

/// The outcome of the command `label` that did `captured`, held against
/// `expectation`.
pub open spec fn judged(expectation: Expectation, label: Seq<char>, captured: CapturedView) -> Outcome {
    Outcome {
        label,
        ran: true,
        status: Some(captured.status),
        status_ok: status_accepts(expectation.status, captured.status),
        stdout_ok: output_accepts(expectation.stdout, captured.stdout),
        stderr_ok: output_accepts(expectation.stderr, captured.stderr),
    }
}

/// The outcome of the command `label` that was not run.
pub open spec fn not_run(label: Seq<char>) -> Outcome {
    Outcome {
        label,
        ran: false,
        status: None,
        status_ok: false,
        stdout_ok: false,
        stderr_ok: false,
    }
}

/// Judges what the command `label` did. `expectation` is what the
/// specification holds for the command; where it holds nothing, the command
/// is to succeed and its output is not looked at.
pub fn judge(expectation: Option<&CommandExpectation>, label: &str, captured: &Captured) -> (r:
    CommandOutcome)
    ensures
        r@ == judged(
            match expectation {
                Some(e) => e@,
                None => default_expectation(),
            },
            label@,
            captured@,
        ),
{
    match expectation {
        Some(e) => CommandOutcome {
            label: label.to_owned(),
            ran: true,
            status: Some(captured.status),
            status_ok: status_matches(e.expected_status, captured.status),
            stdout_ok: output_matches(&e.expected_stdout, captured.stdout.as_str()),
            stderr_ok: output_matches(&e.expected_stderr, captured.stderr.as_str()),
        },
        None => CommandOutcome {
            label: label.to_owned(),
            ran: true,
            status: Some(captured.status),
            status_ok: status_matches(ExpectedStatus::Success, captured.status),
            stdout_ok: true,
            stderr_ok: true,
        },
    }
}

/// The verdict on one test file.
#[derive(Clone, Copy, Debug, PartialEq, Eq, Structural)]
pub enum Verdict {
    Passed,
    Failed,
    Ignored,
}

/// The run of one test file, as far as it has come.
pub struct RunState {
    pub spec: Specification,
    /// The labels of the commands to run, in their order.
    pub labels: Seq<Seq<char>>,
    /// The outcomes of the commands that were run.
    pub outcomes: Seq<Outcome>,
    /// Whether the command that was run last failed a check.
    pub failed: bool,
}

/// The result of the run of one test file.
pub struct RunResult {
    pub skip: bool,
    pub outcomes: Seq<Outcome>,
    pub verdict: Verdict,
}

impl RunState {
    /// The state before any command was run.
    pub open spec fn start(spec: Specification, labels: Seq<Seq<char>>) -> RunState {
        RunState { spec, labels, outcomes: Seq::empty(), failed: false }
    }

    /// What holds of every state of a run: the commands were run in their
    /// order, each under its label; all but the last met their checks, and
    /// `failed` says whether the last did not; nothing was run of a file that
    /// is skipped.
    pub open spec fn inv(self) -> bool {
        &&& self.outcomes.len() <= self.labels.len()
        &&& self.spec.skip ==> self.outcomes.len() == 0
        &&& forall|i: int|
            0 <= i < self.outcomes.len() ==> (#[trigger] self.outcomes[i]).ran
                && self.outcomes[i].label == self.labels[i]
        &&& forall|i: int|
            0 <= i < self.outcomes.len() - 1 ==> (#[trigger] self.outcomes[i]).passed()
        &&& self.failed <==> self.outcomes.len() > 0 && !self.outcomes.last().passed()
    }

    /// The index of the command to run next. There is none where the file is
    /// skipped, a command has failed, or all were run.
    pub open spec fn next(self) -> Option<int> {
        if !self.spec.skip && !self.failed && self.outcomes.len() < self.labels.len() {
            Some(self.outcomes.len() as int)
        } else {
            None
        }
    }

    /// The expectation held against the command at index `i`: the one that
    /// the specification has under the label in lower case.
    pub open spec fn expectation(self, i: int) -> Expectation {
        self.spec.expectation_of(lowercase(self.labels[i]))
    }

    /// The state after the command that was to run next did `captured`. Where
    /// no command was to run, the state stays as it is.
    pub open spec fn recorded(self, captured: CapturedView) -> RunState {
        match self.next() {
            None => self,
            Some(i) => {
                let outcome = judged(self.expectation(i), self.labels[i], captured);
                RunState {
                    outcomes: self.outcomes.push(outcome),
                    failed: !outcome.passed(),
                    ..self
                }
            },
        }
    }

    /// The outcome of the command at index `i` when the run ends here.
    pub open spec fn final_outcome(self, i: int) -> Outcome {
        if i < self.outcomes.len() {
            self.outcomes[i]
        } else {
            not_run(self.labels[i])
        }
    }

    /// The verdict when the run ends here: a skipped file is ignored; a file
    /// has passed where every command was run and none failed.
    pub open spec fn verdict(self) -> Verdict {
        if self.spec.skip {
            Verdict::Ignored
        } else if self.failed || self.outcomes.len() < self.labels.len() {
            Verdict::Failed
        } else {
            Verdict::Passed
        }
    }

    /// The result when the run ends here: one outcome for each command, those
    /// that were not run marked so.
    pub open spec fn result(self) -> RunResult {
        RunResult {
            skip: self.spec.skip,
            outcomes: Seq::new(self.labels.len(), |i: int| self.final_outcome(i)),
            verdict: self.verdict(),
        }
    }
}

/// Recording what a command did keeps the run in order.
pub proof fn lemma_recorded_inv(s: RunState, captured: CapturedView)
    requires
        s.inv(),
    ensures
        s.recorded(captured).inv(),
{
    let r = s.recorded(captured);
    if s.next() is Some {
        let i = s.outcomes.len() as int;
        assert forall|k: int| 0 <= k < r.outcomes.len() - 1 implies (#[trigger] r.outcomes[k]).passed() by {
            if k < i - 1 {
                assert(s.outcomes[k].passed());
            } else {
                assert(s.outcomes.last().passed());
            }
        }
        assert forall|k: int| 0 <= k < r.outcomes.len() implies (#[trigger] r.outcomes[k]).ran
            && r.outcomes[k].label == r.labels[k] by {
            if k < i {
                assert(s.outcomes[k].ran);
            }
        }
    }
}

/// A failed check ends the run: once the command that was to run next has
/// failed a check, no command is to run, whatever is recorded after it; every
/// later command is left unrun, and the verdict is that the file failed.
pub proof fn lemma_failure_stops_run(s: RunState, captured: CapturedView, later: CapturedView)
    requires
        s.inv(),
        s.next() is Some,
        !judged(s.expectation(s.next()->0), s.labels[s.next()->0], captured).passed(),
    ensures
        s.recorded(captured).next() is None,
        s.recorded(captured).recorded(later) == s.recorded(captured),
        s.recorded(captured).result().verdict == Verdict::Failed,
        forall|j: int|
            s.next()->0 < j < s.labels.len() ==> !(#[trigger] s.recorded(
                captured,
            ).result().outcomes[j]).ran,
{
}

/// A file has passed exactly where it is not skipped and each of its
/// commands was run and met every check.
pub proof fn lemma_passed_means_all_passed(s: RunState)
    requires
        s.inv(),
    ensures
        s.result().verdict == Verdict::Passed <==> !s.spec.skip && forall|j: int|
            0 <= j < s.labels.len() ==> (#[trigger] s.result().outcomes[j]).passed(),
{
    let r = s.result();
    if !s.spec.skip {
        if s.verdict() == Verdict::Passed {
            assert forall|j: int| 0 <= j < s.labels.len() implies (#[trigger] r.outcomes[j]).passed() by {
                if j < s.outcomes.len() - 1 {
                    assert(s.outcomes[j].passed());
                }
            }
        } else if s.failed {
            let last = s.outcomes.len() - 1;
            assert(!r.outcomes[last].passed());
        } else {
            let first = s.outcomes.len() as int;
            assert(!r.outcomes[first].passed());
        }
    }
}

/// A skipped file is ignored, and none of its commands is run.
pub proof fn lemma_skipped_is_ignored(s: RunState)
    requires
        s.inv(),
        s.spec.skip,
    ensures
        s.next() is None,
        s.result().verdict == Verdict::Ignored,
        forall|j: int| 0 <= j < s.labels.len() ==> !(#[trigger] s.result().outcomes[j]).ran,
{
}


/// The command to run next.
#[derive(Clone, Debug, PartialEq, Eq)]
pub struct Step {
    /// Its index in the list of commands of the file.
    pub index: usize,
    /// The further arguments that the specification gives it.
    pub extra_args: Vec<String>,
}

/// The result of the run of one test file.
#[derive(Clone, Debug, PartialEq, Eq)]
pub struct ExecutionResult {
    pub path: String,
    /// Whether the file was skipped.
    pub skip: bool,
    /// One outcome for each command of the file, in their order.
    pub outcomes: Vec<CommandOutcome>,
    pub verdict: Verdict,
}

impl View for ExecutionResult {
    type V = RunResult;

    open spec fn view(&self) -> RunResult {
        RunResult { skip: self.skip, outcomes: views(self.outcomes@), verdict: self.verdict }
    }
}

impl ExecutionResult {
    /// The index of the first command that was run and failed a check.
    pub fn first_failure(&self) -> (r: Option<usize>)
        ensures
            match r {
                Some(i) => {
                    &&& i < self@.outcomes.len()
                    &&& self@.outcomes[i as int].ran
                    &&& !self@.outcomes[i as int].passed()
                    &&& forall|k: int|
                        0 <= k < i ==> !(#[trigger] self@.outcomes[k]).ran
                            || self@.outcomes[k].passed()
                },
                None => forall|k: int|
                    0 <= k < self@.outcomes.len() ==> !(#[trigger] self@.outcomes[k]).ran
                        || self@.outcomes[k].passed(),
            },
    {
        let mut i: usize = 0;
        while i < self.outcomes.len()
            invariant
                i <= self.outcomes.len(),
                forall|k: int|
                    0 <= k < i ==> !(#[trigger] self@.outcomes[k]).ran || self@.outcomes[k].passed(),
            decreases self.outcomes.len() - i,
        {
            let o = &self.outcomes[i];
            if o.ran && !(o.status_ok && o.stdout_ok && o.stderr_ok) {
                return Some(i);
            }
            i += 1;
        }
        None
    }
}

/// A copy of the strings of `v`.
pub fn copy_strings(v: &Vec<String>) -> (r: Vec<String>)
    ensures
        views(r@) == views(v@),
{
    let mut r: Vec<String> = Vec::new();
    let mut i: usize = 0;
    while i < v.len()
        invariant
            i <= v.len(),
            r.len() == i,
            forall|k: int| 0 <= k < i ==> r@[k]@ == v@[k]@,
        decreases v.len() - i,
    {
        r.push(v[i].clone());
        i += 1;
    }
    assert(views(r@) =~= views(v@));
    r
}

/// The run of one test file. The driver asks which command comes next, runs
/// it, and hands back what it did, until no command is left to run.
pub struct FileRun {
    spec: TestSpecification,
    labels: Vec<String>,
    outcomes: Vec<CommandOutcome>,
    failed: bool,
}

impl View for FileRun {
    type V = RunState;

    closed spec fn view(&self) -> RunState {
        RunState {
            spec: self.spec@,
            labels: views(self.labels@),
            outcomes: views(self.outcomes@),
            failed: self.failed,
        }
    }
}

impl FileRun {
    #[verifier::type_invariant]
    spec fn in_order(self) -> bool {
        self@.inv()
    }

    /// The run of a file with the specification `spec`, whose commands have
    /// the labels `labels`, in the order in which they are to run.
    pub fn new(spec: TestSpecification, labels: Vec<String>) -> (r: FileRun)
        ensures
            r@ == RunState::start(spec@, views(labels@)),
    {
        let r = FileRun { spec, labels, outcomes: Vec::new(), failed: false };
        assert(r@.outcomes =~= Seq::<Outcome>::empty());
        r
    }

    /// The index of the command to run next, if one is to run.
    pub fn next_command(&self) -> (r: Option<usize>)
        ensures
            self@.inv(),
            match r {
                Some(i) => self@.next() == Some(i as int),
                None => self@.next() is None,
            },
    {
        proof {
            use_type_invariant(self);
        }
        if !self.spec.skip() && !self.failed && self.outcomes.len() < self.labels.len() {
            Some(self.outcomes.len())
        } else {
            None
        }
    }

    /// The command to run next, if one is to run, with the further arguments
    /// that the specification gives it.
    pub fn next_step(&self) -> (r: Option<Step>)
        ensures
            self@.inv(),
            match r {
                Some(step) => self@.next() == Some(step.index as int) && views(step.extra_args@)
                    == self@.expectation(step.index as int).extra_args,
                None => self@.next() is None,
            },
    {
        match self.next_command() {
            None => None,
            Some(index) => {
                let key = to_lowercase(self.labels[index].as_str());
                let extra_args = match self.spec.get(key.as_str()) {
                    Some(e) => copy_strings(&e.extra_args),
                    None => {
                        let none: Vec<String> = Vec::new();
                        assert(views(none@) =~= default_expectation().extra_args);
                        none
                    },
                };
                Some(Step { index, extra_args })
            },
        }
    }

    /// The run after the command that was to run next did `captured`. Where
    /// no command was to run, nothing changes.
    pub fn record(self, captured: &Captured) -> (r: FileRun)
        ensures
            self@.inv(),
            r@ == self@.recorded(captured@),
    {
        proof {
            use_type_invariant(&self);
        }
        match self.next_command() {
            None => self,
            Some(i) => {
                let ghost before = self@;
                let FileRun { spec, labels, mut outcomes, failed } = self;
                let key = to_lowercase(labels[i].as_str());
                let outcome = judge(spec.get(key.as_str()), labels[i].as_str(), captured);
                let passed = outcome.ran && outcome.status_ok && outcome.stdout_ok
                    && outcome.stderr_ok;
                proof {
                    lemma_recorded_inv(before, captured@);
                    assert(views(outcomes@.push(outcome)) =~= before.outcomes.push(outcome@));
                }
                outcomes.push(outcome);
                FileRun { spec, labels, outcomes, failed: !passed }
            },
        }
    }

    /// Ends the run of the file `path`, and gives its result. A command that
    /// was left unrun is marked so.
    pub fn finish(self, path: String) -> (r: ExecutionResult)
        ensures
            self@.inv(),
            r@ == self@.result(),
            r.path == path,
    {
        proof {
            use_type_invariant(&self);
        }
        let ghost state = self@;
        let skip = self.spec.skip();
        let verdict = if skip {
            Verdict::Ignored
        } else if self.failed || self.outcomes.len() < self.labels.len() {
            Verdict::Failed
        } else {
            Verdict::Passed
        };
        let FileRun { spec, labels, mut outcomes, failed } = self;
        let mut i: usize = outcomes.len();
        while i < labels.len()
            invariant
                i <= labels.len(),
                outcomes.len() == i,
                state.labels == views(labels@),
                state.outcomes.len() <= i,
                forall|k: int| 0 <= k < i ==> (#[trigger] outcomes@[k])@ == state.final_outcome(k),
            decreases labels.len() - i,
        {
            outcomes.push(
                CommandOutcome {
                    label: labels[i].clone(),
                    ran: false,
                    status: None,
                    status_ok: false,
                    stdout_ok: false,
                    stderr_ok: false,
                },
            );
            i += 1;
        }
        let r = ExecutionResult { path, skip, outcomes, verdict };
        assert(r@.outcomes =~= state.result().outcomes);
        r
    }
}

/// How many files passed, failed and were ignored.
#[derive(Clone, Copy, Debug, PartialEq, Eq, Structural)]
pub struct Summary {
    pub passed: usize,
    pub failed: usize,
    pub ignored: usize,
}

/// The verdicts of `results`, in their order.
pub open spec fn verdicts_of(results: Seq<ExecutionResult>) -> Seq<Verdict> {
    Seq::new(results.len(), |i: int| results[i].verdict)
}

/// How often the verdict `v` occurs in `vs`.
pub open spec fn count_of(vs: Seq<Verdict>, v: Verdict) -> nat {
    vs.to_multiset().count(v)
}

/// The counts do not depend on the order in which the files ended: the same
/// verdicts in another order give the same counts.
pub proof fn lemma_counts_any_order(a: Seq<Verdict>, b: Seq<Verdict>, v: Verdict)
    requires
        a.to_multiset() == b.to_multiset(),
    ensures
        count_of(a, v) == count_of(b, v),
{
}

/// Counts the files that passed, failed and were ignored.
pub fn tally(results: &[ExecutionResult]) -> (s: Summary)
    ensures
        s.passed == count_of(verdicts_of(results@), Verdict::Passed),
        s.failed == count_of(verdicts_of(results@), Verdict::Failed),
        s.ignored == count_of(verdicts_of(results@), Verdict::Ignored),
        s.passed + s.failed + s.ignored == results.len(),
{
    let ghost vs = verdicts_of(results@);
    let mut s = Summary { passed: 0, failed: 0, ignored: 0 };
    let mut i: usize = 0;
    proof {
        let none = vs.take(0).to_multiset();
        vs.take(0).to_multiset_ensures();
        vstd::multiset::axiom_count_le_len(none, Verdict::Passed);
        vstd::multiset::axiom_count_le_len(none, Verdict::Failed);
        vstd::multiset::axiom_count_le_len(none, Verdict::Ignored);
    }
    while i < results.len()
        invariant
            i <= results.len(),
            vs == verdicts_of(results@),
            s.passed == count_of(vs.take(i as int), Verdict::Passed),
            s.failed == count_of(vs.take(i as int), Verdict::Failed),
            s.ignored == count_of(vs.take(i as int), Verdict::Ignored),
            s.passed + s.failed + s.ignored == i,
        decreases results.len() - i,
    {
        proof {
            let counted = vs.take(i as int);
            assert(vs.take(i + 1) =~= counted.push(vs[i as int]));
            counted.to_multiset_ensures();
            assert(vs.take(i + 1).to_multiset() =~= counted.to_multiset().insert(vs[i as int]));
            vstd::multiset::lemma_insert_increases_count_by_1(counted.to_multiset(), vs[i as int]);
            vstd::multiset::lemma_insert_other_elements_unchanged(
                counted.to_multiset(),
                vs[i as int],
                Verdict::Passed,
            );
            vstd::multiset::lemma_insert_other_elements_unchanged(
                counted.to_multiset(),
                vs[i as int],
                Verdict::Failed,
            );
            vstd::multiset::lemma_insert_other_elements_unchanged(
                counted.to_multiset(),
                vs[i as int],
                Verdict::Ignored,
            );
        }
        match results[i].verdict {
            Verdict::Passed => {
                s.passed += 1;
            },
            Verdict::Failed => {
                s.failed += 1;
            },
            Verdict::Ignored => {
                s.ignored += 1;
            },
        }
        i += 1;
    }
    assert(vs.take(results.len() as int) =~= vs);
    s
}

} // verus!

//! What a test specification holds: for each labelled command the status and
//! the output that are expected of it.

use vstd::prelude::*;
use crate::pattern::{Pattern, PatternLine};
use crate::text::{str_eq, views};

verus! {

/// The exit status expected of a command.
#[derive(Clone, Copy, Debug, PartialEq, Eq, Structural)]
pub enum ExpectedStatus {
    /// The command ends normally with code 0.
    Success,
    /// The command ends normally with another code than 0.
    Error,
    /// The command is ended by a signal.
    Signal,
    /// The command ends normally with exactly this code.
    ExitCode(i32),
}

/// The checks that belong to one labelled command.
#[derive(Clone, Debug, PartialEq, Eq)]
pub struct CommandExpectation {
    /// Further arguments for the command, in the order in which they were
    /// given.
    pub extra_args: Vec<String>,
    pub expected_status: ExpectedStatus,
    /// The lines expected on standard output. `None` asks for nothing;
    /// `Some` of no pattern asks for no output at all.
    pub expected_stdout: Option<Vec<PatternLine>>,
    /// The same for standard error.
    pub expected_stderr: Option<Vec<PatternLine>>,
}

/// What a `CommandExpectation` stands for.
pub struct Expectation {
    pub extra_args: Seq<Seq<char>>,
    pub status: ExpectedStatus,
    pub stdout: Option<Seq<Pattern>>,
    pub stderr: Option<Seq<Pattern>>,
}

/// The patterns that an expected output stands for.
pub open spec fn output_view(p: Option<Vec<PatternLine>>) -> Option<Seq<Pattern>> {
    match p {
        Some(v) => Some(views(v@)),
        None => None,
    }
}

impl View for CommandExpectation {
    type V = Expectation;

    open spec fn view(&self) -> Expectation {
        Expectation {
            extra_args: views(self.extra_args@),
            status: self.expected_status,
            stdout: output_view(self.expected_stdout),
            stderr: output_view(self.expected_stderr),
        }
    }
}

/// The expectation of a command of which the specification says nothing:
/// success, and no check of its output.
pub open spec fn default_expectation() -> Expectation {
    Expectation {
        extra_args: Seq::empty(),
        status: ExpectedStatus::Success,
        stdout: None,
        stderr: None,
    }
}

impl CommandExpectation {
    /// The expectation of a command of which nothing is said.
    pub fn new() -> (r: CommandExpectation)
        ensures
            r@ == default_expectation(),
    {
        let r = CommandExpectation {
            extra_args: Vec::new(),
            expected_status: ExpectedStatus::Success,
            expected_stdout: None,
            expected_stderr: None,
        };
        assert(r@.extra_args =~= Seq::<Seq<char>>::empty());
        r
    }
}

/// A command label with the checks of that command.
#[derive(Clone, Debug, PartialEq, Eq)]
pub struct Command {
    /// The label, in lower case.
    pub label: String,
    pub expectation: CommandExpectation,
}

/// What a `Command` stands for.
pub struct CommandView {
    pub label: Seq<char>,
    pub expectation: Expectation,
}

impl View for Command {
    type V = CommandView;

    open spec fn view(&self) -> CommandView {
        CommandView { label: self.label@, expectation: self.expectation@ }
    }
}

/// What a `TestSpecification` stands for.
pub struct Specification {
    pub skip: bool,
    pub commands: Seq<CommandView>,
}

impl Specification {
    /// A specification without commands.
    pub open spec fn empty(skip: bool) -> Specification {
        Specification { skip, commands: Seq::empty() }
    }

    /// No label occurs twice.
    pub open spec fn wf(self) -> bool {
        forall|i: int, j: int|
            0 <= i < j < self.commands.len() ==> (#[trigger] self.commands[i]).label != (
            #[trigger] self.commands[j]).label
    }

    /// Whether a command has the label `label`.
    pub open spec fn has_label(self, label: Seq<char>) -> bool {
        exists|i: int| 0 <= i < self.commands.len() && (#[trigger] self.commands[i]).label == label
    }

    /// The expectation of the command with the label `label`; of a label that
    /// the specification does not hold, the default expectation.
    pub open spec fn expectation_of(self, label: Seq<char>) -> Expectation {
        if self.has_label(label) {
            let i = choose|i: int|
                0 <= i < self.commands.len() && (#[trigger] self.commands[i]).label == label;
            self.commands[i].expectation
        } else {
            default_expectation()
        }
    }

    /// This specification with one more command at its end.
    pub open spec fn with_command(self, label: Seq<char>, expectation: Expectation) -> Specification {
        Specification {
            skip: self.skip,
            commands: self.commands.push(CommandView { label, expectation }),
        }
    }

    /// This specification, marked to be skipped.
    pub open spec fn skipped(self) -> Specification {
        Specification { skip: true, commands: self.commands }
    }
}

/// The parsed test specification of one source file: whether the file is to
/// be skipped, and the commands with their checks, each label once, in the
/// order in which the labels were given.
#[derive(Debug, PartialEq, Eq)]
pub struct TestSpecification {
    skip: bool,
    commands: Vec<Command>,
}

impl View for TestSpecification {
    type V = Specification;

    closed spec fn view(&self) -> Specification {
        Specification { skip: self.skip, commands: views(self.commands@) }
    }
}

impl TestSpecification {
    #[verifier::type_invariant]
    spec fn labels_differ(self) -> bool {
        self@.wf()
    }

    /// A specification without commands.
    pub fn new(skip: bool) -> (r: TestSpecification)
        ensures
            r@ == Specification::empty(skip),
    {
        let r = TestSpecification { skip, commands: Vec::new() };
        assert(r@.commands =~= Seq::<CommandView>::empty());
        r
    }

    /// Whether the file is to be skipped.
    pub fn skip(&self) -> (r: bool)
        ensures
            r == self@.skip,
            self@.wf(),
    {
        proof {
            use_type_invariant(self);
        }
        self.skip
    }

    /// The number of commands.
    pub fn len(&self) -> (r: usize)
        ensures
            r == self@.commands.len(),
    {
        self.commands.len()
    }

    /// The commands, in the order in which their labels were given.
    pub fn commands(&self) -> (r: &[Command])
        ensures
            views(r@) == self@.commands,
            self@.wf(),
    {
        proof {
            use_type_invariant(self);
        }
        self.commands.as_slice()
    }

    /// The command at index `i`.
    pub fn command(&self, i: usize) -> (r: &Command)
        requires
            i < self@.commands.len(),
        ensures
            r@ == self@.commands[i as int],
    {
        &self.commands[i]
    }

    /// The index of the command with the label `label`, compared as it is.
    pub fn position(&self, label: &str) -> (r: Option<usize>)
        ensures
            self@.wf(),
            match r {
                Some(i) => i < self@.commands.len() && self@.commands[i as int].label == label@,
                None => !self@.has_label(label@),
            },
    {
        proof {
            use_type_invariant(self);
        }
        let mut i: usize = 0;
        while i < self.commands.len()
            invariant
                i <= self.commands.len(),
                self@.wf(),
                forall|k: int| 0 <= k < i ==> (#[trigger] self@.commands[k]).label != label@,
            decreases self.commands.len() - i,
        {
            if str_eq(self.commands[i].label.as_str(), label) {
                return Some(i);
            }
            i += 1;
        }
        None
    }

    /// The checks of the command with the label `label`, if there is one.
    pub fn get(&self, label: &str) -> (r: Option<&CommandExpectation>)
        ensures
            self@.wf(),
            r is Some == self@.has_label(label@),
            r matches Some(e) ==> e@ == self@.expectation_of(label@),
    {
        proof {
            use_type_invariant(self);
        }
        match self.position(label) {
            Some(i) => {
                assert(self@.has_label(label@));
                let ghost k = choose|k: int|
                    0 <= k < self@.commands.len() && (#[trigger] self@.commands[k]).label
                        == label@;
                assert(k == i) by {
                    if k < i {
                        assert(self@.commands[k].label != self@.commands[i as int].label);
                    } else if i < k {
                        assert(self@.commands[i as int].label != self@.commands[k].label);
                    }
                }
                Some(&self.commands[i].expectation)
            },
            None => None,
        }
    }

    /// Marks the file to be skipped.
    pub fn set_skip(&mut self)
        ensures
            final(self)@ == old(self)@.skipped(),
    {
        proof {
            use_type_invariant(&*self);
        }
        self.skip = true;
    }

    /// Adds a command at the end, unless one has the label already. Tells
    /// whether the command was added.
    pub fn insert(&mut self, label: String, expectation: CommandExpectation) -> (added: bool)
        ensures
            added == !old(self)@.has_label(label@),
            added ==> final(self)@ == old(self)@.with_command(label@, expectation@),
            !added ==> final(self)@ == old(self)@,
    {
        proof {
            use_type_invariant(&*self);
        }
        match self.position(label.as_str()) {
            Some(_) => false,
            None => {
                let ghost before = self@;
                let command = Command { label, expectation };
                let mut taken = TestSpecification::new(false);
                std::mem::swap(self, &mut taken);
                let TestSpecification { skip, mut commands } = taken;
                commands.push(command);
                let ghost after = Specification { skip, commands: views(commands@) };
                assert(after.commands =~= before.commands.push(command@));
                assert(after.wf()) by {
                    assert forall|i: int, j: int| 0 <= i < j < after.commands.len() implies (
                    #[trigger] after.commands[i]).label != (#[trigger] after.commands[j]).label by {
                        if j < before.commands.len() {
                            assert(before.commands[i].label != before.commands[j].label);
                        } else {
                            assert(before.commands[i].label != label@);
                        }
                    }
                }
                *self = TestSpecification { skip, commands };
                true
            },
        }
    }
}

} // verus!

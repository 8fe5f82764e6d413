//! The shell: a registry of commands and the running of a pipeline of them.

use vstd::prelude::*;
use vstd::hash_map::StringHashMap;
use crate::lex::{tokens, Lexer, PIPE};
use crate::parse;
use crate::parse::{parse, separators, split, Cmd};
use crate::text::{join, joined};

verus! {

/// Why a pipeline failed.
#[derive(Eq, PartialEq, Clone, Debug)]
pub enum Error {
    /// A stage holds no word at all.
    EmptyCommand,
    /// The first word of a stage names no registered command.
    UnknownCommand(String),
    /// The line could not be cut into stages, for the reason it holds.
    ParseError(parse::Error),
    /// What the stages wrote to the error sink, in order.
    CommandErrors(Vec<String>),
}

/// What an [`Error`] says, as plain text.
pub enum Failure {
    EmptyCommand,
    UnknownCommand(Seq<char>),
    ParseError(parse::Error),
    CommandErrors(Seq<Seq<char>>),
}

impl View for Error {
    type V = Failure;

    open spec fn view(&self) -> Failure {
        match self {
            Error::EmptyCommand => Failure::EmptyCommand,
            Error::UnknownCommand(name) => Failure::UnknownCommand(name@),
            Error::ParseError(error) => Failure::ParseError(*error),
            Error::CommandErrors(lines) => Failure::CommandErrors(lines.deep_view()),
        }
    }
}

/// A short description of the kind of failure.
pub open spec fn description_of(failure: Failure) -> Seq<char> {
    match failure {
        Failure::EmptyCommand => "Empty command"@,
        Failure::UnknownCommand(_) => "Unknown command"@,
        Failure::ParseError(_) => "Parse error"@,
        Failure::CommandErrors(_) => "Command error"@,
    }
}

/// The failure as a message for the user: an unknown command is named, and
/// the error lines of the stages are joined by a bar between spaces.
pub open spec fn message_of(failure: Failure) -> Seq<char> {
    match failure {
        Failure::EmptyCommand => "Empty command"@,
        Failure::UnknownCommand(name) => "Unknown command \""@ + name + "\"."@,
        Failure::ParseError(_) => "Parse error"@,
        Failure::CommandErrors(lines) => joined(lines, " | "@),
    }
}

impl Error {
    /// A short description of the kind of error.
    pub fn description(&self) -> (text: &'static str)
        ensures
            text@ == description_of(self@),
    {
        match self {
            Error::EmptyCommand => "Empty command",
            Error::UnknownCommand(_) => "Unknown command",
            Error::ParseError(_) => "Parse error",
            Error::CommandErrors(_) => "Command error",
        }
    }

    /// The error as a message for the user.
    pub fn to_string(&self) -> (text: String)
        ensures
            text@ == message_of(self@),
    {
        match self {
            Error::EmptyCommand => String::from_str(self.description()),
            Error::ParseError(_) => String::from_str(self.description()),
            Error::UnknownCommand(name) => {
                let mut text = String::from_str("Unknown command \"");
                text.append(name.as_str());
                text.append("\".");
                text
            },
            Error::CommandErrors(lines) => join(lines.as_slice(), " | "),
        }
    }
}

/// What one run of a command writes: the lines for its output sink and the
/// lines for the error sink.
pub struct Emission {
    pub out: Seq<Seq<char>>,
    pub err: Seq<Seq<char>>,
}

/// An operation that a stage of a pipeline can run.
///
/// A command is given the words of its stage, the first being its own name,
/// and every line that the stage before it wrote. It appends lines to the
/// output sink, which the next stage reads, and to the error sink, which all
/// stages share. It can only add to a sink: what is in it stays.
pub trait Command {
    /// What the command writes when run on `argv` with the input `stdin`,
    /// where that depends on those two alone. It is `None` where it depends
    /// on anything else, as it does for a command that asks a store: of such
    /// a command nothing is promised.
    open spec fn emits(&self, argv: Seq<Seq<char>>, stdin: Seq<Seq<char>>) -> Option<Emission> {
        None
    }

    /// Runs the command.
    fn run(
        &self,
        argv: &Vec<String>,
        stdin: Vec<String>,
        stdout: &mut Vec<String>,
        stderr: &mut Vec<String>,
    )
        requires
            argv.len() > 0,
        ensures
            old(stdout).deep_view().is_prefix_of(final(stdout).deep_view()),
            old(stderr).deep_view().is_prefix_of(final(stderr).deep_view()),
            self.emits(argv.deep_view(), stdin.deep_view()) matches Some(wrote) ==> {
                &&& final(stdout).deep_view() == old(stdout).deep_view() + wrote.out
                &&& final(stderr).deep_view() == old(stderr).deep_view() + wrote.err
            },
    ;
}

/// Why `stage` cannot run with the commands `cmds`, if it cannot.
pub open spec fn stage_fault<C>(cmds: Map<Seq<char>, C>, stage: Seq<Seq<char>>) -> Option<
    Failure,
> {
    if stage.len() == 0 {
        Some(Failure::EmptyCommand)
    } else if !cmds.contains_key(stage[0]) {
        Some(Failure::UnknownCommand(stage[0]))
    } else {
        None
    }
}

/// Whether the first word of `stage` is the name under which `cmds` holds `command`.
pub open spec fn names<C>(cmds: Map<Seq<char>, C>, stage: Seq<Seq<char>>, command: C) -> bool {
    stage.len() > 0 && cmds.contains_key(stage[0]) && cmds[stage[0]] == command
}

/// The fault of the first stage at or after `from` that has one.
pub open spec fn fault_from<C>(
    cmds: Map<Seq<char>, C>,
    stages: Seq<Seq<Seq<char>>>,
    from: int,
) -> Option<Failure>
    decreases stages.len() - from,
{
    if from < 0 || from >= stages.len() {
        None
    } else {
        match stage_fault(cmds, stages[from]) {
            Some(fault) => Some(fault),
            None => fault_from(cmds, stages, from + 1),
        }
    }
}

/// What the first `n` stages leave behind: the output of stage `n`, which is
/// the input of the next, and the error lines of all of them in stage order.
/// The first stage reads an empty input. It is `None` where one of the stages
/// runs a command of which nothing is promised.
pub open spec fn flow<C: Command>(
    cmds: Map<Seq<char>, C>,
    stages: Seq<Seq<Seq<char>>>,
    n: nat,
) -> Option<Emission>
    decreases n,
{
    if n == 0 {
        Some(Emission { out: Seq::empty(), err: Seq::empty() })
    } else {
        match flow(cmds, stages, (n - 1) as nat) {
            Some(before) => {
                let stage = stages[n - 1];
                match cmds[stage[0]].emits(stage, before.out) {
                    Some(wrote) => Some(Emission { out: wrote.out, err: before.err + wrote.err }),
                    None => None,
                }
            },
            None => None,
        }
    }
}

/// What stage `k` writes when the pipeline runs: what its command writes on
/// what the stages before it left.
pub open spec fn stage_writes<C: Command>(
    cmds: Map<Seq<char>, C>,
    stages: Seq<Seq<Seq<char>>>,
    k: nat,
) -> Option<Emission> {
    match flow(cmds, stages, k) {
        Some(before) => cmds[stages[k as int][0]].emits(stages[k as int], before.out),
        None => None,
    }
}

/// The result of a pipeline whose last stage wrote `out` while the stages
/// together wrote `err` to the error sink: any error line makes it a failure
/// that carries the error lines and drops the output.
pub open spec fn verdict(out: Seq<Seq<char>>, err: Seq<Seq<char>>) -> Result<
    Seq<Seq<char>>,
    Failure,
> {
    if err.len() > 0 {
        Err(Failure::CommandErrors(err))
    } else {
        Ok(out)
    }
}

/// The result of running `stages` with the commands `cmds`. If any stage is
/// empty or names no command, nothing runs and the first such fault is the
/// result. It is `None` where the stages are in order and one of them runs a
/// command of which nothing is promised.
pub open spec fn pipeline<C: Command>(
    cmds: Map<Seq<char>, C>,
    stages: Seq<Seq<Seq<char>>>,
) -> Option<Result<Seq<Seq<char>>, Failure>> {
    match fault_from(cmds, stages, 0) {
        Some(fault) => Some(Err(fault)),
        None => match flow(cmds, stages, stages.len()) {
            Some(end) => Some(verdict(end.out, end.err)),
            None => None,
        },
    }
}

/// Whether `result` is one that a pipeline can end with once its stages have
/// run: its output, or a failure that carries at least one error line.
pub open spec fn ran(result: Result<Seq<Seq<char>>, Failure>) -> bool {
    match result {
        Ok(_) => true,
        Err(Failure::CommandErrors(lines)) => lines.len() > 0,
        Err(_) => false,
    }
}

/// The error lines that `result` carries, if it carries any.
pub open spec fn error_lines(result: Result<Seq<Seq<char>>, Failure>) -> Seq<Seq<char>> {
    match result {
        Err(Failure::CommandErrors(lines)) => lines,
        _ => Seq::empty(),
    }
}

/// A sequence begins with each sequence that it is made longer from.
pub proof fn lemma_prefix_of_sum<A>(head: Seq<A>, tail: Seq<A>)
    ensures
        head.is_prefix_of(head + tail),
{
    assert((head + tail).subrange(0, head.len() as int) =~= head);
}

/// What begins the beginning of a sequence begins the sequence.
pub proof fn lemma_prefix_of_prefix<A>(first: Seq<A>, second: Seq<A>, third: Seq<A>)
    requires
        first.is_prefix_of(second),
        second.is_prefix_of(third),
    ensures
        first.is_prefix_of(third),
{
    assert(third.subrange(0, first.len() as int) =~= second.subrange(0, first.len() as int));
}

/// Error lines are never lost: what the first `m` stages wrote to the error
/// sink begins what is there after any later stage.
pub proof fn lemma_errors_stay<C: Command>(
    cmds: Map<Seq<char>, C>,
    stages: Seq<Seq<Seq<char>>>,
    m: nat,
    n: nat,
)
    requires
        m <= n,
        flow(cmds, stages, n) is Some,
    ensures
        flow(cmds, stages, m) matches Some(early) && early.err.is_prefix_of(
            flow(cmds, stages, n)->0.err,
        ),
    decreases n,
{
    let end = flow(cmds, stages, n)->0;
    if m == n {
        lemma_prefix_of_sum(end.err, Seq::empty());
        assert(end.err + Seq::<Seq<char>>::empty() =~= end.err);
    } else {
        let before = flow(cmds, stages, (n - 1) as nat)->0;
        lemma_errors_stay(cmds, stages, m, (n - 1) as nat);
        lemma_prefix_of_sum(before.err, stage_writes(cmds, stages, (n - 1) as nat)->0.err);
        lemma_prefix_of_prefix(flow(cmds, stages, m)->0.err, before.err, end.err);
    }
}

/// A stage that writes to the error sink makes the pipeline fail, whatever
/// it and the other stages write to their outputs: the failure carries every
/// error line, and the output of the last stage is dropped.
pub proof fn lemma_error_fails_pipeline<C: Command>(
    cmds: Map<Seq<char>, C>,
    stages: Seq<Seq<Seq<char>>>,
    k: nat,
)
    requires
        fault_from(cmds, stages, 0) is None,
        k < stages.len(),
        flow(cmds, stages, stages.len()) is Some,
        stage_writes(cmds, stages, k) matches Some(wrote) && wrote.err.len() > 0,
    ensures
        pipeline(cmds, stages) == Some(
            Err::<Seq<Seq<char>>, Failure>(
                Failure::CommandErrors(flow(cmds, stages, stages.len())->0.err),
            ),
        ),
        flow(cmds, stages, k + 1) matches Some(after) && after.err.is_prefix_of(
            flow(cmds, stages, stages.len())->0.err,
        ) && after.err.len() > 0,
{
    lemma_errors_stay(cmds, stages, k + 1, stages.len());
    lemma_errors_stay(cmds, stages, k, k + 1);
}

/// Where one stage alone writes to the error sink, the error lines of the
/// pipeline are exactly the lines of that stage.
pub proof fn lemma_only_error<C: Command>(
    cmds: Map<Seq<char>, C>,
    stages: Seq<Seq<Seq<char>>>,
    k: nat,
    n: nat,
)
    requires
        k < stages.len(),
        n <= stages.len(),
        flow(cmds, stages, n) is Some,
        forall|j: nat|
            j < stages.len() && j != k ==> (#[trigger] stage_writes(cmds, stages, j) matches Some(
                wrote,
            ) ==> wrote.err.len() == 0),
    ensures
        flow(cmds, stages, n)->0.err == if n > k {
            stage_writes(cmds, stages, k)->0.err
        } else {
            Seq::empty()
        },
    decreases n,
{
    if n > 0 {
        let j = (n - 1) as nat;
        lemma_only_error(cmds, stages, k, j);
        let before = flow(cmds, stages, j)->0;
        let wrote = stage_writes(cmds, stages, j)->0;
        if j == k {
            assert(before.err + wrote.err =~= wrote.err);
        } else {
            assert(wrote.err =~= Seq::<Seq<char>>::empty());
            assert(before.err + wrote.err =~= before.err);
        }
    }
}

/// A result of the shell, as plain text.
pub open spec fn outcome(result: Result<Vec<String>, Error>) -> Result<Seq<Seq<char>>, Failure> {
    match result {
        Ok(lines) => Ok(lines.deep_view()),
        Err(error) => Err(error@),
    }
}

/// Decides the result of a pipeline from what its last stage wrote and what
/// reached the error sink.
pub fn conclude(stdout: Vec<String>, stderr: Vec<String>) -> (result: Result<Vec<String>, Error>)
    ensures
        outcome(result) == verdict(stdout.deep_view(), stderr.deep_view()),
{
    if stderr.len() != 0 {
        Err(Error::CommandErrors(stderr))
    } else {
        Ok(stdout)
    }
}

/// The grouped stages, as plain text.
pub open spec fn grouping(result: Result<Vec<Vec<String>>, Error>) -> Result<
    Seq<Seq<Seq<char>>>,
    Failure,
> {
    match result {
        Ok(argvs) => Ok(argvs.deep_view()),
        Err(error) => Err(error@),
    }
}

/// The stages of `line`: its tokens, cut with the pipe for the separator,
/// grouped at each separator. Where the line cannot be cut, the failure
/// carries the lexer's error.
pub open spec fn stages_of(line: Seq<char>) -> Result<Seq<Seq<Seq<char>>>, Failure> {
    match tokens(line, PIPE) {
        Ok(all) => Ok(split(all)),
        Err(error) => Err(Failure::ParseError(parse::Error::LexError(error))),
    }
}

/// Copies the words of `cmd` into strings of their own.
fn owned_words(cmd: &Cmd<'_>) -> (argv: Vec<String>)
    ensures
        argv.deep_view() == cmd@,
{
    let mut argv: Vec<String> = Vec::new();
    let mut i: usize = 0;
    while i < cmd.0.len()
        invariant
            i <= cmd.0.len(),
            argv.len() == i,
            forall|k: int| 0 <= k < i ==> argv[k]@ == cmd.0[k]@,
        decreases cmd.0.len() - i,
    {
        argv.push(String::from_str(cmd.0[i]));
        i += 1;
    }
    assert(argv.deep_view() =~= cmd@);
    argv
}

/// Cuts `line` into stages: a pipe outside quotes separates two stages,
/// whether or not blanks stand around it, and there is one stage more than
/// there are such pipes.
pub fn split_str(line: &str) -> (result: Result<Vec<Vec<String>>, Error>)
    ensures
        grouping(result) == stages_of(line@),
        tokens(line@, PIPE) matches Ok(all) ==> result matches Ok(argvs) && argvs.len()
            == separators(all) + 1,
{
    match parse(Lexer::new(line)) {
        Ok(cmds) => {
            let mut argvs: Vec<Vec<String>> = Vec::new();
            let mut i: usize = 0;
            while i < cmds.len()
                invariant
                    i <= cmds.len(),
                    argvs.len() == i,
                    forall|k: int| 0 <= k < i ==> argvs[k].deep_view() == cmds[k]@,
                decreases cmds.len() - i,
            {
                argvs.push(owned_words(&cmds[i]));
                i += 1;
            }
            assert(argvs.deep_view() =~= cmds.deep_view());
            Ok(argvs)
        },
        Err(error) => Err(Error::ParseError(error)),
    }
}

/// The result of running `stages` with the commands `cmds`, where `stages`
/// may be the failure to cut a line. It is `None` where the stages are in
/// order and one of them runs a command of which nothing is promised.
pub open spec fn result_of<C: Command>(
    cmds: Map<Seq<char>, C>,
    stages: Result<Seq<Seq<Seq<char>>>, Failure>,
) -> Option<Result<Seq<Seq<char>>, Failure>> {
    match stages {
        Err(failure) => Some(Err(failure)),
        Ok(stages) => pipeline(cmds, stages),
    }
}

/// Whether `stages` are in order: the line could be cut, and each stage names
/// one of the commands `cmds`.
pub open spec fn in_order<C>(
    cmds: Map<Seq<char>, C>,
    stages: Result<Seq<Seq<Seq<char>>>, Failure>,
) -> bool {
    match stages {
        Err(_) => false,
        Ok(stages) => fault_from(cmds, stages, 0) is None,
    }
}

/// A shell: the commands that a pipeline may name.
#[verifier::reject_recursive_types(C)]
pub struct Sh<C> {
    pub cmds: StringHashMap<C>,
}

impl<C> Default for Sh<C> {
    /// A shell that knows no command.
    fn default() -> (sh: Sh<C>)
        ensures
            sh.cmds@ == Map::<Seq<char>, C>::empty(),
    {
        Sh { cmds: StringHashMap::new() }
    }
}

impl<C> Sh<C> {
    /// Creates a shell that knows no command.
    pub fn new() -> (sh: Sh<C>)
        ensures
            sh.cmds@ == Map::<Seq<char>, C>::empty(),
    {
        Default::default()
    }

    /// Registers `command` under `name`, in place of any command that had the name.
    pub fn register(&mut self, name: String, command: C)
        ensures
            final(self).cmds@ == old(self).cmds@.insert(name@, command),
    {
        self.cmds.insert(name, command);
    }

    /// Looks up the command registered under exactly `name`.
    pub fn lookup(&self, name: &str) -> (found: Option<&C>)
        ensures
            match found {
                Some(command) => self.cmds@.contains_key(name@) && *command == self.cmds@[name@],
                None => !self.cmds@.contains_key(name@),
            },
    {
        self.cmds.get(name)
    }

    /// Checks every stage in order and finds its command. Fails with the fault
    /// of the first stage that is empty or names no command.
    pub fn resolve(&self, argvs: &Vec<Vec<String>>) -> (result: Result<Vec<&C>, Error>)
        ensures
            match result {
                Ok(commands) => {
                    &&& fault_from(self.cmds@, argvs.deep_view(), 0) is None
                    &&& commands.len() == argvs.len()
                    &&& forall|i: int|
                        0 <= i < argvs.len() ==> #[trigger] names(
                            self.cmds@,
                            argvs[i].deep_view(),
                            *commands[i],
                        )
                },
                Err(error) => fault_from(self.cmds@, argvs.deep_view(), 0) == Some(error@),
            },
    {
        let ghost stages = argvs.deep_view();
        let mut commands: Vec<&C> = Vec::new();
        let mut i: usize = 0;
        while i < argvs.len()
            invariant
                i <= argvs.len(),
                stages == argvs.deep_view(),
                commands.len() == i,
                fault_from(self.cmds@, stages, 0) == fault_from(self.cmds@, stages, i as int),
                forall|j: int|
                    0 <= j < i ==> #[trigger] names(self.cmds@, argvs[j].deep_view(), *commands[j]),
            decreases argvs.len() - i,
        {
            let argv = &argvs[i];
            assert(stages[i as int] == argv.deep_view());
            if argv.len() == 0 {
                return Err(Error::EmptyCommand);
            }
            assert(stages[i as int][0] == argv[0]@);
            match self.cmds.get(argv[0].as_str()) {
                Some(command) => {
                    commands.push(command);
                },
                None => {
                    return Err(Error::UnknownCommand(argv[0].clone()));
                },
            }
            i += 1;
        }
        Ok(commands)
    }
}

impl<C: Command> Sh<C> {
    /// Runs the stages `argvs` as one pipeline.
    ///
    /// Every stage is checked before any command runs. Then each stage runs
    /// in turn on what the stage before it wrote, the first on an empty input,
    /// and all of them write to one error sink. Whatever a command does of
    /// which nothing else is promised, the error lines that the stages before
    /// it wrote are in the result.
    pub fn run_cmds(&self, argvs: Vec<Vec<String>>) -> (result: Result<Vec<String>, Error>)
        ensures
            pipeline(self.cmds@, argvs.deep_view()) matches Some(expected) ==> outcome(result)
                == expected,
            match fault_from(self.cmds@, argvs.deep_view(), 0) {
                Some(fault) => outcome(result) == Err::<Seq<Seq<char>>, Failure>(fault),
                None => ran(outcome(result)),
            },
            fault_from(self.cmds@, argvs.deep_view(), 0) is None ==> forall|n: nat|
                n <= argvs.len() ==> (#[trigger] flow(
                    self.cmds@,
                    argvs.deep_view(),
                    n,
                ) matches Some(so_far) ==> so_far.err.is_prefix_of(
                    error_lines(outcome(result)),
                )),
    {
        let commands = match self.resolve(&argvs) {
            Ok(commands) => commands,
            Err(error) => {
                return Err(error);
            },
        };
        let ghost stages = argvs.deep_view();
        let mut stdin: Vec<String> = Vec::new();
        let mut stderr: Vec<String> = Vec::new();
        let mut i: usize = 0;
        assert(stdin.deep_view() =~= Seq::empty());
        assert(stderr.deep_view() =~= Seq::empty());
        proof {
            lemma_prefix_of_sum(Seq::<Seq<char>>::empty(), stderr.deep_view());
        }
        while i < argvs.len()
            invariant
                i <= argvs.len(),
                stages == argvs.deep_view(),
                commands.len() == argvs.len(),
                forall|j: int|
                    0 <= j < argvs.len() ==> #[trigger] names(
                        self.cmds@,
                        argvs[j].deep_view(),
                        *commands[j],
                    ),
                flow(self.cmds@, stages, i as nat) matches Some(so_far) ==> {
                    &&& stdin.deep_view() == so_far.out
                    &&& stderr.deep_view() == so_far.err
                },
                forall|n: nat|
                    n <= i ==> (#[trigger] flow(self.cmds@, stages, n) matches Some(so_far)
                        ==> so_far.err.is_prefix_of(stderr.deep_view())),
            decreases argvs.len() - i,
        {
            let ghost errors = stderr.deep_view();
            assert(names(self.cmds@, argvs[i as int].deep_view(), *commands[i as int]));
            assert(stages[i as int] == argvs[i as int].deep_view());
            let mut stdout: Vec<String> = Vec::new();
            assert(stdout.deep_view() =~= Seq::empty());
            commands[i].run(&argvs[i], stdin, &mut stdout, &mut stderr);
            proof {
                let next = flow(self.cmds@, stages, (i + 1) as nat);
                if next is Some {
                    assert(stdout.deep_view() =~= next->0.out);
                    lemma_prefix_of_sum(stderr.deep_view(), Seq::empty());
                    assert(stderr.deep_view() + Seq::<Seq<char>>::empty() =~= stderr.deep_view());
                }
                assert forall|n: nat| n <= i + 1 implies (#[trigger] flow(
                    self.cmds@,
                    stages,
                    n,
                ) matches Some(so_far) ==> so_far.err.is_prefix_of(stderr.deep_view())) by {
                    if n <= i && flow(self.cmds@, stages, n) is Some {
                        lemma_prefix_of_prefix(
                            flow(self.cmds@, stages, n)->0.err,
                            errors,
                            stderr.deep_view(),
                        );
                    }
                }
            }
            stdin = stdout;
            i += 1;
        }
        conclude(stdin, stderr)
    }

    /// Cuts the line `source` into stages and runs them. Where the line cannot
    /// be cut, nothing runs and the result carries the lexer's error.
    pub fn run_str(&self, source: &str) -> (result: Result<Vec<String>, Error>)
        ensures
            result_of(self.cmds@, stages_of(source@)) matches Some(expected) ==> outcome(result)
                == expected,
            in_order(self.cmds@, stages_of(source@)) ==> ran(outcome(result)),
            in_order(self.cmds@, stages_of(source@)) ==> forall|n: nat|
                n <= stages_of(source@)->Ok_0.len() ==> (#[trigger] flow(
                    self.cmds@,
                    stages_of(source@)->Ok_0,
                    n,
                ) matches Some(so_far) ==> so_far.err.is_prefix_of(
                    error_lines(outcome(result)),
                )),
    {
        match split_str(source) {
            Ok(argvs) => self.run_cmds(argvs),
            Err(error) => Err(error),
        }
    }
}

} // verus!

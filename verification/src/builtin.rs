//! The commands that every shell can offer: `echo`, `cat`, `count` and `flags`.

use vstd::prelude::*;
use vstd::slice::slice_subrange;
use crate::sh::{flow, lemma_prefix_of_sum, pipeline, Command, Emission};
use crate::text::{decimal, join, joined, to_decimal};

verus! {

/// What `getopts::Options::parse` finds in `args` when the only option is a
/// flag with the names `short` and `long`: whether the flag is there, or the
/// text of the failure.
pub uninterp spec fn getopts_flag(
    short: Seq<char>,
    long: Seq<char>,
    desc: Seq<char>,
    args: Seq<Seq<char>>,
) -> Result<bool, Seq<char>>;

/// Parses `args` with `getopts`: declares one flag by `Options::optflag`,
/// calls `Options::parse`, and asks `Matches::opt_present` for the flag. A
/// failure comes back as the text that `getopts` displays for it. The names
/// must be such as `optflag` accepts: a short name of one ASCII character,
/// and a long name that is empty or longer than one character. Nothing is
/// proved of the answer: the contract only names it.
#[verifier::external_body]
fn parse_flag(short: &str, long: &str, desc: &str, args: &[String]) -> (found: Result<bool, String>)
    requires
        short@.len() == 1,
        short.is_ascii(),
        long@.len() != 1,
    ensures
        match found {
            Ok(present) => getopts_flag(short@, long@, desc@, args.deep_view()) == Ok::<
                bool,
                Seq<char>,
            >(present),
            Err(message) => getopts_flag(short@, long@, desc@, args.deep_view()) == Err::<
                bool,
                Seq<char>,
            >(message@),
        },
{
    let mut options = getopts::Options::new();
    options.optflag(short, long, desc);
    match options.parse(args) {
        Ok(matches) => Ok(matches.opt_present(short)),
        Err(fail) => Err(fail.to_string()),
    }
}

/// A command that the library itself provides.
#[derive(Eq, PartialEq, Copy, Clone, Debug)]
pub enum Builtin {
    /// Writes its arguments, joined by single spaces, as one line.
    Echo,
    /// Writes every line of its input, unchanged and in order.
    Cat,
    /// Writes the number of its arguments or, where it has none, the number of
    /// lines of its input.
    Count,
    /// Looks for the flag `-t` or `--test` among its arguments and says
    /// whether it is there.
    Flags,
}

/// What `flags` writes on `argv`, given what the option parser found.
pub open spec fn flags_writes(argv: Seq<Seq<char>>, found: Result<bool, Seq<char>>) -> Emission {
    match found {
        Ok(present) => Emission {
            out: seq![
                if present {
                    "test"@
                } else {
                    "not test"@
                },
            ],
            err: Seq::empty(),
        },
        Err(message) => Emission { out: Seq::empty(), err: seq![argv[0] + ": "@ + message] },
    }
}

/// Words the complaint of the command `argv` about `message`: the name of
/// the command, a colon and the message.
pub fn complaint(argv: &Vec<String>, message: &str) -> (line: String)
    requires
        argv.len() > 0,
    ensures
        line@ == argv[0]@ + ": "@ + message@,
{
    let mut line = String::from_str(argv[0].as_str());
    line.append(": ");
    line.append(message);
    line
}

/// Writes what `flags` writes on `argv`, given what the option parser found.
pub fn flags_write(
    argv: &Vec<String>,
    found: Result<bool, String>,
    stdout: &mut Vec<String>,
    stderr: &mut Vec<String>,
)
    requires
        argv.len() > 0,
    ensures
        final(stdout).deep_view() == old(stdout).deep_view() + flags_writes(
            argv.deep_view(),
            match found {
                Ok(present) => Ok(present),
                Err(message) => Err(message@),
            },
        ).out,
        final(stderr).deep_view() == old(stderr).deep_view() + flags_writes(
            argv.deep_view(),
            match found {
                Ok(present) => Ok(present),
                Err(message) => Err(message@),
            },
        ).err,
{
    let ghost out0 = stdout.deep_view();
    let ghost err0 = stderr.deep_view();
    match found {
        Ok(present) => {
            let line = if present {
                String::from_str("test")
            } else {
                String::from_str("not test")
            };
            stdout.push(line);
            assert(stdout.deep_view() =~= out0 + seq![line@]);
            assert(stderr.deep_view() =~= err0 + Seq::<Seq<char>>::empty());
        },
        Err(message) => {
            let line = complaint(argv, message.as_str());
            stderr.push(line);
            assert(stderr.deep_view() =~= err0 + seq![line@]);
            assert(stdout.deep_view() =~= out0 + Seq::<Seq<char>>::empty());
        },
    }
}

impl Builtin {
    /// What the command writes when run on `argv` with the input `stdin`.
    pub open spec fn writes(self, argv: Seq<Seq<char>>, stdin: Seq<Seq<char>>) -> Emission {
        match self {
            Builtin::Echo => Emission {
                out: seq![joined(argv.skip(1), seq![' '])],
                err: Seq::empty(),
            },
            Builtin::Cat => Emission { out: stdin, err: Seq::empty() },
            Builtin::Count => Emission {
                out: seq![
                    decimal(
                        if argv.len() == 1 {
                            stdin.len()
                        } else {
                            (argv.len() - 1) as nat
                        },
                    ),
                ],
                err: Seq::empty(),
            },
            Builtin::Flags => flags_writes(
                argv,
                getopts_flag("t"@, "test"@, "test flag"@, argv.skip(1)),
            ),
        }
    }
}

impl Command for Builtin {
    open spec fn emits(&self, argv: Seq<Seq<char>>, stdin: Seq<Seq<char>>) -> Option<Emission> {
        Some(self.writes(argv, stdin))
    }

    fn run(
        &self,
        argv: &Vec<String>,
        stdin: Vec<String>,
        stdout: &mut Vec<String>,
        stderr: &mut Vec<String>,
    ) {
        let ghost out0 = stdout.deep_view();
        let ghost err0 = stderr.deep_view();
        let args = slice_subrange(argv.as_slice(), 1, argv.len());
        assert(args.deep_view() =~= argv.deep_view().skip(1));
        match self {
            Builtin::Echo => {
                proof {
                    reveal_strlit(" ");
                }
                assert(" "@ =~= seq![' ']);
                let line = join(args, " ");
                stdout.push(line);
                assert(stdout.deep_view() =~= out0 + seq![line@]);
                assert(stderr.deep_view() =~= err0 + Seq::<Seq<char>>::empty());
                proof {
                    lemma_prefix_of_sum(out0, seq![line@]);
                    lemma_prefix_of_sum(err0, Seq::empty());
                }
            },
            Builtin::Cat => {
                let mut stdin = stdin;
                let ghost lines = stdin.deep_view();
                stdout.append(&mut stdin);
                assert(stdout.deep_view() =~= out0 + lines);
                assert(stderr.deep_view() =~= err0 + Seq::<Seq<char>>::empty());
                proof {
                    lemma_prefix_of_sum(out0, lines);
                    lemma_prefix_of_sum(err0, Seq::empty());
                }
            },
            Builtin::Count => {
                let n = if argv.len() == 1 {
                    stdin.len()
                } else {
                    argv.len() - 1
                };
                let line = to_decimal(n);
                stdout.push(line);
                assert(stdout.deep_view() =~= out0 + seq![line@]);
                assert(stderr.deep_view() =~= err0 + Seq::<Seq<char>>::empty());
                proof {
                    lemma_prefix_of_sum(out0, seq![line@]);
                    lemma_prefix_of_sum(err0, Seq::empty());
                }
            },
            Builtin::Flags => {
                proof {
                    reveal_strlit("t");
                    reveal_strlit("test");
                }
                let found = parse_flag("t", "test", "test flag", args);
                flags_write(argv, found, stdout, stderr);
                proof {
                    let wrote = self.writes(argv.deep_view(), stdin.deep_view());
                    lemma_prefix_of_sum(out0, wrote.out);
                    lemma_prefix_of_sum(err0, wrote.err);
                }
            },
        }
    }
}

/// What a chain of builtins leaves behind is always determined.
pub proof fn lemma_builtins_flow(
    cmds: Map<Seq<char>, Builtin>,
    stages: Seq<Seq<Seq<char>>>,
    n: nat,
)
    ensures
        flow(cmds, stages, n) is Some,
    decreases n,
{
    if n > 0 {
        lemma_builtins_flow(cmds, stages, (n - 1) as nat);
    }
}

/// A pipeline of builtins always has a determined result.
pub proof fn lemma_builtins_pipeline(cmds: Map<Seq<char>, Builtin>, stages: Seq<Seq<Seq<char>>>)
    ensures
        pipeline(cmds, stages) is Some,
{
    lemma_builtins_flow(cmds, stages, stages.len());
}

} // verus!

use pipesh::builtin::Builtin;
use pipesh::lex;
use pipesh::parse;
use pipesh::sh::{conclude, split_str, Command, Error, Sh};

fn strings(items: &[&str]) -> Vec<String> {
    items.iter().map(|item| item.to_string()).collect()
}

fn shell() -> Sh<Builtin> {
    let mut sh = Sh::new();
    sh.register("echo".to_string(), Builtin::Echo);
    sh.register("cat".to_string(), Builtin::Cat);
    sh.register("count".to_string(), Builtin::Count);
    sh.register("flags".to_string(), Builtin::Flags);
    sh
}

fn unclosed() -> Error {
    Error::ParseError(parse::Error::LexError(lex::Error::UnterminatedString))
}

#[test]
fn echo_joins_its_arguments_into_one_line() {
    assert_eq!(shell().run_str("echo a b c"), Ok(strings(&["a b c"])));
    assert_eq!(shell().run_str("echo"), Ok(strings(&[""])));
}

#[test]
fn count_counts_its_input_when_it_has_no_argument() {
    assert_eq!(shell().run_str("echo a b c | count"), Ok(strings(&["1"])));
    assert_eq!(shell().run_str("echo a b c|count"), Ok(strings(&["1"])));
    assert_eq!(shell().run_str("count"), Ok(strings(&["0"])));
}

#[test]
fn count_counts_its_arguments_when_it_has_some() {
    assert_eq!(shell().run_str("count a b c"), Ok(strings(&["3"])));
    assert_eq!(shell().run_str("echo x | count a b c"), Ok(strings(&["3"])));
    assert_eq!(shell().run_str("count 1 2 3 4 5 6 7 8 9 10 11 12"), Ok(strings(&["12"])));
}

#[test]
fn unknown_command_fails_before_anything_runs() {
    assert_eq!(shell().run_str("nosuch a"), Err(Error::UnknownCommand("nosuch".to_string())));
    assert_eq!(
        shell().run_str("echo a | nosuch | count"),
        Err(Error::UnknownCommand("nosuch".to_string()))
    );
    assert_eq!(shell().run_str("Echo a"), Err(Error::UnknownCommand("Echo".to_string())));
}

#[test]
fn cat_at_the_head_ends_with_no_output() {
    assert_eq!(shell().run_str("cat"), Ok(strings(&[])));
}

#[test]
fn cat_forwards_its_input_unchanged() {
    assert_eq!(shell().run_str("echo a  b | cat | cat"), Ok(strings(&["a b"])));
    assert_eq!(shell().run_str("echo \"a  b\"|cat"), Ok(strings(&["a  b"])));
}

#[test]
fn empty_stage_fails() {
    assert_eq!(shell().run_str(""), Err(Error::EmptyCommand));
    assert_eq!(shell().run_str("echo a |"), Err(Error::EmptyCommand));
    assert_eq!(shell().run_str("echo a | | count"), Err(Error::EmptyCommand));
    assert_eq!(shell().run_str("echo a ||cat"), Err(Error::EmptyCommand));
    assert_eq!(shell().run_str("| nosuch"), Err(Error::EmptyCommand));
    assert_eq!(shell().run_str("nosuch |"), Err(Error::UnknownCommand("nosuch".to_string())));
}

#[test]
fn unclosed_quote_fails_with_the_error_of_the_lexer() {
    assert_eq!(shell().run_str("echo \"a b"), Err(unclosed()));
    assert_eq!(shell().run_str("nosuch | \""), Err(unclosed()));
    assert_eq!(split_str("a \"b"), Err(unclosed()));
}

#[test]
fn quoted_pipe_is_a_word() {
    assert_eq!(shell().run_str("echo \"|\""), Ok(strings(&["|"])));
    assert_eq!(shell().run_str("echo \"a | b\" 'c|cat"), Ok(strings(&["a | b 'c"])));
    assert_eq!(shell().run_str("count \"a b\" c"), Ok(strings(&["2"])));
}

#[test]
fn split_str_cuts_at_every_pipe_outside_quotes() {
    assert_eq!(split_str(""), Ok(vec![strings(&[])]));
    assert_eq!(split_str("echo \"|\""), Ok(vec![strings(&["echo", "|"])]));
    assert_eq!(
        split_str("a b|c||\"d|e\" ;"),
        Ok(vec![strings(&["a", "b"]), strings(&["c"]), strings(&[]), strings(&["d|e", ";"])])
    );
    assert_eq!(
        split_str("echo a b | count | | x"),
        Ok(vec![strings(&["echo", "a", "b"]), strings(&["count"]), strings(&[]), strings(&["x"])])
    );
}

#[test]
fn run_cmds_with_no_stage_gives_no_output() {
    assert_eq!(shell().run_cmds(vec![]), Ok(strings(&[])));
    assert_eq!(shell().run_cmds(vec![strings(&["count", "|"])]), Ok(strings(&["1"])));
    assert_eq!(shell().run_cmds(vec![strings(&["echo", "|"])]), Ok(strings(&["|"])));
}

#[test]
fn flags_tells_whether_the_flag_is_there() {
    assert_eq!(shell().run_str("flags -t"), Ok(strings(&["test"])));
    assert_eq!(shell().run_str("flags --test"), Ok(strings(&["test"])));
    assert_eq!(shell().run_str("flags"), Ok(strings(&["not test"])));
    assert_eq!(shell().run_str("flags free words"), Ok(strings(&["not test"])));
}

#[test]
fn flags_reports_what_it_cannot_parse() {
    assert_eq!(
        shell().run_str("flags -x"),
        Err(Error::CommandErrors(strings(&["flags: Unrecognized option: 'x'"])))
    );
    assert_eq!(
        shell().run_str("flags -t -t"),
        Err(Error::CommandErrors(strings(&["flags: Option 'test' given more than once"])))
    );
}

#[test]
fn error_of_an_early_stage_fails_the_pipeline() {
    assert_eq!(
        shell().run_str("flags -x | count"),
        Err(Error::CommandErrors(strings(&["flags: Unrecognized option: 'x'"])))
    );
    assert_eq!(
        shell().run_str("echo a | flags -x | count"),
        Err(Error::CommandErrors(strings(&["flags: Unrecognized option: 'x'"])))
    );
    assert_eq!(
        shell().run_str("flags -x | cat | flags --nope"),
        Err(Error::CommandErrors(strings(&[
            "flags: Unrecognized option: 'x'",
            "flags: Unrecognized option: 'nope'",
        ])))
    );
}

struct Grumble;

impl Command for Grumble {
    fn run(
        &self,
        argv: &Vec<String>,
        stdin: Vec<String>,
        stdout: &mut Vec<String>,
        stderr: &mut Vec<String>,
    ) {
        stderr.push(format!("{}: bad day", argv[0]));
        stdout.extend(stdin);
    }
}

enum Either {
    Lib(Builtin),
    Grumble(Grumble),
}

impl Command for Either {
    fn run(
        &self,
        argv: &Vec<String>,
        stdin: Vec<String>,
        stdout: &mut Vec<String>,
        stderr: &mut Vec<String>,
    ) {
        match self {
            Either::Lib(builtin) => builtin.run(argv, stdin, stdout, stderr),
            Either::Grumble(grumble) => grumble.run(argv, stdin, stdout, stderr),
        }
    }
}

#[test]
fn middle_stage_that_reports_and_forwards_still_fails() {
    let mut sh: Sh<Either> = Sh::new();
    sh.register("echo".to_string(), Either::Lib(Builtin::Echo));
    sh.register("cat".to_string(), Either::Lib(Builtin::Cat));
    sh.register("grumble".to_string(), Either::Grumble(Grumble));
    assert_eq!(
        sh.run_str("echo a | grumble | cat"),
        Err(Error::CommandErrors(strings(&["grumble: bad day"])))
    );
    assert_eq!(sh.run_str("echo a | cat"), Ok(strings(&["a"])));
}

#[test]
fn conclude_drops_the_output_when_there_are_errors() {
    assert_eq!(conclude(strings(&["out"]), strings(&[])), Ok(strings(&["out"])));
    assert_eq!(conclude(strings(&[]), strings(&[])), Ok(strings(&[])));
    assert_eq!(
        conclude(strings(&["out"]), strings(&["e1", "e2"])),
        Err(Error::CommandErrors(strings(&["e1", "e2"])))
    );
}

#[test]
fn registry_finds_exact_names_only() {
    let mut sh = shell();
    assert_eq!(sh.lookup("echo"), Some(&Builtin::Echo));
    assert_eq!(sh.lookup("ECHO"), None);
    assert_eq!(sh.lookup("ech"), None);
    assert_eq!(sh.lookup(""), None);
    sh.register("echo".to_string(), Builtin::Cat);
    assert_eq!(sh.lookup("echo"), Some(&Builtin::Cat));
    assert_eq!(Sh::<Builtin>::new().lookup("echo"), None);
    assert_eq!(Sh::<Builtin>::default().lookup("cat"), None);
}

#[test]
fn resolve_finds_the_command_of_every_stage() {
    let sh = shell();
    let argvs = vec![strings(&["echo", "a"]), strings(&["count"])];
    assert_eq!(sh.resolve(&argvs), Ok(vec![&Builtin::Echo, &Builtin::Count]));
    let argvs = vec![strings(&["echo"]), strings(&[]), strings(&["nosuch"])];
    assert_eq!(sh.resolve(&argvs), Err(Error::EmptyCommand));
    let argvs = vec![strings(&["echo"]), strings(&["nosuch"]), strings(&[])];
    assert_eq!(sh.resolve(&argvs), Err(Error::UnknownCommand("nosuch".to_string())));
}

#[test]
fn sh_error_text() {
    assert_eq!(Error::EmptyCommand.description(), "Empty command");
    assert_eq!(Error::UnknownCommand("x".to_string()).description(), "Unknown command");
    assert_eq!(unclosed().description(), "Parse error");
    assert_eq!(Error::CommandErrors(strings(&["a"])).description(), "Command error");
    assert_eq!(Error::EmptyCommand.to_string(), "Empty command");
    assert_eq!(unclosed().to_string(), "Parse error");
    assert_eq!(
        Error::UnknownCommand("nosuch".to_string()).to_string(),
        "Unknown command \"nosuch\"."
    );
    assert_eq!(Error::CommandErrors(strings(&["a", "b c"])).to_string(), "a | b c");
    assert_eq!(Error::CommandErrors(strings(&[])).to_string(), "");
}

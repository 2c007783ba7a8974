use jabba_lib::jprocess::{CommandLine, ProcStat};

#[test]
fn output_is_a_copy_of_stdout() {
    let stat = ProcStat {
        exit_code: 0,
        stdout: String::from("rustc 1.62.1\n"),
        stderr: String::new(),
    };
    assert!(stat.output() == stat.stdout.clone());
    assert_eq!(stat.output(), "rustc 1.62.1\n");
}

#[test]
fn trimmed_output_takes_white_space_off_the_end() {
    let stat = ProcStat {
        exit_code: 0,
        stdout: String::from("  rustc 1.62.1 \t\r\n\n"),
        stderr: String::new(),
    };
    assert_eq!(stat.trimmed_output(), "  rustc 1.62.1");
    assert!(stat.trimmed_output().len() < stat.output().len());
    let bare = ProcStat {
        exit_code: 1,
        stdout: String::from("done"),
        stderr: String::from("warning\n"),
    };
    assert_eq!(bare.trimmed_output(), "done");
    let blank = ProcStat {
        exit_code: 1,
        stdout: String::from(" \n"),
        stderr: String::new(),
    };
    assert_eq!(blank.trimmed_output(), "");
}

#[test]
fn from_outcome_needs_an_exit_code() {
    let stat = ProcStat::from_outcome(Some(3), String::from("out"), String::from("err")).unwrap();
    assert_eq!(stat.exit_code, 3);
    assert_eq!(stat.stdout, "out");
    assert_eq!(stat.stderr, "err");
    assert!(ProcStat::from_outcome(None, String::from("out"), String::from("err")).is_none());
}

#[test]
fn parse_splits_as_a_shell_does() {
    let line = CommandLine::parse("rustc --version").unwrap();
    assert_eq!(line.program, "rustc");
    assert_eq!(line.args, vec!["--version"]);
    let line = CommandLine::parse(r#"python -c "print('Hello Rust!')""#).unwrap();
    assert_eq!(line.program, "python");
    assert_eq!(line.args, vec!["-c", "print('Hello Rust!')"]);
    let line = CommandLine::parse("date").unwrap();
    assert_eq!(line.program, "date");
    assert!(line.args.is_empty());
}

#[test]
fn parse_refuses_what_cannot_be_split() {
    assert!(CommandLine::parse("echo \"open").is_none());
    assert!(CommandLine::parse("echo 'open").is_none());
    assert!(CommandLine::parse("echo \\").is_none());
    assert!(CommandLine::parse("").is_none());
    assert!(CommandLine::parse("   ").is_none());
}

#[test]
fn from_words_takes_the_first_as_the_program() {
    let words = vec![String::from("ls"), String::from("-a"), String::from("-l")];
    let line = CommandLine::from_words(words).unwrap();
    assert_eq!(line.program, "ls");
    assert_eq!(line.args, vec!["-a", "-l"]);
    assert!(CommandLine::from_words(Vec::new()).is_none());
}

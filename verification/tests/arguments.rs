use lpm::cli::{
    needs_root, parse_i64, parse_step, parse_usize, root_required_message, ArgError, ArgEvent, ArgRequest,
    Command, HistorySubcmd, KeyAction, ParseState, ParseStep, RepoAction,
};

/// Feeds the arguments to the parser one at a time, as the argument reader would.
fn parse(args: &[&str]) -> Result<Command, ArgError> {
    let mut state = ParseState::Start;
    let mut i = 0;
    let mut req = ArgRequest::Next;
    loop {
        let ev = if i >= args.len() {
            match req {
                ArgRequest::Next => ArgEvent::End,
                ArgRequest::Value => ArgEvent::Error("missing argument".to_string()),
            }
        } else {
            let a = args[i];
            i += 1;
            match req {
                ArgRequest::Value => ArgEvent::Value(a.to_string()),
                ArgRequest::Next => {
                    if let Some(l) = a.strip_prefix("--") {
                        ArgEvent::Long(l.to_string())
                    } else if a.len() == 2 && a.starts_with('-') {
                        ArgEvent::Short(a.chars().nth(1).unwrap())
                    } else {
                        ArgEvent::Value(a.to_string())
                    }
                }
            }
        };
        match parse_step(state, ev) {
            ParseStep::Continue(s, r) => {
                state = s;
                req = r;
            }
            ParseStep::Done(c) => return Ok(c),
            ParseStep::Fail(e) => return Err(e),
        }
    }
}

#[test]
fn no_arguments_show_help() {
    assert!(matches!(parse(&[]), Ok(Command::Help)));
    assert!(matches!(parse(&["-V"]), Ok(Command::Version)));
    assert!(matches!(parse(&["--help"]), Ok(Command::Help)));
    assert!(matches!(parse(&["-x"]), Err(ArgError::UnexpectedArgument)));
}

#[test]
fn install_reads_flags_and_packages() {
    match parse(&["in", "-y", "vim", "--with-recommends", "nano"]) {
        Ok(Command::Install { packages, assume_yes, with_recommends }) => {
            assert_eq!(packages, vec!["vim".to_string(), "nano".to_string()]);
            assert!(assume_yes);
            assert!(with_recommends);
        }
        _ => panic!("expected install"),
    }
    assert!(matches!(parse(&["install"]), Err(ArgError::NoPackages(true))));
    assert!(matches!(parse(&["remove", "--purge"]), Err(ArgError::NoPackages(false))));
    assert!(matches!(parse(&["install", "--bogus", "x"]), Err(ArgError::UnknownFlag(_))));
}

#[test]
fn upgrade_and_search_take_option_values() {
    match parse(&["upgrade", "--only", "vim", "--security"]) {
        Ok(Command::Upgrade { assume_yes, only, security }) => {
            assert!(!assume_yes);
            assert_eq!(only.as_deref(), Some("vim"));
            assert!(security);
        }
        _ => panic!("expected upgrade"),
    }
    match parse(&["search", "text", "--repo", "main", "editor", "--exact"]) {
        Ok(Command::Search { query, repo, exact, installed, .. }) => {
            assert_eq!(query, "text editor");
            assert_eq!(repo.as_deref(), Some("main"));
            assert!(exact);
            assert!(!installed);
        }
        _ => panic!("expected search"),
    }
    assert!(matches!(parse(&["search"]), Err(ArgError::NoQuery)));
    assert!(matches!(parse(&["upgrade", "--only"]), Err(ArgError::Parser(_))));
}

#[test]
fn history_repo_and_key_subcommands() {
    assert!(matches!(parse(&["history"]), Ok(Command::History { subcmd: None })));
    assert!(matches!(parse(&["history", "undo", "7"]), Ok(Command::History { subcmd: Some(HistorySubcmd::Undo { id: 7 }) })));
    assert!(matches!(parse(&["log", "diff", "1", "-2"]), Ok(Command::History { subcmd: Some(HistorySubcmd::Diff { id1: 1, id2: -2 }) })));
    assert!(matches!(parse(&["history", "undo", "x"]), Err(ArgError::InvalidId(_))));
    assert!(matches!(parse(&["history", "rewind"]), Err(ArgError::UnknownHistorySubcommand(_))));
    match parse(&["repo", "add", "http://x", "stable", "main", "contrib"]) {
        Ok(Command::Repo { action: RepoAction::Add { uri, suite, components } }) => {
            assert_eq!(uri, "http://x");
            assert_eq!(suite, "stable");
            assert_eq!(components, vec!["main".to_string(), "contrib".to_string()]);
        }
        _ => panic!("expected repo add"),
    }
    assert!(matches!(parse(&["repo", "add", "http://x", "stable"]), Err(ArgError::NoComponents)));
    assert!(matches!(parse(&["repo", "disable", "2"]), Ok(Command::Repo { action: RepoAction::Disable { id: 2 } })));
    assert!(matches!(parse(&["repo"]), Ok(Command::Repo { action: RepoAction::List })));
    assert!(matches!(parse(&["key", "add", "/k.gpg"]), Ok(Command::Key { action: KeyAction::Add { .. } })));
    assert!(matches!(parse(&["whatprovides"]), Err(ArgError::NoFile(true))));
    assert!(matches!(parse(&["frobnicate"]), Err(ArgError::UnknownCommand(_))));
}

#[test]
fn error_messages_match_the_commands() {
    assert_eq!(ArgError::NoPackages(true).message(""), "No packages specified. Usage: lpm install <pkg...>");
    assert_eq!(ArgError::UnknownCommand("zz".to_string()).message(""), "Unknown command: 'zz'. Run `lpm help`.");
    assert_eq!(
        ArgError::UnknownFlag(ArgEvent::Long("x".to_string())).message("invalid option '--x'"),
        "Unknown flag: invalid option '--x'"
    );
    assert_eq!(ArgError::InvalidId(lpm::cli::IdSlot::Second).message(""), "Invalid ID2");
}

#[test]
fn only_system_changes_need_root() {
    assert!(needs_root(&Command::Update));
    assert!(needs_root(&Command::Install { packages: vec![], assume_yes: false, with_recommends: false }));
    assert!(!needs_root(&Command::Help));
    assert!(!needs_root(&Command::Info { package: "x".to_string() }));
    assert_eq!(
        root_required_message(&["install".to_string(), "vim".to_string()]),
        "This operation requires root privileges.\n  Try: sudo lpm install vim"
    );
}

#[test]
fn integers_parse_like_str_parse() {
    assert_eq!(parse_i64("-42"), Some(-42));
    assert_eq!(parse_i64("+7"), Some(7));
    assert_eq!(parse_i64("9223372036854775808"), None);
    assert_eq!(parse_i64("-9223372036854775808"), Some(i64::MIN));
    assert_eq!(parse_i64(""), None);
    assert_eq!(parse_usize("12"), Some(12));
    assert_eq!(parse_usize("-1"), None);
}

fn strings(v: &[&str]) -> Vec<String> {
    v.iter().map(|x| x.to_string()).collect()
}

#[test]
fn arguments_are_read_with_lexopt() {
    assert!(matches!(lpm::cli::parse_args_from(vec![]), Ok(Command::Help)));
    match lpm::cli::parse_args_from(strings(&["in", "-y", "vim", "--with-recommends", "nano"])) {
        Ok(Command::Install { packages, assume_yes, with_recommends }) => {
            assert_eq!(packages, strings(&["vim", "nano"]));
            assert!(assume_yes);
            assert!(with_recommends);
        }
        _ => panic!("expected install"),
    }
    match lpm::cli::parse_args_from(strings(&["install", "--", "-odd"])) {
        Ok(Command::Install { packages, .. }) => assert_eq!(packages, strings(&["-odd"])),
        _ => panic!("expected install"),
    }
}

#[test]
fn option_values_and_unknown_flags_through_lexopt() {
    match lpm::cli::parse_args_from(strings(&["upgrade", "--only=vim"])) {
        Ok(Command::Upgrade { only, .. }) => assert_eq!(only.as_deref(), Some("vim")),
        _ => panic!("expected upgrade"),
    }
    match lpm::cli::parse_args_from(strings(&["install", "-z"])) {
        Err(m) => assert_eq!(m, "Unknown flag: invalid option '-z'"),
        Ok(_) => panic!("expected an error"),
    }
    match lpm::cli::parse_args_from(strings(&["autoremove", "--bogus"])) {
        Err(m) => assert_eq!(m, "Unknown flag: invalid option '--bogus'"),
        Ok(_) => panic!("expected an error"),
    }
    assert_eq!(lpm::cli::unexpected_text(&ArgEvent::Value("x y".to_string())), "unexpected argument \"x y\"");
}

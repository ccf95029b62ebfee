//! The table of commands, arguments and parsed commands.
use amla_sandbox_shell::args::{has_long, has_short, last_count, last_value, lex_args, values};
use amla_sandbox_shell::ast::{Command, Redirect, RedirectKind, RedirectTarget, Word};
use amla_sandbox_shell::commands::{all_commands, available_commands, get_command, CommandId};

fn argv(line: &[&str]) -> Vec<String> {
    line.iter().map(|s| s.to_string()).collect()
}

fn word(s: &str) -> Word {
    Word { text: s.to_string() }
}

#[test]
fn every_available_name_is_found() {
    for name in available_commands() {
        assert!(get_command(name).is_some(), "{name}");
    }
    assert_eq!(available_commands().len(), 40);
    assert_eq!(all_commands().len(), 38);
    assert!(get_command("panic").is_none());
    assert!(get_command("").is_none());
}

#[test]
fn no_two_names_are_alike() {
    let mut names = available_commands();
    assert!(names.contains(&"[") && names.contains(&"bash"));
    names.sort_unstable();
    names.dedup();
    assert_eq!(names.len(), 40);
}

#[test]
fn aliases_name_the_same_command() {
    assert_eq!(get_command("["), Some(CommandId::Test));
    assert_eq!(get_command("test"), Some(CommandId::Test));
    assert_eq!(get_command("bash"), Some(CommandId::Sh));
    assert_eq!(get_command("set"), Some(CommandId::SetOption));
}

#[test]
fn panic_has_a_default_message() {
    assert_eq!(amla_sandbox_shell::commands::panic::message(&argv(&["panic", "a", "b"])), "a b");
    assert_eq!(amla_sandbox_shell::commands::panic::message(&argv(&["panic"])), "test panic");
}

#[test]
fn arguments_are_read_to_the_first_mistake() {
    let ts = lex_args(&argv(&["c", "-ab", "--long", "x", "-n", "5", "-", "--", "-z"]), &['n'], false);
    assert!(has_short(&ts, 'a') && has_short(&ts, 'b') && !has_short(&ts, 'z'));
    assert!(has_long(&ts, "long") && !has_long(&ts, "lon"));
    let vs = values(&ts);
    let all: Vec<&str> = (0..vs.len()).map(|i| vs.at(i)).collect();
    assert_eq!(all, vec!["x", "-", "-z"]);
    assert_eq!(last_value(&ts, &['n']), Some("5".to_string()));
    assert_eq!(last_count(&ts, 'n', false), Some(5));

    let ts = lex_args(&argv(&["c", "-a=1", "--k=v", "y"]), &[], false);
    assert!(has_short(&ts, 'a'));
    assert_eq!(values(&ts).len(), 0);
}

#[test]
fn numbers_can_be_options() {
    let ts = lex_args(&argv(&["c", "-12", "-n3", "-4"]), &['n'], true);
    assert_eq!(last_count(&ts, 'n', true), Some(4));
    let ts = lex_args(&argv(&["c", "-n", "x"]), &['n'], true);
    assert_eq!(last_count(&ts, 'n', true), None);
    assert_eq!(last_value(&ts, &['n']), Some("x".to_string()));
}

#[test]
fn commands_are_put_together() {
    let ls = Command::simple(vec![word("ls"), word("-l")]);
    match &ls {
        Command::Simple { argv, redirects } => {
            assert_eq!((argv.len(), argv.at(1).text.as_str()), (2, "-l"));
            assert_eq!(redirects.len(), 0);
        }
        _ => panic!("not simple"),
    }
    assert!(!ls.is_empty() && !Command::simple(vec![]).is_empty());
    assert!(Command::Empty.is_empty());
    match Command::simple_with_redirects(vec![], vec![Redirect::stdout_write(word("f"))]) {
        Command::Simple { argv, redirects } => {
            assert_eq!((argv.len(), redirects.len()), (0, 1));
            assert_eq!(redirects.at(0).source_fd, 1);
        }
        _ => panic!("not simple"),
    }
    assert!(matches!(Command::pipeline(vec![ls]), Command::Simple { .. }));
    assert!(matches!(Command::pipeline(vec![]), Command::Pipeline { commands } if commands.is_empty()));
}

#[test]
fn redirects_say_where_from_and_where_to() {
    let all = [
        (Redirect::stdout_write(word("f")), 1, RedirectKind::Write),
        (Redirect::stdout_append(word("f")), 1, RedirectKind::Append),
        (Redirect::stdin_read(word("f")), 0, RedirectKind::Read),
        (Redirect::stderr_write(word("f")), 2, RedirectKind::Write),
        (Redirect::stderr_append(word("f")), 2, RedirectKind::Append),
    ];
    for (r, fd, kind) in all {
        assert_eq!((r.source_fd, r.kind), (fd, kind));
        assert!(matches!(r.target, RedirectTarget::File(w) if w.text == "f"));
    }
    assert!(matches!(Redirect::dup_fd(2, 1).target, RedirectTarget::Fd(1)));
    let here = Redirect::stdin_heredoc("text".to_string(), true);
    assert!(matches!(here.target, RedirectTarget::HereDoc { strip_tabs: true, .. }));
}

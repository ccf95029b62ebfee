//! help.
use amla_sandbox_shell::commands::all_commands;

#[test]
fn all_commands_returns_entries() {
    let cmds = all_commands();
    assert!(!cmds.is_empty());

    // Should have help command
    assert!(cmds.iter().any(|c| c.name == "help"));

    // Should have echo command
    assert!(cmds.iter().any(|c| c.name == "echo"));

    // sh should have bash alias
    let sh = cmds.iter().find(|c| c.name == "sh").unwrap();
    assert!(sh.aliases.contains(&"bash"));
}

#[test]
fn all_commands_have_descriptions() {
    for cmd in all_commands() {
        assert!(
            !cmd.description.is_empty(),
            "Command '{}' has empty description",
            cmd.name
        );
    }
}

#[test]
fn descriptions_stand_in_a_column() {
    let said = amla_sandbox_shell::commands::help::run(&vec!["help".to_string()]);
    let lines: Vec<&str> = said.out.lines().collect();
    assert_eq!(lines[0], "Available commands:");
    assert_eq!(lines[2], "  :         No-op command (always succeeds)");
    assert!(lines.contains(&"  sh, bash  Execute shell commands"));
    assert!(lines.contains(&"  test, [   Evaluate conditional expression"));
    assert_eq!(lines.len(), 2 + 38 + 3);
}

#[test]
fn one_command_is_explained() {
    let help = |name: &str| {
        amla_sandbox_shell::commands::help::run(&vec!["help".to_string(), name.to_string()])
    };
    assert_eq!(
        help("bash").out,
        "sh: Execute shell commands\nAliases: bash\n\nRun 'sh --help' for detailed usage.\n"
    );
    assert_eq!(
        help("cd").out,
        "cd: Change working directory\n\nRun 'cd --help' for detailed usage.\n"
    );
    let said = help("nope");
    assert_eq!(
        said.err,
        "help: unknown command: nope\nRun 'help' for a list of available commands.\n"
    );
    assert_eq!(said.code, 0);
}

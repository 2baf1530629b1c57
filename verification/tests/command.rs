use pimalaya_config::command::{
    command_shape, shell, CommandConfig, CommandLine, CommandShape, Platform,
};

fn de_str(s: &str) -> Result<CommandLine, String> {
    CommandConfig::from_line(s)
        .map(|config| config.to_command(Platform::Unix))
        .map_err(|err| err.message())
}

fn de_seq<'a, I: IntoIterator<Item = &'a str>>(items: I) -> Result<CommandLine, String> {
    let owned: Vec<String> = items.into_iter().map(String::from).collect();
    CommandConfig::from_words(owned)
        .map(|config| config.to_command(Platform::Unix))
        .map_err(|err| err.message())
}

fn parts(cmd: &CommandLine) -> (String, Vec<String>) {
    (cmd.program.clone(), cmd.args.clone())
}

fn shape_value(shape: CommandShape) -> toml::Value {
    match shape {
        CommandShape::Line(line) => toml::Value::String(line),
        CommandShape::Words(words) => {
            toml::Value::Array(words.into_iter().map(toml::Value::String).collect())
        }
    }
}

fn value_shape(value: &toml::Value) -> CommandShape {
    match value {
        toml::Value::String(line) => CommandShape::Line(line.clone()),
        toml::Value::Array(items) => CommandShape::Words(
            items
                .iter()
                .map(|item| item.as_str().expect("a string").to_owned())
                .collect(),
        ),
        other => panic!("not a command: {other}"),
    }
}

fn wrap(shape: CommandShape) -> String {
    let mut table = toml::Table::new();
    table.insert("cmd".to_owned(), shape_value(shape));
    toml::to_string(&table).unwrap()
}

#[test]
fn deserialize_string_wraps_in_platform_shell() {
    let cmd = de_str("pass show foo | tail -1").unwrap();
    let expected = shell("pass show foo | tail -1", Platform::Unix);
    assert_eq!(parts(&cmd), parts(&expected));
}

#[test]
fn deserialize_empty_or_blank_string() {
    assert_eq!(de_str("").unwrap_err(), "command cannot be empty");
    assert_eq!(de_str("   \n\t").unwrap_err(), "command cannot be empty");
}

#[test]
fn deserialize_seq() {
    let cmd = de_seq(["pass", "show", "foo"]).unwrap();
    let (prog, args) = parts(&cmd);
    assert_eq!(prog, "pass");
    assert_eq!(args, vec!["show", "foo"]);
}

#[test]
fn deserialize_empty_seq() {
    let v: [&str; 0] = [];
    assert_eq!(de_seq(v).unwrap_err(), "command cannot be empty");
}

#[test]
fn serialize_shell_command_as_string() {
    let out = wrap(command_shape(
        &shell("pass show foo", Platform::Unix),
        Platform::Unix,
    ));
    assert_eq!(out.trim(), r#"cmd = "pass show foo""#);
}

#[test]
fn serialize_seq_command_as_sequence() {
    let out = wrap(command_shape(
        &de_seq(["pass", "show", "foo"]).unwrap(),
        Platform::Unix,
    ));
    assert_eq!(out.trim(), r#"cmd = ["pass", "show", "foo"]"#);
}

#[test]
fn a_configured_command_round_trips_as_the_shape_it_was_written_in() {
    for written in [
        r#"cmd = "pass show foo""#,
        r#"cmd = ["pass", "show", "foo"]"#,
    ] {
        let table: toml::Table = toml::from_str(written).unwrap();
        let parsed = CommandConfig::from_shape(value_shape(&table["cmd"])).unwrap();
        assert_eq!(wrap(parsed.to_shape()).trim(), written);
    }
}

#[test]
fn a_shell_line_and_its_argv_spelling_are_two_values() {
    let shell = CommandConfig::Shell(String::from("pass show foo"));
    let argv = CommandConfig::Argv {
        program: String::from("/bin/sh"),
        args: vec![String::from("-c"), String::from("pass show foo")],
    };

    assert_ne!(shell, argv);
    assert_eq!(
        parts(&shell.to_command(Platform::Unix)),
        parts(&argv.to_command(Platform::Unix))
    );
}

#[test]
fn a_blank_padded_line_is_read_trimmed() {
    let config = CommandConfig::from_line("  pass show foo \n").unwrap();
    assert_eq!(config, CommandConfig::Shell(String::from("pass show foo")));
}

#[test]
fn a_windows_shell_line_runs_through_cmd() {
    let cmd = shell("dir", Platform::Windows);
    assert_eq!(parts(&cmd), (String::from("cmd"), vec![String::from("/C"), String::from("dir")]));
}

#[test]
fn an_argv_spelling_of_a_shell_line_is_written_as_the_line() {
    let cmd = CommandLine {
        program: String::from("/bin/sh"),
        args: vec![String::from("-c"), String::from("x")],
    };
    match command_shape(&cmd, Platform::Unix) {
        CommandShape::Line(line) => assert_eq!(line, "x"),
        other => panic!("unexpected {other:?}"),
    }
    match command_shape(&cmd, Platform::Windows) {
        CommandShape::Words(words) => assert_eq!(words, vec!["/bin/sh", "-c", "x"]),
        other => panic!("unexpected {other:?}"),
    }
}

#[test]
fn shell_line_recognises_only_the_shell_form() {
    let args = vec![String::from("-c"), String::from("ls")];
    assert_eq!(
        pimalaya_config::command::shell_line("/bin/sh", &args, Platform::Unix),
        Some("ls")
    );
    assert_eq!(
        pimalaya_config::command::shell_line("/bin/bash", &args, Platform::Unix),
        None
    );
    let three = vec![String::from("-c"), String::from("ls"), String::from("x")];
    assert_eq!(
        pimalaya_config::command::shell_line("/bin/sh", &three, Platform::Unix),
        None
    );
}

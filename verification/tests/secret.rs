use std::{cell::Cell, io};

use pimalaya_config::command::{CommandConfig, Platform};
use pimalaya_config::secret::{
    secret_from_output, CommandOutput, Secret, SecretError, SecretResolver, SecretValue,
};
use secrecy::ExposeSecret;

/// The script that counts its own runs: one more byte in a file, and the
/// running total, per run.
const COUNTING: &str = "printf x >> $COUNTER; wc -c < $COUNTER | tr -d ' '";

/// The script that fails on its first run and answers `ok` afterwards.
const FLAKY: &str = "printf x >> $COUNTER; test $(wc -c < $COUNTER) -ge 2 && echo ok || exit 1";

fn shell(line: &str) -> Secret {
    Secret::Command(CommandConfig::Shell(line.to_owned()))
}

/// Stands for the platform shell running a command line: it knows the
/// scripts these tests use, and the counter file they share is `runs`.
fn run_with(runs: &Cell<u32>, config: &CommandConfig) -> Result<CommandOutput, io::Error> {
    let line = config.to_command(Platform::Unix);
    if line.program != "/bin/sh" || line.args.len() != 2 || line.args[0] != "-c" {
        return Err(io::Error::new(io::ErrorKind::NotFound, "no such program"));
    }
    let script = line.args[1].as_str();
    let ok = |out: String| CommandOutput {
        success: true,
        stdout: out.into_bytes(),
        stderr: Vec::new(),
    };
    if script == COUNTING {
        runs.set(runs.get() + 1);
        Ok(ok(format!("{}\n", runs.get())))
    } else if script == FLAKY {
        runs.set(runs.get() + 1);
        if runs.get() >= 2 {
            Ok(ok(String::from("ok\n")))
        } else {
            Ok(CommandOutput {
                success: false,
                stdout: Vec::new(),
                stderr: Vec::new(),
            })
        }
    } else if let Some(text) = script.strip_prefix("printf ") {
        Ok(ok(text.to_owned()))
    } else {
        Err(io::Error::new(io::ErrorKind::Other, "unknown script"))
    }
}

fn text(secret: &SecretValue) -> &str {
    secret.inner.expose_secret()
}

#[test]
fn a_command_backed_secret_is_spawned_once_per_resolver() {
    let runs = Cell::new(0);
    let run = |c: &CommandConfig| run_with(&runs, c);
    let line = COUNTING;

    let mut resolver = SecretResolver::new();
    let first = resolver.resolve(shell(&line), run).unwrap();
    let second = resolver.resolve(shell(&line), run).unwrap();

    assert_eq!(text(&first), "1");
    assert_eq!(text(&second), "1");

    let unmemoized = shell(&line).get(run).unwrap();
    assert_eq!(text(&unmemoized), "2");
}

#[test]
fn distinct_commands_resolve_to_their_own_value() {
    let runs = Cell::new(0);
    let run = |c: &CommandConfig| run_with(&runs, c);
    let mut resolver = SecretResolver::new();

    let first = resolver.resolve(shell("printf first"), run).unwrap();
    let second = resolver.resolve(shell("printf second"), run).unwrap();

    assert_eq!(text(&first), "first");
    assert_eq!(text(&second), "second");
}

/// The two shapes are two commands, whatever they end up running: the
/// memo compares what the configuration wrote, never what it would
/// resolve to.
#[test]
fn a_shell_line_and_its_argv_spelling_are_resolved_on_their_own() {
    let runs = Cell::new(0);
    let run = |c: &CommandConfig| run_with(&runs, c);
    let line = COUNTING.to_owned();
    let argv = Secret::Command(CommandConfig::Argv {
        program: String::from("/bin/sh"),
        args: vec![String::from("-c"), line.clone()],
    });

    let mut resolver = SecretResolver::new();

    assert_eq!(text(&resolver.resolve(shell(&line), run).unwrap()), "1");
    assert_eq!(text(&resolver.resolve(argv, run).unwrap()), "2");
}

#[test]
fn a_raw_secret_is_returned_as_is() {
    let raw = Secret::Raw(SecretValue {
        inner: secrecy::SecretString::from("hunter2"),
    });
    let value = raw.get(|_: &CommandConfig| -> Result<CommandOutput, io::Error> {
        panic!("a literal runs nothing")
    });
    assert_eq!(text(&value.unwrap()), "hunter2");
}

#[test]
fn only_the_first_output_line_is_kept() {
    let out = CommandOutput {
        success: true,
        stdout: b"\r\ntoken\r\nsecond line\n".to_vec(),
        stderr: Vec::new(),
    };
    // The first line is empty: nothing before the first line feed.
    assert_eq!(text(&secret_from_output(out).unwrap()), "");

    let out = CommandOutput {
        success: true,
        stdout: b"token\r\nsecond line\n".to_vec(),
        stderr: Vec::new(),
    };
    assert_eq!(text(&secret_from_output(out).unwrap()), "token");
}

#[test]
fn a_failed_command_reports_its_trimmed_output() {
    let out = CommandOutput {
        success: false,
        stdout: Vec::new(),
        stderr: b"  gpg: decryption failed \n".to_vec(),
    };
    match secret_from_output(out) {
        Err(err @ SecretError::Output(_)) => {
            assert_eq!(err.message(), "Secret command error: gpg: decryption failed")
        }
        other => panic!("unexpected {other:?}"),
    }

    let out = CommandOutput {
        success: false,
        stdout: b"on stdout\n".to_vec(),
        stderr: b"on stderr\n".to_vec(),
    };
    match secret_from_output(out) {
        Err(SecretError::Output(msg)) => assert_eq!(msg, "on stdout"),
        other => panic!("unexpected {other:?}"),
    }
}

#[test]
fn a_command_that_cannot_spawn_is_a_spawn_error() {
    let secret = Secret::Command(CommandConfig::Argv {
        program: String::from("/nonexistent/pimalaya-config-test-program"),
        args: Vec::new(),
    });
    let runs = Cell::new(0);
    match secret.get(|c: &CommandConfig| run_with(&runs, c)) {
        Err(err @ SecretError::Spawn(_)) => assert_eq!(err.message(), "Spawn secret command error"),
        other => panic!("unexpected {other:?}"),
    }
}

#[test]
fn a_failed_command_is_not_memoized() {
    let runs = Cell::new(0);
    let run = |c: &CommandConfig| run_with(&runs, c);
    let line = FLAKY;
    let mut resolver = SecretResolver::default();
    assert!(resolver.resolve(shell(&line), run).is_err());
    assert_eq!(text(&resolver.resolve(shell(&line), run).unwrap()), "ok");
    assert_eq!(text(&resolver.resolve(shell(&line), run).unwrap()), "ok");
    assert_eq!(runs.get(), 2);
}

#[test]
fn a_memoized_command_never_reaches_the_runner() {
    let mut resolver = SecretResolver::new();
    let first = resolver.resolve(shell("printf once"), |c: &CommandConfig| {
        run_with(&Cell::new(0), c)
    });
    assert_eq!(text(&first.unwrap()), "once");
    let again = resolver.resolve(shell("printf once"), |_: &CommandConfig| {
        Err(io::Error::new(io::ErrorKind::Other, "the runner is not called"))
    });
    assert_eq!(text(&again.unwrap()), "once");
}

//! A command as a configuration writes it, and the command line it
//! runs as.
//!
//! [`CommandConfig`] is the configured shape, kept as written: a shell
//! line, or a program and its arguments. It is what a field holding a
//! command should store, being comparable and cheap to clone. It becomes
//! a runnable [`CommandLine`] through [`CommandConfig::to_command`], at
//! the moment something runs it.
//!
//! Two written shapes are accepted ([`CommandShape`]):
//!
//! - a string, `cmd = "pass show foo"`, handed whole to the platform
//!   shell (`/bin/sh -c "<string>"` on Unix, `cmd /C "<string>"` on
//!   Windows);
//! - a sequence of strings, `cmd = ["pass", "show", "foo"]`: the
//!   program, then its arguments, with no shell involved.
//!
//! Empty inputs (empty string, blank string, empty sequence) are
//! refused. A [`CommandConfig`] writes back the shape it was read as; a
//! bare [`CommandLine`] recovers it: one built by [`shell`] is written
//! as its command line, any other as the program and its arguments.

use vstd::prelude::*;

use crate::text::{
    is_blank, is_blank_str, lemma_trimmed_empty_iff_blank, lemma_trimmed_idempotent, trim, trimmed,
};

verus! {

/// The platform a command runs on, which decides its shell.
#[derive(Clone, Copy, Debug, PartialEq, Eq)]
pub enum Platform {
    /// `/bin/sh -c <line>`.
    Unix,
    /// `cmd /C <line>`.
    Windows,
}

/// The errors of reading a command from its written shape.
#[derive(Clone, Copy, Debug, PartialEq, Eq)]
pub enum CommandError {
    /// An empty or blank string, or an empty sequence.
    Empty,
}

impl CommandError {
    /// The message of this error.
    pub fn message(&self) -> (res: String)
        ensures
            res@ == "command cannot be empty"@,
    {
        String::from_str("command cannot be empty")
    }
}

/// A command as a configuration writes it: a shell line, or a program
/// and its arguments.
///
/// The two are distinct values, and comparing them never crosses the
/// variants: a `Shell` line and the `Argv` spelling that runs it through
/// the platform shell do the same thing and are still not equal here.
#[derive(Debug, Hash)]
pub enum CommandConfig {
    /// A shell command line, run through the platform shell (see
    /// [`shell`]).
    Shell(String),
    /// A program and its arguments, run with no shell in between.
    Argv {
        /// The program to execute.
        program: String,
        /// Its arguments, empty for a program taking none.
        args: Vec<String>,
    },
}

/// The mathematical form of a [`CommandConfig`].
pub enum CommandSpec {
    Shell(Seq<char>),
    Argv(Seq<char>, Seq<Seq<char>>),
}

/// The texts of a sequence of strings.
pub open spec fn texts(v: Seq<String>) -> Seq<Seq<char>> {
    v.map_values(|s: String| s@)
}

impl View for CommandConfig {
    type V = CommandSpec;

    open spec fn view(&self) -> CommandSpec {
        match self {
            CommandConfig::Shell(line) => CommandSpec::Shell(line@),
            CommandConfig::Argv { program, args } => CommandSpec::Argv(program@, texts(args@)),
        }
    }
}

/// A copy of the strings of `v`.
pub fn copy_strings(v: &Vec<String>) -> (res: Vec<String>)
    ensures
        texts(res@) == texts(v@),
        res@.len() == v@.len(),
{
    let mut res: Vec<String> = Vec::new();
    let mut i: usize = 0;
    while i < v.len()
        invariant
            0 <= i <= v.len(),
            res@.len() == i,
            forall|k: int| 0 <= k < i ==> #[trigger] res@[k]@ == v@[k]@,
        decreases v.len() - i,
    {
        res.push(v[i].clone());
        i = i + 1;
    }
    assert(texts(res@) =~= texts(v@));
    res
}

/// Whether `a` and `b` hold the same strings, in order.
pub fn same_strings(a: &Vec<String>, b: &Vec<String>) -> (res: bool)
    ensures
        res == (texts(a@) == texts(b@)),
{
    if a.len() != b.len() {
        assert(texts(a@).len() != texts(b@).len());
        return false;
    }
    let mut i: usize = 0;
    while i < a.len()
        invariant
            a.len() == b.len(),
            0 <= i <= a.len(),
            forall|k: int| 0 <= k < i ==> #[trigger] a@[k]@ == b@[k]@,
        decreases a.len() - i,
    {
        if a[i] != b[i] {
            assert(texts(a@)[i as int] != texts(b@)[i as int]);
            return false;
        }
        i = i + 1;
    }
    assert(texts(a@) =~= texts(b@));
    true
}

impl Clone for CommandConfig {
    fn clone(&self) -> (res: Self)
        ensures
            res@ == self@,
    {
        match self {
            CommandConfig::Shell(line) => CommandConfig::Shell(line.clone()),
            CommandConfig::Argv { program, args } => CommandConfig::Argv {
                program: program.clone(),
                args: copy_strings(args),
            },
        }
    }
}

impl PartialEq for CommandConfig {
    fn eq(&self, other: &Self) -> (res: bool) {
        match (self, other) {
            (CommandConfig::Shell(a), CommandConfig::Shell(b)) => *a == *b,
            (
                CommandConfig::Argv { program: p, args: a },
                CommandConfig::Argv { program: q, args: b },
            ) => *p == *q && same_strings(a, b),
            _ => false,
        }
    }
}

impl vstd::std_specs::cmp::PartialEqSpecImpl for CommandConfig {
    open spec fn obeys_eq_spec() -> bool {
        true
    }

    open spec fn eq_spec(&self, other: &CommandConfig) -> bool {
        self@ == other@
    }
}

impl Eq for CommandConfig {

}

/// A runnable command: the program and the arguments it is spawned with.
#[derive(Clone, Debug, PartialEq, Eq)]
pub struct CommandLine {
    /// The program to execute.
    pub program: String,
    /// Its arguments.
    pub args: Vec<String>,
}

impl CommandLine {
    /// The texts of the program and of its arguments.
    pub open spec fn parts(&self) -> (Seq<char>, Seq<Seq<char>>) {
        (self.program@, texts(self.args@))
    }
}

/// The platform shell program and the flag that hands it a line.
pub open spec fn shell_parts(platform: Platform) -> (Seq<char>, Seq<char>) {
    match platform {
        Platform::Unix => ("/bin/sh"@, "-c"@),
        Platform::Windows => ("cmd"@, "/C"@),
    }
}

/// The command line that runs `line` through the platform shell.
pub open spec fn shell_spec(line: Seq<char>, platform: Platform) -> (Seq<char>, Seq<Seq<char>>) {
    (shell_parts(platform).0, seq![shell_parts(platform).1, line])
}

/// The command line a configured command runs as.
pub open spec fn command_spec(c: CommandSpec, platform: Platform) -> (Seq<char>, Seq<Seq<char>>) {
    match c {
        CommandSpec::Shell(line) => shell_spec(line, platform),
        CommandSpec::Argv(program, args) => (program, args),
    }
}

fn shell_program(platform: Platform) -> (res: (&'static str, &'static str))
    ensures
        (res.0@, res.1@) == shell_parts(platform),
{
    match platform {
        Platform::Unix => ("/bin/sh", "-c"),
        Platform::Windows => ("cmd", "/C"),
    }
}

/// Builds the command line that runs `line` through the platform shell:
/// `/bin/sh -c <line>` on Unix, `cmd /C <line>` on Windows.
pub fn shell(line: &str, platform: Platform) -> (res: CommandLine)
    ensures
        res.parts() == shell_spec(line@, platform),
{
    let (program, flag) = shell_program(platform);
    let mut args: Vec<String> = Vec::new();
    args.push(String::from_str(flag));
    args.push(String::from_str(line));
    let res = CommandLine { program: String::from_str(program), args };
    assert(texts(res.args@) =~= seq![flag@, line@]);
    res
}

impl CommandConfig {
    /// Builds the runnable command, which is where the platform shell
    /// enters for a [`Shell`](Self::Shell) line.
    pub fn to_command(&self, platform: Platform) -> (res: CommandLine)
        ensures
            res.parts() == command_spec(self@, platform),
    {
        match self {
            CommandConfig::Shell(line) => shell(line.as_str(), platform),
            CommandConfig::Argv { program, args } => CommandLine {
                program: program.clone(),
                args: copy_strings(args),
            },
        }
    }
}

/// Returns the bare command line when `program` and `args` are exactly
/// what [`shell`] produces on the platform (`/bin/sh -c <line>` on
/// Unix, `cmd /C <line>` on Windows).
pub fn shell_line<'a>(program: &str, args: &'a [String], platform: Platform) -> (res: Option<
    &'a str,
>)
    ensures
        match res {
            Some(line) => shell_spec(line@, platform) == (program@, texts(args@)),
            None => forall|line: Seq<char>| shell_spec(line, platform) != (program@, texts(args@)),
        },
{
    let (shell_program, shell_flag) = shell_program(platform);
    if args.len() == 2 && crate::text::same_text(program, shell_program)
        && crate::text::same_text(args[0].as_str(), shell_flag) {
        assert(texts(args@) =~= seq![args@[0]@, args@[1]@]);
        Some(args[1].as_str())
    } else {
        assert forall|line: Seq<char>| shell_spec(line, platform) != (program@, texts(args@)) by {
            if shell_spec(line, platform) == (program@, texts(args@)) {
                assert(texts(args@).len() == 2);
                assert(texts(args@)[0] == args@[0]@);
            }
        }
        None
    }
}

/// A command as a configuration file holds it: a string or a sequence
/// of strings.
#[derive(Debug)]
pub enum CommandShape {
    /// A shell command line.
    Line(String),
    /// A program followed by its arguments.
    Words(Vec<String>),
}

/// The mathematical form of a [`CommandShape`].
pub enum ShapeSpec {
    Line(Seq<char>),
    Words(Seq<Seq<char>>),
}

impl View for CommandShape {
    type V = ShapeSpec;

    open spec fn view(&self) -> ShapeSpec {
        match self {
            CommandShape::Line(l) => ShapeSpec::Line(l@),
            CommandShape::Words(w) => ShapeSpec::Words(texts(w@)),
        }
    }
}

/// The configured command a written shape reads as: a string is trimmed
/// and becomes a shell line, a sequence becomes a program and its
/// arguments; an empty one of either is refused.
pub open spec fn read_shape(shape: ShapeSpec) -> Result<CommandSpec, CommandError> {
    match shape {
        ShapeSpec::Line(l) => if is_blank(l) {
            Err(CommandError::Empty)
        } else {
            Ok(CommandSpec::Shell(trimmed(l)))
        },
        ShapeSpec::Words(w) => if w.len() == 0 {
            Err(CommandError::Empty)
        } else {
            Ok(CommandSpec::Argv(w[0], w.drop_first()))
        },
    }
}

/// The shape a configured command is written as.
pub open spec fn write_shape(c: CommandSpec) -> ShapeSpec {
    match c {
        CommandSpec::Shell(line) => ShapeSpec::Line(line),
        CommandSpec::Argv(program, args) => ShapeSpec::Words(seq![program] + args),
    }
}

/// The shape a runnable command is written as: its bare command line
/// when it is a shell command, the program and its arguments otherwise.
pub open spec fn write_command_line(parts: (Seq<char>, Seq<Seq<char>>), platform: Platform) -> ShapeSpec {
    if parts.1.len() == 2 && (parts.0, parts.1[0]) == shell_parts(platform) {
        ShapeSpec::Line(parts.1[1])
    } else {
        ShapeSpec::Words(seq![parts.0] + parts.1)
    }
}

impl CommandConfig {
    /// Reads a command from a string: the trimmed line, run through the
    /// platform shell; an empty or blank string is refused.
    pub fn from_line(v: &str) -> (res: Result<CommandConfig, CommandError>)
        ensures
            match res {
                Ok(c) => read_shape(ShapeSpec::Line(v@)) == Ok::<CommandSpec, CommandError>(c@),
                Err(e) => read_shape(ShapeSpec::Line(v@)) == Err::<CommandSpec, CommandError>(e),
            },
    {
        if is_blank_str(v) {
            return Err(CommandError::Empty);
        }
        Ok(CommandConfig::Shell(trim(v)))
    }

    /// Reads a command from a sequence of strings: the program, then its
    /// arguments; an empty sequence is refused.
    pub fn from_words(words: Vec<String>) -> (res: Result<CommandConfig, CommandError>)
        ensures
            match res {
                Ok(c) => read_shape(ShapeSpec::Words(texts(words@))) == Ok::<
                    CommandSpec,
                    CommandError,
                >(c@),
                Err(e) => read_shape(ShapeSpec::Words(texts(words@))) == Err::<
                    CommandSpec,
                    CommandError,
                >(e),
            },
    {
        let mut args = words;
        if args.len() == 0 {
            return Err(CommandError::Empty);
        }
        let ghost all = args@;
        let program = args.remove(0);
        assert(texts(args@) =~= texts(all).drop_first());
        Ok(CommandConfig::Argv { program, args })
    }

    /// Reads a command from its written shape.
    pub fn from_shape(shape: CommandShape) -> (res: Result<CommandConfig, CommandError>)
        ensures
            match res {
                Ok(c) => read_shape(shape@) == Ok::<CommandSpec, CommandError>(c@),
                Err(e) => read_shape(shape@) == Err::<CommandSpec, CommandError>(e),
            },
    {
        match shape {
            CommandShape::Line(l) => CommandConfig::from_line(l.as_str()),
            CommandShape::Words(w) => CommandConfig::from_words(w),
        }
    }

    /// The shape this command is written as: the one it was read as.
    pub fn to_shape(&self) -> (res: CommandShape)
        ensures
            res@ == write_shape(self@),
    {
        match self {
            CommandConfig::Shell(line) => CommandShape::Line(line.clone()),
            CommandConfig::Argv { program, args } => {
                let mut words: Vec<String> = Vec::new();
                words.push(program.clone());
                let rest = copy_strings(args);
                let mut i: usize = 0;
                while i < rest.len()
                    invariant
                        0 <= i <= rest.len(),
                        texts(rest@) == texts(args@),
                        words@.len() == i + 1,
                        texts(words@) == seq![program@] + texts(rest@).take(i as int),
                    decreases rest.len() - i,
                {
                    let ghost before = words@;
                    words.push(rest[i].clone());
                    assert(words@ == before.push(rest@[i as int]));
                    assert(texts(rest@)[i as int] == rest@[i as int]@);
                    assert(texts(rest@).take(i + 1) =~= texts(rest@).take(i as int).push(
                        rest@[i as int]@,
                    ));
                    assert(texts(words@) =~= texts(before).push(rest@[i as int]@));
                    assert(texts(words@) =~= seq![program@] + texts(rest@).take(i + 1));
                    i = i + 1;
                }
                assert(texts(rest@).take(i as int) =~= texts(rest@));
                CommandShape::Words(words)
            },
        }
    }
}

/// The shape a runnable command is written back as: its bare command
/// line when it is what [`shell`] builds, the program followed by its
/// arguments otherwise.
pub fn command_shape(cmd: &CommandLine, platform: Platform) -> (res: CommandShape)
    ensures
        res@ == write_command_line(cmd.parts(), platform),
{
    match shell_line(cmd.program.as_str(), cmd.args.as_slice(), platform) {
        Some(line) => {
            proof {
                assert(texts(cmd.args@)[1] == line@);
            }
            CommandShape::Line(String::from_str(line))
        },
        None => {
            let config = CommandConfig::Argv {
                program: cmd.program.clone(),
                args: copy_strings(&cmd.args),
            };
            proof {
                let parts = cmd.parts();
                if parts.1.len() == 2 && (parts.0, parts.1[0]) == shell_parts(platform) {
                    assert(shell_spec(parts.1[1], platform) =~= parts);
                }
            }
            config.to_shape()
        },
    }
}

/// A command read from a configuration is read back the same from the
/// shape it is written as.
pub proof fn lemma_written_command_reads_back(shape: ShapeSpec)
    ensures
        read_shape(shape) matches Ok(c) ==> read_shape(write_shape(c)) == Ok::<
            CommandSpec,
            CommandError,
        >(c),
{
    if let Ok(c) = read_shape(shape) {
        match shape {
            ShapeSpec::Line(l) => {
                lemma_trimmed_idempotent(l);
                lemma_trimmed_empty_iff_blank(l);
                lemma_trimmed_empty_iff_blank(trimmed(l));
            },
            ShapeSpec::Words(w) => {
                assert((seq![w[0]] + w.drop_first()).drop_first() =~= w.drop_first());
            },
        }
    }
}

/// A configured command writes back the shape it was read as, when that
/// shape was already in its written form: a non-empty sequence, or a
/// string with no white space at either end.
pub proof fn lemma_read_command_writes_back(shape: ShapeSpec)
    requires
        shape matches ShapeSpec::Line(l) ==> trimmed(l) == l && l.len() > 0,
        shape matches ShapeSpec::Words(w) ==> w.len() > 0,
    ensures
        read_shape(shape) matches Ok(c) && write_shape(c) == shape,
{
    match shape {
        ShapeSpec::Line(l) => {
            lemma_trimmed_empty_iff_blank(l);
        },
        ShapeSpec::Words(w) => {
            assert(seq![w[0]] + w.drop_first() =~= w);
        },
    }
}

/// A shell line and its argv spelling through the platform shell are two
/// distinct commands that run as the same command line.
pub proof fn lemma_shell_line_and_argv_spelling(line: Seq<char>, platform: Platform)
    ensures
        CommandSpec::Shell(line) != CommandSpec::Argv(
            shell_parts(platform).0,
            seq![shell_parts(platform).1, line],
        ),
        command_spec(CommandSpec::Shell(line), platform) == command_spec(
            CommandSpec::Argv(shell_parts(platform).0, seq![shell_parts(platform).1, line]),
            platform,
        ),
{
}

/// A runnable command written back and read again runs as the same
/// command line, unless it is a shell command whose line carries white
/// space at an end or is empty, which reading trims or refuses.
pub proof fn lemma_command_line_round_trip(parts: (Seq<char>, Seq<Seq<char>>), platform: Platform)
    requires
        write_command_line(parts, platform) matches ShapeSpec::Line(l) ==> trimmed(l) == l
            && l.len() > 0,
    ensures
        read_shape(write_command_line(parts, platform)) matches Ok(c) && command_spec(c, platform)
            == parts,
{
    let w = write_command_line(parts, platform);
    match w {
        ShapeSpec::Line(l) => {
            lemma_trimmed_empty_iff_blank(l);
            assert(shell_spec(l, platform) =~= parts);
        },
        ShapeSpec::Words(ws) => {
            assert(ws.drop_first() =~= parts.1);
        },
    }
}

} // verus!

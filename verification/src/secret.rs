//! Secret resolution from a config literal or a command.
//!
//! A [`Secret`] is either an inline value or a command whose standard
//! output holds the value; [`Secret::get`] resolves it lazily, running
//! the command only when the value is actually needed. The command side
//! is a [`CommandConfig`], the shape the configuration wrote, which is
//! what makes a secret comparable and cheap to clone.
//!
//! Running a command is the caller's: it hands the resolution a `run`
//! function that spawns the command line and collects its output, and
//! the resolution decides what that output means.
//!
//! [`SecretResolver`] is that same resolution, memoized: a command named
//! by several fields is run once for the whole resolver.

use vstd::prelude::*;

use crate::command::{CommandConfig, CommandSpec};
use crate::text::{before_newline, first_line, is_line_break, trim, trimmed, trim_by};

verus! {

/// A secret value: a `secrecy::SecretString`, zeroized when dropped and
/// redacted from `Debug`, held opaque.
#[verifier::external_body]
#[derive(Debug)]
pub struct SecretValue {
    pub inner: secrecy::SecretString,
}

/// The secret `secrecy::SecretString::from` makes of a text.
pub uninterp spec fn secret_of(text: Seq<char>) -> SecretValue;

/// The text `String::from_utf8_lossy` decodes from bytes, each invalid
/// sequence replaced by U+FFFD.
pub uninterp spec fn utf8_lossy(bytes: Seq<u8>) -> Seq<char>;

/// Wraps a text into a secret: `SecretString::from`.
///
/// Claims that the secret is the one [`secret_of`] names for the text:
/// it depends on the text alone.
#[verifier::external_body]
fn secret_from(text: String) -> (res: SecretValue)
    ensures
        res == secret_of(text@),
{
    SecretValue { inner: secrecy::SecretString::from(text) }
}

/// Copies a secret: `SecretString::clone`.
///
/// Claims that the copy holds the same secret as the original.
#[verifier::external_body]
fn copy_secret(s: &SecretValue) -> (res: SecretValue)
    ensures
        res == *s,
{
    SecretValue { inner: s.inner.clone() }
}

/// Decodes bytes as UTF-8, replacing what is not: `String::from_utf8_lossy`.
///
/// Claims only that the text is the one [`utf8_lossy`] names for the
/// bytes.
#[verifier::external_body]
fn lossy_text(bytes: &[u8]) -> (res: String)
    ensures
        res@ == utf8_lossy(bytes@),
{
    String::from_utf8_lossy(bytes).into_owned()
}

/// The errors raised while resolving a command-backed [`Secret`].
#[derive(Debug)]
pub enum SecretError {
    /// The secret command could not be spawned.
    Spawn(std::io::Error),
    /// Waiting for the secret command to exit failed.
    Wait(std::io::Error),
    /// The secret command exited with a non-zero status; the payload
    /// carries its trimmed standard error or output.
    Output(String),
}

impl SecretError {
    /// The message of this error.
    pub open spec fn message_spec(&self) -> Seq<char> {
        match self {
            SecretError::Spawn(_) => "Spawn secret command error"@,
            SecretError::Wait(_) => "Wait secret command error"@,
            SecretError::Output(out) => "Secret command error: "@ + out@,
        }
    }

    /// The message of this error.
    pub fn message(&self) -> (res: String)
        ensures
            res@ == self.message_spec(),
    {
        match self {
            SecretError::Spawn(_) => String::from_str("Spawn secret command error"),
            SecretError::Wait(_) => String::from_str("Wait secret command error"),
            SecretError::Output(out) => {
                let mut m = String::from_str("Secret command error: ");
                m.append(out.as_str());
                m
            },
        }
    }
}

/// What running a secret command gave: whether it exited successfully,
/// and its standard output and error.
#[derive(Debug)]
pub struct CommandOutput {
    pub success: bool,
    pub stdout: Vec<u8>,
    pub stderr: Vec<u8>,
}

/// The secret a successful command's output holds: the first line of its
/// standard output, carriage returns and line feeds trimmed off both
/// ends.
pub open spec fn output_secret(stdout: Seq<u8>) -> Seq<char> {
    trim_by(before_newline(utf8_lossy(stdout)), |c: char| is_line_break(c))
}

/// What a failed command reports: its trimmed standard output, or its
/// trimmed standard error when it wrote nothing on standard output.
pub open spec fn output_failure(stdout: Seq<u8>, stderr: Seq<u8>) -> Seq<char> {
    trimmed(
        utf8_lossy(
            if stdout.len() == 0 {
                stderr
            } else {
                stdout
            },
        ),
    )
}

/// Whether `res` is what resolving a command answers when running it
/// gave `run`.
pub open spec fn resolves_to(
    run: Result<CommandOutput, std::io::Error>,
    res: Result<SecretValue, SecretError>,
) -> bool {
    match run {
        Err(e) => res matches Err(SecretError::Spawn(f)) && f == e,
        Ok(out) => if out.success {
            res == Ok::<SecretValue, SecretError>(secret_of(output_secret(out.stdout@)))
        } else {
            res matches Err(SecretError::Output(m)) && m@ == output_failure(
                out.stdout@,
                out.stderr@,
            )
        },
    }
}

/// What a secret command's output resolves to: the first line of its
/// standard output when it succeeded, an [`SecretError::Output`] error
/// carrying its trimmed output otherwise.
pub fn secret_from_output(out: CommandOutput) -> (res: Result<
    SecretValue,
    SecretError,
>)
    ensures
        resolves_to(Ok(out), res),
{
    if !out.success {
        let bytes = if out.stdout.len() == 0 {
            out.stderr
        } else {
            out.stdout
        };
        let text = lossy_text(bytes.as_slice());
        let err = trim(text.as_str());
        return Err(SecretError::Output(err));
    }
    let text = lossy_text(out.stdout.as_slice());
    let line = first_line(text.as_str());
    Ok(secret_from(line))
}

/// What resolving a command answers, given what running it gave.
pub fn secret_from_run(run: Result<CommandOutput, std::io::Error>) -> (res: Result<
    SecretValue,
    SecretError,
>)
    ensures
        resolves_to(run, res),
{
    match run {
        Ok(out) => secret_from_output(out),
        Err(e) => Err(SecretError::Spawn(e)),
    }
}

/// A secret value sourced either from a literal in the config or from a
/// command's standard output.
///
/// [`Secret::get`] resolves the value at the moment it's needed and
/// caches nothing: a caller resolving the same command twice runs it
/// twice, which is what [`SecretResolver`] exists to avoid.
#[derive(Debug)]
pub enum Secret {
    /// A literal secret value read straight from the config.
    Raw(SecretValue),
    /// A command whose standard output is the secret value.
    Command(CommandConfig),
}

impl Clone for Secret {
    fn clone(&self) -> (res: Self)
        ensures
            match (self, res) {
                (Secret::Raw(a), Secret::Raw(b)) => a == b,
                (Secret::Command(a), Secret::Command(b)) => a@ == b@,
                _ => false,
            },
    {
        match self {
            Secret::Raw(s) => Secret::Raw(copy_secret(s)),
            Secret::Command(c) => Secret::Command(c.clone()),
        }
    }
}

impl Secret {
    /// Resolves the secret: a literal as it is, a command by running it
    /// through `run` and reading the first line of its output.
    ///
    /// Returns a [`SecretError`] when the command fails to spawn or
    /// exits with a non-zero status.
    pub fn get<F>(self, run: F) -> (res: Result<SecretValue, SecretError>) where
        F: FnOnce(&CommandConfig) -> Result<CommandOutput, std::io::Error>,

        requires
            self matches Secret::Command(c) ==> call_requires(run, (&c,)),
        ensures
            self matches Secret::Raw(s) ==> res == Ok::<SecretValue, SecretError>(s),
            self matches Secret::Command(c) ==> exists|r: Result<CommandOutput, std::io::Error>|
                call_ensures(run, (&c,), r) && resolves_to(r, res),
    {
        match self {
            Secret::Raw(secret) => Ok(secret),
            Secret::Command(config) => {
                let ran = run(&config);
                secret_from_run(ran)
            },
        }
    }
}

/// The memo of a resolver, as the map from each command it ran to the
/// secret it gave.
pub open spec fn memo_map(s: Seq<(CommandConfig, SecretValue)>) -> Map<
    CommandSpec,
    SecretValue,
>
    decreases s.len(),
{
    if s.len() == 0 {
        Map::empty()
    } else {
        memo_map(s.drop_last()).insert(s.last().0@, s.last().1)
    }
}

proof fn lemma_memo_map_lookup(s: Seq<(CommandConfig, SecretValue)>, k: CommandSpec)
    requires
        forall|i: int, j: int| 0 <= i < j < s.len() ==> (#[trigger] s[i]).0@ != (#[trigger] s[j]).0@,
    ensures
        memo_map(s).contains_key(k) == exists|i: int| 0 <= i < s.len() && (#[trigger] s[i]).0@ == k,
        forall|i: int| 0 <= i < s.len() && (#[trigger] s[i]).0@ == k ==> memo_map(s)[k] == s[i].1,
    decreases s.len(),
{
    if s.len() > 0 {
        let t = s.drop_last();
        lemma_memo_map_lookup(t, k);
        if s.last().0@ != k {
            if exists|i: int| 0 <= i < s.len() && (#[trigger] s[i]).0@ == k {
                let i = choose|i: int| 0 <= i < s.len() && (#[trigger] s[i]).0@ == k;
                assert(t[i] == s[i]);
            }
        }
        assert forall|i: int| 0 <= i < s.len() && (#[trigger] s[i]).0@ == k implies memo_map(s)[k]
            == s[i].1 by {
            if i < s.len() - 1 {
                assert(t[i] == s[i]);
                assert(s[i].0@ != s[s.len() - 1].0@);
            }
        }
    }
}

/// Resolves secrets while memoizing the commands it runs.
///
/// A configuration usually points several fields at one credential. A
/// resolver runs each distinct command once and hands its value to every
/// field naming it. Distinct is [`CommandConfig`]'s own equality, which
/// never crosses the two shapes.
///
/// The resolver holds the plaintext for as long as it lives, so it
/// belongs where a runtime account is assembled and should be dropped
/// with it.
#[derive(Debug)]
pub struct SecretResolver {
    resolved: Vec<(CommandConfig, SecretValue)>,
}

impl SecretResolver {
    #[verifier::type_invariant]
    spec fn distinct_commands(self) -> bool {
        forall|i: int, j: int|
            0 <= i < j < self.resolved@.len() ==> (#[trigger] self.resolved@[i]).0@ != (
            #[trigger] self.resolved@[j]).0@
    }

    /// The secret each command this resolver ran gave.
    pub closed spec fn memo(&self) -> Map<CommandSpec, SecretValue> {
        memo_map(self.resolved@)
    }

    /// Builds a resolver with an empty memo.
    pub fn new() -> (res: Self)
        ensures
            res.memo() == Map::<CommandSpec, SecretValue>::empty(),
    {
        SecretResolver { resolved: Vec::new() }
    }

    /// Resolves `secret`, reusing the value of an identical command this
    /// resolver already ran.
    ///
    /// A literal is returned as is: there is nothing to run and nothing
    /// to memoize. A command that was run before is not run again. Any
    /// other command is run through `run`, and remembered when it gives
    /// a secret.
    pub fn resolve<F>(&mut self, secret: Secret, run: F) -> (res: Result<
        SecretValue,
        SecretError,
    >) where F: FnOnce(&CommandConfig) -> Result<CommandOutput, std::io::Error>
        requires
            secret matches Secret::Command(c) ==> (!old(self).memo().contains_key(c@)
                ==> call_requires(run, (&c,))),
        ensures
            resolve_step(old(self).memo(), secret, run, res, final(self).memo()),
            old(self).memo().submap_of(final(self).memo()),
            secret matches Secret::Command(c) ==> (res matches Ok(v) ==> final(self).memo().contains_key(c@)
                && final(self).memo()[c@] == v),
    {
        proof {
            use_type_invariant(&*self);
        }
        let config = match secret {
            Secret::Raw(s) => {
                return Ok(s);
            },
            Secret::Command(config) => config,
        };
        let ghost memo = self.resolved@;
        proof {
            lemma_memo_map_lookup(memo, config@);
        }
        let mut i: usize = 0;
        #[verifier::loop_isolation(false)]
        while i < self.resolved.len()
            invariant
                0 <= i <= self.resolved@.len(),
                self.resolved@ == memo,
                forall|j: int| 0 <= j < i ==> (#[trigger] memo[j]).0@ != config@,
            decreases self.resolved@.len() - i,
        {
            if self.resolved[i].0 == config {
                let v = copy_secret(&self.resolved[i].1);
                return Ok(v);
            }
            i = i + 1;
        }
        let ran = run(&config);
        let res = secret_from_run(ran);
        match res {
            Ok(v) => {
                let kept = copy_secret(&v);
                let mut entries: Vec<(CommandConfig, SecretValue)> = Vec::new();
                std::mem::swap(&mut entries, &mut self.resolved);
                entries.push((config, kept));
                proof {
                    assert forall|i: int, j: int| 0 <= i < j < entries@.len() implies (
                    #[trigger] entries@[i]).0@ != (#[trigger] entries@[j]).0@ by {
                        if j < memo.len() {
                            assert(entries@[i] == memo[i]);
                            assert(entries@[j] == memo[j]);
                        } else {
                            assert(entries@[i] == memo[i]);
                        }
                    }
                }
                self.resolved = entries;
                proof {
                    assert(self.resolved@.drop_last() =~= memo);
                }
                Ok(v)
            },
            Err(e) => Err(e),
        }
    }
}

impl Default for SecretResolver {
    fn default() -> (res: Self)
        ensures
            res.memo() == Map::<CommandSpec, SecretValue>::empty(),
    {
        SecretResolver::new()
    }
}

/// One call of [`SecretResolver::resolve`]: on a resolver whose memo is
/// `before`, resolving `secret` through `run` may answer `res` and leave
/// the memo `after`.
///
/// A literal answers itself; a command in the memo answers its memoized
/// secret without being run; any other command is run once, answers
/// what its run gives, and is memoized when that is a secret.
pub open spec fn resolve_step<F: FnOnce(&CommandConfig) -> Result<CommandOutput, std::io::Error>>(
    before: Map<CommandSpec, SecretValue>,
    secret: Secret,
    run: F,
    res: Result<SecretValue, SecretError>,
    after: Map<CommandSpec, SecretValue>,
) -> bool {
    match secret {
        Secret::Raw(s) => res == Ok::<SecretValue, SecretError>(s) && after == before,
        Secret::Command(c) => if before.contains_key(c@) {
            res == Ok::<SecretValue, SecretError>(before[c@]) && after == before
        } else {
            exists|r: Result<CommandOutput, std::io::Error>|
                call_ensures(run, (&c,), r) && resolves_to(r, res) && match res {
                    Ok(v) => after == before.insert(c@, v),
                    Err(_) => after == before,
                }
        },
    }
}

/// A command a resolver has resolved is not run again: resolving the
/// same command a second time, whatever the runner handed over, answers
/// the secret the first time gave and leaves the memo as it was.
pub proof fn lemma_resolved_command_is_reused<
    F: FnOnce(&CommandConfig) -> Result<CommandOutput, std::io::Error>,
    G: FnOnce(&CommandConfig) -> Result<CommandOutput, std::io::Error>,
>(
    m0: Map<CommandSpec, SecretValue>,
    m1: Map<CommandSpec, SecretValue>,
    m2: Map<CommandSpec, SecretValue>,
    first: CommandConfig,
    second: CommandConfig,
    run1: F,
    run2: G,
    r1: Result<SecretValue, SecretError>,
    r2: Result<SecretValue, SecretError>,
)
    requires
        resolve_step(m0, Secret::Command(first), run1, r1, m1),
        r1 is Ok,
        second@ == first@,
        resolve_step(m1, Secret::Command(second), run2, r2, m2),
    ensures
        m1.contains_key(second@),
        r2 == r1,
        m2 == m1,
{
}

/// A resolution never forgets: every command the memo held before it is
/// still there, with the same secret, and a command that resolved to a
/// secret is in the memo afterwards with that secret.
pub proof fn lemma_resolve_keeps_memo<F: FnOnce(&CommandConfig) -> Result<CommandOutput, std::io::Error>>(
    before: Map<CommandSpec, SecretValue>,
    secret: Secret,
    run: F,
    res: Result<SecretValue, SecretError>,
    after: Map<CommandSpec, SecretValue>,
)
    requires
        resolve_step(before, secret, run, res, after),
    ensures
        before.submap_of(after),
        secret matches Secret::Command(c) ==> (res matches Ok(v) ==> after.contains_key(c@)
            && after[c@] == v),
{
}

/// A command resolved once is reused by every later resolution of it on
/// the same resolver, whatever was resolved in between: the third call
/// answers what the first gave, and leaves the memo as it was.
pub proof fn lemma_memo_survives_other_resolutions<
    F: FnOnce(&CommandConfig) -> Result<CommandOutput, std::io::Error>,
    G: FnOnce(&CommandConfig) -> Result<CommandOutput, std::io::Error>,
    H: FnOnce(&CommandConfig) -> Result<CommandOutput, std::io::Error>,
>(
    m0: Map<CommandSpec, SecretValue>,
    m1: Map<CommandSpec, SecretValue>,
    m2: Map<CommandSpec, SecretValue>,
    m3: Map<CommandSpec, SecretValue>,
    first: CommandConfig,
    between: Secret,
    again: CommandConfig,
    run1: F,
    run2: G,
    run3: H,
    r1: Result<SecretValue, SecretError>,
    r2: Result<SecretValue, SecretError>,
    r3: Result<SecretValue, SecretError>,
)
    requires
        resolve_step(m0, Secret::Command(first), run1, r1, m1),
        r1 is Ok,
        resolve_step(m1, between, run2, r2, m2),
        again@ == first@,
        resolve_step(m2, Secret::Command(again), run3, r3, m3),
    ensures
        r3 == r1,
        m3 == m2,
{
    lemma_resolve_keeps_memo(m0, Secret::Command(first), run1, r1, m1);
    lemma_resolve_keeps_memo(m1, between, run2, r2, m2);
    assert(m1.contains_key(first@));
    assert(m2.contains_key(again@));
}

} // verus!

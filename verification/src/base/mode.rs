//! Where the engine runs relative to training, and how that is decided.
//!
//! An explicit choice comes first, then the environment variable `EMRY_MODE`,
//! then detection: a remote shell or a batch job means a sidecar process, else
//! a terminal means an embedded engine, else events go to files only.
use crate::base::text;
use std::str::FromStr;
use vstd::prelude::*;
use vstd::string::*;

verus! {

/// Where the engine runs relative to the training process.
#[derive(Debug, Clone, Copy, PartialEq, Eq, Structural)]
pub enum DeployMode {
    /// In the training process.
    Embedded,
    /// In a process of its own, reached over a socket.
    Sidecar,
    /// Nowhere: events are written to files.
    File,
}

/// The text was not the name of a mode.
#[derive(Debug, PartialEq, Eq)]
pub struct ParseDeployModeError(pub String);

/// What decides the mode when nothing was chosen.
#[derive(Debug)]
pub struct DeployEnv {
    /// The value of `EMRY_MODE`, if set.
    pub emry_mode: Option<String>,
    /// Whether `SSH_CONNECTION` is set.
    pub ssh_connection: bool,
    /// Whether `SLURM_JOB_ID` is set.
    pub slurm_job_id: bool,
    /// Whether standard output is a terminal.
    pub stdout_is_tty: bool,
}

impl Default for DeployEnv {
    fn default() -> (env: DeployEnv)
        ensures
            env.emry_mode is None,
            !env.ssh_connection,
            !env.slurm_job_id,
            !env.stdout_is_tty,
    {
        DeployEnv {
            emry_mode: None,
            ssh_connection: false,
            slurm_job_id: false,
            stdout_is_tty: false,
        }
    }
}

/// A mode's name.
pub open spec fn mode_name(mode: DeployMode) -> Seq<char> {
    match mode {
        DeployMode::Embedded => "embedded"@,
        DeployMode::Sidecar => "sidecar"@,
        DeployMode::File => "file"@,
    }
}

/// The mode that a text names, whatever its case and the space around it.
pub open spec fn named_mode(s: Seq<char>) -> Option<DeployMode> {
    let word = text::ascii_lower(text::trimmed(s));
    if word == "embedded"@ {
        Some(DeployMode::Embedded)
    } else if word == "sidecar"@ {
        Some(DeployMode::Sidecar)
    } else if word == "file"@ {
        Some(DeployMode::File)
    } else {
        None
    }
}

/// A string in quotes, with its special characters escaped.
pub uninterp spec fn quoted(s: Seq<char>) -> Seq<char>;

/// The `Debug` form of `str`, as `format!("{:?}")` writes it. It depends on the
/// string alone; what it is is left to the name `quoted`.
#[verifier::external_body]
fn quote(s: &str) -> (r: String)
    ensures
        r@ == quoted(s@),
{
    format!("{:?}", s)
}

impl ParseDeployModeError {
    /// The message of the error.
    pub fn to_string(&self) -> (r: String)
        ensures
            r@ == "unrecognized deploy mode "@ + quoted(self.0@)
                + " (expected embedded, sidecar, or file)"@,
    {
        let mut out: String = text::joined("unrecognized deploy mode ", quote(self.0.as_str()).as_str());
        out.append(" (expected embedded, sidecar, or file)");
        out
    }
}

impl DeployMode {
    /// Reads a mode by name. White space around it and its case do not matter.
    pub fn parse(s: &str) -> (r: Result<DeployMode, ParseDeployModeError>)
        ensures
            match r {
                Ok(mode) => named_mode(s@) == Some(mode),
                Err(e) => named_mode(s@) is None && e.0@ == s@,
            },
    {
        proof {
            reveal_strlit("embedded");
            reveal_strlit("sidecar");
            reveal_strlit("file");
        }
        let word = text::lower_text(text::trim_text(s).as_str());
        if text::same(word.as_str(), "embedded") {
            Ok(DeployMode::Embedded)
        } else if text::same(word.as_str(), "sidecar") {
            Ok(DeployMode::Sidecar)
        } else if text::same(word.as_str(), "file") {
            Ok(DeployMode::File)
        } else {
            Err(ParseDeployModeError(s.to_owned()))
        }
    }

    /// The mode's name.
    pub fn to_string(&self) -> (r: String)
        ensures
            r@ == mode_name(*self),
    {
        match self {
            DeployMode::Embedded => "embedded".to_owned(),
            DeployMode::Sidecar => "sidecar".to_owned(),
            DeployMode::File => "file".to_owned(),
        }
    }

    /// The mode in effect: the explicit choice, else what `EMRY_MODE` names,
    /// else what is detected. A value of `EMRY_MODE` that names no mode is
    /// passed over.
    pub fn resolve(api: Option<DeployMode>, env: &DeployEnv) -> (r: DeployMode)
        ensures
            r == resolved(api, *env),
    {
        match api {
            Some(mode) => {
                return mode;
            },
            None => {},
        }
        match &env.emry_mode {
            Some(raw) => {
                match DeployMode::parse(raw.as_str()) {
                    Ok(mode) => {
                        return mode;
                    },
                    Err(_) => {},
                }
            },
            None => {},
        }
        env.auto_detect()
    }
}

impl FromStr for DeployMode {
    type Err = ParseDeployModeError;

    fn from_str(s: &str) -> (r: Result<DeployMode, ParseDeployModeError>)
        ensures
            match r {
                Ok(mode) => named_mode(s@) == Some(mode),
                Err(e) => named_mode(s@) is None && e.0@ == s@,
            },
    {
        DeployMode::parse(s)
    }
}

/// The mode that an environment suggests.
pub open spec fn detected(env: DeployEnv) -> DeployMode {
    if env.ssh_connection || env.slurm_job_id {
        DeployMode::Sidecar
    } else if env.stdout_is_tty {
        DeployMode::Embedded
    } else {
        DeployMode::File
    }
}

/// The mode in effect.
pub open spec fn resolved(api: Option<DeployMode>, env: DeployEnv) -> DeployMode {
    match api {
        Some(mode) => mode,
        None => {
            let from_variable = match env.emry_mode {
                Some(raw) => named_mode(raw@),
                None => None,
            };
            match from_variable {
                Some(mode) => mode,
                None => detected(env),
            }
        },
    }
}

impl DeployEnv {
    /// The mode that the environment alone suggests, `EMRY_MODE` aside.
    pub fn auto_detect(&self) -> (r: DeployMode)
        ensures
            r == detected(*self),
    {
        if self.ssh_connection || self.slurm_job_id {
            DeployMode::Sidecar
        } else if self.stdout_is_tty {
            DeployMode::Embedded
        } else {
            DeployMode::File
        }
    }
}

/// Every mode is read back from its own name.
pub proof fn names_read_back(mode: DeployMode)
    ensures
        named_mode(mode_name(mode)) == Some(mode),
{
    reveal_strlit("embedded");
    reveal_strlit("sidecar");
    reveal_strlit("file");
    let name = mode_name(mode);
    assert(text::trim_front(name) == name);
    assert(text::trim_back(name) == name);
    assert(text::ascii_lower(name) =~= name);
    assert("embedded"@.len() != "sidecar"@.len());
}

proof fn lemma_lower_trim_front(s: Seq<char>)
    ensures
        text::ascii_lower(text::trim_front(s)) == text::trim_front(text::ascii_lower(s)),
    decreases s.len(),
{
    let t = text::ascii_lower(s);
    if s.len() > 0 && text::is_space(s[0]) {
        lemma_lower_trim_front(s.skip(1));
        assert(text::ascii_lower(s.skip(1)) =~= t.skip(1));
    }
}

proof fn lemma_lower_trim_back(s: Seq<char>)
    ensures
        text::ascii_lower(text::trim_back(s)) == text::trim_back(text::ascii_lower(s)),
    decreases s.len(),
{
    let t = text::ascii_lower(s);
    if s.len() > 0 && text::is_space(s.last()) {
        lemma_lower_trim_back(s.drop_last());
        assert(text::ascii_lower(s.drop_last()) =~= t.drop_last());
    }
}

/// Case does not matter: texts that differ only in the case of ASCII letters
/// name the same mode.
pub proof fn case_does_not_matter(a: Seq<char>, b: Seq<char>)
    requires
        text::ascii_lower(a) == text::ascii_lower(b),
    ensures
        named_mode(a) == named_mode(b),
{
    lemma_lower_trim_front(a);
    lemma_lower_trim_front(b);
    lemma_lower_trim_back(text::trim_front(a));
    lemma_lower_trim_back(text::trim_front(b));
}

/// White space in front of a text or behind it does not matter.
pub proof fn surrounding_space_does_not_matter(s: Seq<char>, c: char)
    requires
        text::is_space(c),
    ensures
        named_mode(seq![c] + s) == named_mode(s),
        named_mode(s.push(c)) == named_mode(s),
{
    let front = seq![c] + s;
    assert(front.skip(1) =~= s);
    lemma_trim_push(s, c);
}

proof fn lemma_trim_push(s: Seq<char>, c: char)
    requires
        text::is_space(c),
    ensures
        text::trimmed(s.push(c)) == text::trimmed(s),
    decreases s.len(),
{
    let t = s.push(c);
    if s.len() == 0 {
        assert(t.skip(1) =~= s);
    } else if text::is_space(s[0]) {
        assert(t.skip(1) =~= s.skip(1).push(c));
        lemma_trim_push(s.skip(1), c);
    } else {
        assert(t.drop_last() =~= s);
    }
}

/// An explicit choice always wins. Without one, a variable that names a mode decides.
/// Otherwise a remote shell or a batch job means a sidecar, whatever the terminal; else a
/// terminal means an embedded engine, and without one events go to files.
pub proof fn choices_come_before_detection(api: Option<DeployMode>, env: DeployEnv)
    ensures
        api is Some ==> resolved(api, env) == api->0,
        api is None && env.emry_mode is Some && named_mode((env.emry_mode->0)@) is Some ==> resolved(
            api,
            env,
        ) == named_mode((env.emry_mode->0)@)->0,
        api is None && (env.emry_mode is Some ==> named_mode((env.emry_mode->0)@) is None) ==> {
            &&& resolved(api, env) == detected(env)
            &&& resolved(api, env) == DeployMode::Sidecar <==> env.ssh_connection
                || env.slurm_job_id
            &&& resolved(api, env) == DeployMode::Embedded <==> env.stdout_is_tty
                && !env.ssh_connection && !env.slurm_job_id
            &&& resolved(api, env) == DeployMode::File <==> !env.stdout_is_tty
                && !env.ssh_connection && !env.slurm_job_id
        },
{
}

/// A text names a mode exactly when, without the space around it and in lower case, it
/// is that mode's name; the names are `embedded`, `sidecar` and `file`.
pub proof fn only_names_are_read(s: Seq<char>, mode: DeployMode)
    ensures
        named_mode(s) == Some(mode) <==> text::ascii_lower(text::trimmed(s)) == (match mode {
            DeployMode::Embedded => seq!['e', 'm', 'b', 'e', 'd', 'd', 'e', 'd'],
            DeployMode::Sidecar => seq!['s', 'i', 'd', 'e', 'c', 'a', 'r'],
            DeployMode::File => seq!['f', 'i', 'l', 'e'],
        }),
        mode_name(mode) == (match mode {
            DeployMode::Embedded => seq!['e', 'm', 'b', 'e', 'd', 'd', 'e', 'd'],
            DeployMode::Sidecar => seq!['s', 'i', 'd', 'e', 'c', 'a', 'r'],
            DeployMode::File => seq!['f', 'i', 'l', 'e'],
        }),
{
    reveal_strlit("embedded");
    reveal_strlit("sidecar");
    reveal_strlit("file");
    assert("embedded"@ =~= seq!['e', 'm', 'b', 'e', 'd', 'd', 'e', 'd']);
    assert("sidecar"@ =~= seq!['s', 'i', 'd', 'e', 'c', 'a', 'r']);
    assert("file"@ =~= seq!['f', 'i', 'l', 'e']);
    assert("embedded"@.len() == 8 && "sidecar"@.len() == 7 && "file"@.len() == 4);
}

} // verus!

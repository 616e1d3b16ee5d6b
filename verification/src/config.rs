//! Configuration: the global settings of a user, and the remotes of a repository.
use vstd::prelude::*;
use vstd::string::*;
use crate::path::{push, push_spec};

verus! {

/// The name of the user that runs this process, as the system knows it.
#[verifier::external_body]
fn realname() -> (r: String) {
    whoami::realname()
}

/// The identity of an author of changes.
#[derive(Debug)]
pub struct Author {
    pub username: String,
    pub display_name: String,
    pub email: String,
    pub origin: String,
    pub key_path: Option<String>,
}

impl Default for Author {
    /// An author with no details, named after the user that runs this process.
    fn default() -> (r: Author)
        ensures
            r.username@.len() == 0,
            r.email@.len() == 0,
            r.origin@.len() == 0,
            r.key_path is None,
    {
        Author {
            username: String::new(),
            email: String::new(),
            display_name: realname(),
            origin: String::new(),
            key_path: None,
        }
    }
}

impl Author {
    /// A copy of this author.
    pub fn clone_author(&self) -> (r: Author)
        ensures
            r.username@ == self.username@,
            r.display_name@ == self.display_name@,
            r.email@ == self.email@,
            r.origin@ == self.origin@,
            r.key_path is Some <==> self.key_path is Some,
            r.key_path is Some ==> r.key_path.unwrap()@ == self.key_path.unwrap()@,
    {
        Author {
            username: self.username.clone(),
            display_name: self.display_name.clone(),
            email: self.email.clone(),
            origin: self.origin.clone(),
            key_path: match &self.key_path {
                Some(p) => Some(p.clone()),
                None => None,
            },
        }
    }
}

/// A setting with three values.
#[derive(Clone, Copy, Debug, PartialEq, Eq, Structural)]
pub enum Choice {
    Auto,
    Always,
    Never,
}

impl Default for Choice {
    fn default() -> (r: Choice)
        ensures
            r == Choice::Auto,
    {
        Choice::Auto
    }
}

/// Whether colours are used, for the setting `colors` (automatic when unset).
pub fn use_colors(colors: Option<Choice>) -> (r: bool)
    ensures
        r == !(colors == Some(Choice::Never)),
{
    let c = match colors {
        Some(c) => c,
        None => Choice::default(),
    };
    match c {
        Choice::Auto | Choice::Always => true,
        Choice::Never => false,
    }
}

/// The files of the templates of change messages and descriptions.
#[derive(Debug)]
pub struct Templates {
    pub message: Option<String>,
    pub description: Option<String>,
}

/// The global configuration of a user.
#[derive(Debug)]
pub struct Global {
    pub author: Author,
    pub unrecord_changes: Option<usize>,
    pub reset_overwrites_changes: Option<Choice>,
    pub colors: Option<Choice>,
    pub pager: Option<Choice>,
    pub template: Option<Templates>,
    pub ignore_kinds: Option<Vec<(String, Vec<String>)>>,
}

/// The name of the configuration directory in the home directory.
pub const GLOBAL_CONFIG_DIR: &'static str = ".pijulconfig";

/// The directory of the global configuration: the one given by the
/// environment if it gives one, else `pijul` in the system's configuration
/// directory, if there is one.
pub open spec fn global_config_dir_spec(from_env: Option<Seq<char>>, config_dir: Option<Seq<char>>) -> Option<Seq<char>> {
    match from_env {
        Some(d) => Some(d),
        None => match config_dir {
            Some(d) => Some(push_spec(d, "pijul"@)),
            None => None,
        },
    }
}

pub fn global_config_dir(from_env: Option<String>, config_dir: Option<String>) -> (r: Option<String>)
    ensures
        match global_config_dir_spec(
            match from_env {
                Some(d) => Some(d@),
                None => None,
            },
            match config_dir {
                Some(d) => Some(d@),
                None => None,
            },
        ) {
            Some(d) => r is Some && r.unwrap()@ == d,
            None => r is None,
        },
{
    match from_env {
        Some(d) => Some(d),
        None => match config_dir {
            Some(mut d) => {
                push(&mut d, "pijul");
                Some(d)
            },
            None => None,
        },
    }
}

/// A shell command, whose output is a value.
#[derive(Debug)]
pub struct Shell {
    pub shell: String,
}

/// The value of an HTTP header: a string, or the output of a command.
#[derive(Debug)]
pub enum RemoteHttpHeader {
    String(String),
    Shell(Shell),
}

/// A named remote of a repository.
#[derive(Debug)]
pub enum RemoteConfig {
    Ssh { name: String, ssh: String },
    Http { name: String, http: String, headers: Vec<(String, RemoteHttpHeader)> },
}

impl RemoteConfig {
    pub open spec fn spec_name(&self) -> Seq<char> {
        match self {
            RemoteConfig::Ssh { name, .. } => name@,
            RemoteConfig::Http { name, .. } => name@,
        }
    }

    /// The name of this remote.
    pub fn name(&self) -> (r: &str)
        ensures
            r@ == self.spec_name(),
    {
        match self {
            RemoteConfig::Ssh { name, .. } => name.as_str(),
            RemoteConfig::Http { name, .. } => name.as_str(),
        }
    }
}

/// The address of a remote reached through SSH.
#[derive(Debug)]
pub struct SshRemote {
    pub addr: String,
}

/// The default remote of a repository.
#[derive(Debug)]
pub enum Remote {
    Ssh(SshRemote),
    Local { local: String },
    Http { url: String },
    /// No remote is set.
    Empty,
}

/// A remote as written in a configuration file: at most one of the fields
/// is meant to be set.
#[derive(Debug)]
pub struct RawRemote {
    pub ssh: Option<SshRemote>,
    pub local: Option<String>,
    pub url: Option<String>,
}

/// The value of a remote, with its strings taken by value.
pub enum RemoteView {
    Ssh(Seq<char>),
    Local(Seq<char>),
    Http(Seq<char>),
    Empty,
}

/// The fields of a remote as written in a configuration file, taken by value.
pub open spec fn raw_view(r: RawRemote) -> (Option<Seq<char>>, Option<Seq<char>>, Option<Seq<char>>) {
    (
        match r.ssh {
            Some(s) => Some(s.addr@),
            None => None,
        },
        match r.local {
            Some(l) => Some(l@),
            None => None,
        },
        match r.url {
            Some(u) => Some(u@),
            None => None,
        },
    )
}

/// The remote that the fields of a configuration file give: the SSH
/// remote if it is set, else the local one, else the HTTP one.
pub open spec fn remote_of(raw: (Option<Seq<char>>, Option<Seq<char>>, Option<Seq<char>>)) -> RemoteView {
    match raw.0 {
        Some(s) => RemoteView::Ssh(s),
        None => match raw.1 {
            Some(l) => RemoteView::Local(l),
            None => match raw.2 {
                Some(u) => RemoteView::Http(u),
                None => RemoteView::Empty,
            },
        },
    }
}

/// The fields that a remote is written with: only its own is set.
pub open spec fn raw_of(v: RemoteView) -> (Option<Seq<char>>, Option<Seq<char>>, Option<Seq<char>>) {
    match v {
        RemoteView::Ssh(s) => (Some(s), None, None),
        RemoteView::Local(l) => (None, Some(l), None),
        RemoteView::Http(u) => (None, None, Some(u)),
        RemoteView::Empty => (None, None, None),
    }
}

impl Remote {
    pub open spec fn spec_view(&self) -> RemoteView {
        match self {
            Remote::Ssh(s) => RemoteView::Ssh(s.addr@),
            Remote::Local { local } => RemoteView::Local(local@),
            Remote::Http { url } => RemoteView::Http(url@),
            Remote::Empty => RemoteView::Empty,
        }
    }

    /// The remote that a configuration file gives.
    pub fn from_raw(r: RawRemote) -> (res: Remote)
        ensures
            res.spec_view() == remote_of(raw_view(r)),
    {
        match r.ssh {
            Some(ssh) => Remote::Ssh(ssh),
            None => match r.local {
                Some(local) => Remote::Local { local },
                None => match r.url {
                    Some(url) => Remote::Http { url },
                    None => Remote::Empty,
                },
            },
        }
    }

    /// How this remote is written in a configuration file.
    pub fn to_raw(&self) -> (r: RawRemote)
        ensures
            raw_view(r) == raw_of(self.spec_view()),
    {
        match self {
            Remote::Ssh(ssh) => RawRemote { ssh: Some(SshRemote { addr: ssh.addr.clone() }), local: None, url: None },
            Remote::Local { local } => RawRemote { local: Some(local.clone()), ssh: None, url: None },
            Remote::Http { url } => RawRemote { local: None, ssh: None, url: Some(url.clone()) },
            Remote::Empty => RawRemote { local: None, ssh: None, url: None },
        }
    }
}

/// Writing a remote to a configuration file and reading it back gives the remote.
pub proof fn lemma_remote_round_trip(v: RemoteView)
    ensures
        remote_of(raw_of(v)) == v,
{
}

} // verus!

//! The GNOME Files (Nautilus) right-click extension: "Send with Vireo" on
//! selected files opens a composer with them attached.
//!
//! Nautilus loads its extensions on the host, outside any sandbox, so the
//! bundled copy is installed into the user's own extension directory
//! on request and removed the same way. The extension itself launches Vireo by
//! desktop id, so it does not care whether the app is the Flatpak or a native
//! package.
//!
//! Nothing here touches a file. Each task is a series of steps: the caller does
//! what a step asks for and hands back how that went. Which text the bundled copy
//! has is the caller's to say. Paths are the bytes of Unix paths.

use crate::percent::{from_utf8_lossy, lossy_utf8};
use vstd::prelude::*;
use vstd::utf8::encode_utf8;

verus! {

/// The name of the extension's file.
pub const FILE_NAME: &'static str = "vireo-nautilus.py";

/// Whether (and which) copy of the extension the user's directory holds.
#[derive(Clone, Copy, Debug, PartialEq, Eq)]
pub enum Status {
    NotInstalled,
    /// The installed file is this build's copy.
    Installed,
    /// A file is installed but differs from this build's copy (an older
    /// release's, or edited by hand).
    Outdated,
}

/// What the platform says of the user.
pub struct Host {
    /// The app runs inside Flatpak.
    pub flatpak: bool,
    /// The user's home on the host.
    pub home: Option<Vec<u8>>,
    /// The user's data directory, as the app sees it.
    pub data: Option<Vec<u8>>,
}

/// The contents of a [`Host`].
pub struct HostView {
    pub flatpak: bool,
    pub home: Option<Seq<u8>>,
    pub data: Option<Seq<u8>>,
}

impl DeepView for Host {
    type V = HostView;

    open spec fn deep_view(&self) -> HostView {
        HostView {
            flatpak: self.flatpak,
            home: self.home.deep_view(),
            data: self.data.deep_view(),
        }
    }
}

/// A relative name below a directory.
pub open spec fn below(dir: Seq<u8>, name: Seq<u8>) -> Seq<u8> {
    if dir.len() == 0 || dir.last() == '/' as u8 {
        dir + name
    } else {
        dir.push('/' as u8) + name
    }
}

/// The extension directory of a user. Inside Flatpak the data directory is the
/// sandbox's own, so the host's default is used.
pub open spec fn dir_of(host: HostView) -> Option<Seq<u8>> {
    let base = if host.flatpak {
        match host.home {
            Some(home) => Some(below(home, encode_utf8(".local/share"@))),
            None => None,
        }
    } else {
        host.data
    };
    match base {
        Some(base) => Some(below(base, encode_utf8("nautilus-python/extensions"@))),
        None => None,
    }
}

/// The file of the extension.
pub open spec fn path_of(host: HostView) -> Option<Seq<u8>> {
    match dir_of(host) {
        Some(dir) => Some(below(dir, encode_utf8(FILE_NAME@))),
        None => None,
    }
}

/// What the bytes of the file say of the extension, given the text of this build's
/// copy; `None` where there is no file.
pub open spec fn status_of(file: Option<Seq<u8>>, source: Seq<char>) -> Status {
    match file {
        None => Status::NotInstalled,
        Some(bytes) => if bytes == encode_utf8(source) {
            Status::Installed
        } else {
            Status::Outdated
        },
    }
}

/// What to say of a step that failed on a path.
pub open spec fn failure(path: Seq<u8>, reason: Seq<char>) -> Seq<char> {
    lossy_utf8(path) + ": "@ + reason
}

/// How far asking for the status has come.
pub enum StatusStep {
    /// Read the file, then hand its bytes to [`status_at`].
    Read(Vec<u8>),
    /// There is nothing to read.
    Known(Status),
}

/// How far an installation has come.
pub enum InstallStep {
    /// Create this directory, with its parents; the file goes into it.
    CreateDir { dir: Vec<u8>, path: Vec<u8>, text: String },
    /// Write (or overwrite) the file with this text.
    Write { path: Vec<u8>, text: String },
    /// The file stands at this path, or why it does not.
    Done(Result<Vec<u8>, String>),
}

/// The contents of an [`InstallStep`].
pub enum InstallState {
    CreateDir { dir: Seq<u8>, path: Seq<u8>, text: Seq<char> },
    Write { path: Seq<u8>, text: Seq<char> },
    Done(Result<Seq<u8>, Seq<char>>),
}

/// How far a removal has come.
pub enum RemoveStep {
    /// Delete the file, then hand how that went to [`remove_at`].
    Delete(Vec<u8>),
    /// There is nothing to delete.
    Done,
}

/// How deleting a file went.
pub enum Deletion {
    Deleted,
    /// There was no such file.
    NotFound,
    /// It could not be deleted, for the reason given.
    Failed(String),
}

impl DeepView for InstallStep {
    type V = InstallState;

    open spec fn deep_view(&self) -> InstallState {
        match self {
            InstallStep::CreateDir { dir, path, text } => InstallState::CreateDir {
                dir: dir@,
                path: path@,
                text: text@,
            },
            InstallStep::Write { path, text } => InstallState::Write { path: path@, text: text@ },
            InstallStep::Done(Ok(path)) => InstallState::Done(Ok(path@)),
            InstallStep::Done(Err(error)) => InstallState::Done(Err(error@)),
        }
    }
}

/// The first step of an installation of that text.
pub open spec fn install_start(host: HostView, source: Seq<char>) -> InstallState {
    match (dir_of(host), path_of(host)) {
        (Some(dir), Some(path)) => InstallState::CreateDir { dir, path, text: source },
        _ => InstallState::Done(Err("no home directory"@)),
    }
}

/// The step after one that went as told: well, or not for the reason given.
pub open spec fn install_next(state: InstallState, failed: Option<Seq<char>>) -> InstallState {
    match (state, failed) {
        (InstallState::CreateDir { dir, path, text }, None) => InstallState::Write { path, text },
        (InstallState::CreateDir { dir, path, text }, Some(reason)) => InstallState::Done(
            Err(failure(dir, reason)),
        ),
        (InstallState::Write { path, text }, None) => InstallState::Done(Ok(path)),
        (InstallState::Write { path, text }, Some(reason)) => InstallState::Done(
            Err(failure(path, reason)),
        ),
        (InstallState::Done(outcome), _) => InstallState::Done(outcome),
    }
}

fn join(dir: &Vec<u8>, name: &str) -> (r: Vec<u8>)
    ensures
        r@ == below(dir@, encode_utf8(name@)),
{
    let mut r = dir.clone();
    assert(r@ == dir@);
    if r.len() > 0 && r[r.len() - 1] != '/' as u8 {
        r.push('/' as u8);
    }
    let ghost start = r@;
    r.extend_from_slice(name.as_bytes());
    assert(r@ == start + encode_utf8(name@));
    r
}

/// The per-user extension directory as Nautilus sees it. Inside Flatpak the
/// data directory is the sandbox's private one, so the host's default is
/// used (where the manifest mounts `xdg-data/nautilus-python/extensions`).
pub fn dir(host: &Host) -> (r: Option<Vec<u8>>)
    ensures
        r.deep_view() == dir_of(host.deep_view()),
{
    let base = if host.flatpak {
        match &host.home {
            Some(home) => join(home, ".local/share"),
            None => return None,
        }
    } else {
        match &host.data {
            Some(data) => data.clone(),
            None => return None,
        }
    };
    Some(join(&base, "nautilus-python/extensions"))
}

/// Where the extension is (or would be) installed.
pub fn path(host: &Host) -> (r: Option<Vec<u8>>)
    ensures
        r.deep_view() == path_of(host.deep_view()),
{
    match dir(host) {
        Some(dir) => Some(join(&dir, FILE_NAME)),
        None => None,
    }
}

/// What to say of a step that failed on a path.
fn failure_text(path: &Vec<u8>, reason: &str) -> (r: String)
    ensures
        r@ == failure(path@, reason@),
{
    let mut r = from_utf8_lossy(path.as_slice());
    r.append(": ");
    r.append(reason);
    r
}

/// Starts to find out whether the extension is installed.
pub fn status(host: &Host) -> (r: StatusStep)
    ensures
        match path_of(host.deep_view()) {
            Some(path) => r matches StatusStep::Read(read) && read@ == path,
            None => r == StatusStep::Known(Status::NotInstalled),
        },
{
    match path(host) {
        Some(path) => StatusStep::Read(path),
        None => StatusStep::Known(Status::NotInstalled),
    }
}

fn same_bytes(a: &[u8], b: &[u8]) -> (r: bool)
    ensures
        r == (a@ == b@),
{
    if a.len() != b.len() {
        return false;
    }
    let mut i: usize = 0;
    while i < a.len()
        invariant
            i <= a.len() == b.len(),
            forall|k: int| 0 <= k < i ==> a@[k] == b@[k],
        decreases a.len() - i,
    {
        if a[i] != b[i] {
            return false;
        }
        i = i + 1;
    }
    assert(a@ == b@);
    true
}

/// What the bytes of the file say, given the text of this build's copy; `None` where
/// there is no file. One that is not even text differs from this build's copy.
pub fn status_at(file: Option<&[u8]>, source: &str) -> (r: Status)
    ensures
        r == status_of(file.deep_view(), source@),
{
    match file {
        None => Status::NotInstalled,
        Some(bytes) => {
            assert(bytes.deep_view() == bytes@);
            if same_bytes(bytes, source.as_bytes()) {
                Status::Installed
            } else {
                Status::Outdated
            }
        },
    }
}

/// Starts to write (or overwrite) this build's copy of the extension, which has the
/// text given.
pub fn install(host: &Host, source: &str) -> (r: InstallStep)
    ensures
        r.deep_view() == install_start(host.deep_view(), source@),
{
    match dir(host) {
        Some(dir) => {
            let path = join(&dir, FILE_NAME);
            assert(dir.deep_view() == dir@);
            InstallStep::CreateDir { dir, path, text: source.to_owned() }
        },
        None => InstallStep::Done(Err("no home directory".to_owned())),
    }
}

impl InstallStep {
    /// The step after this one, given why this one failed, if it did.
    pub fn next(self, failed: Option<String>) -> (r: InstallStep)
        ensures
            r.deep_view() == install_next(self.deep_view(), failed.deep_view()),
    {
        match self {
            InstallStep::CreateDir { dir, path, text } => match failed {
                None => InstallStep::Write { path, text },
                Some(reason) => InstallStep::Done(Err(failure_text(&dir, reason.as_str()))),
            },
            InstallStep::Write { path, text } => match failed {
                None => InstallStep::Done(Ok(path)),
                Some(reason) => InstallStep::Done(Err(failure_text(&path, reason.as_str()))),
            },
            InstallStep::Done(outcome) => InstallStep::Done(outcome),
        }
    }
}

/// Starts to delete the installed copy, if any.
pub fn remove(host: &Host) -> (r: RemoveStep)
    ensures
        match path_of(host.deep_view()) {
            Some(path) => r matches RemoveStep::Delete(delete) && delete@ == path,
            None => r is Done,
        },
{
    match path(host) {
        Some(path) => RemoveStep::Delete(path),
        None => RemoveStep::Done,
    }
}

/// What deleting the file at a path came to. Deleting what is not there is
/// not an error.
pub fn remove_at(path: &Vec<u8>, deletion: Deletion) -> (r: Result<(), String>)
    ensures
        match deletion {
            Deletion::Deleted | Deletion::NotFound => r is Ok,
            Deletion::Failed(reason) => r matches Err(error) && error@ == failure(
                path@,
                reason@,
            ),
        },
{
    match deletion {
        Deletion::Deleted => Ok(()),
        Deletion::NotFound => Ok(()),
        Deletion::Failed(reason) => Err(failure_text(path, reason.as_str())),
    }
}

/// A call on the session bus that activates an action of an application.
pub struct BusCall {
    pub destination: &'static str,
    pub object: &'static str,
    pub interface: &'static str,
    pub method: &'static str,
    pub action: &'static str,
    /// The parameters of the action.
    pub parameters: Vec<String>,
    /// What the platform is told beside them, by name.
    pub platform_data: Vec<(String, String)>,
    /// Start the application where it is not running.
    pub auto_start: bool,
    pub timeout_ms: i32,
}

/// How a call on the bus ended.
pub enum BusReply {
    Answered,
    ServiceUnknown,
    NameHasNoOwner,
    /// Any other error, with its text.
    Failed(String),
}

/// The call that asks GNOME Files to quit (what `nautilus -q` does), so that its
/// next window opens with the extension loaded, or without it, once removed.
/// Nothing is started if Files is not running.
pub fn quit_files() -> (r: BusCall)
    ensures
        r.destination@ == "org.gnome.Nautilus"@,
        r.object@ == "/org/gnome/Nautilus"@,
        r.interface@ == "org.gtk.Actions"@,
        r.method@ == "Activate"@,
        r.action@ == "quit"@,
        r.parameters@.len() == 0,
        r.platform_data@.len() == 0,
        !r.auto_start,
        r.timeout_ms == 5000,
{
    BusCall {
        destination: "org.gnome.Nautilus",
        object: "/org/gnome/Nautilus",
        interface: "org.gtk.Actions",
        method: "Activate",
        action: "quit",
        parameters: Vec::new(),
        platform_data: Vec::new(),
        auto_start: false,
        timeout_ms: 5000,
    }
}

/// What the reply to [`quit_files`] means. Where Files is not running there is
/// nothing to restart, and nothing to report.
pub fn quit_answer(reply: BusReply) -> (r: Result<(), String>)
    ensures
        match reply {
            BusReply::Answered | BusReply::ServiceUnknown | BusReply::NameHasNoOwner => r is Ok,
            BusReply::Failed(reason) => r matches Err(error) && error@ == reason@,
        },
{
    match reply {
        BusReply::Answered => Ok(()),
        BusReply::ServiceUnknown => Ok(()),
        BusReply::NameHasNoOwner => Ok(()),
        BusReply::Failed(reason) => Err(reason),
    }
}

} // verus!

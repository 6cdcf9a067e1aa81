//! The extension for GNOME Files.

use crate::laws::percent::text_in_utf8_is_read_as_it_is;
use crate::nautilus_ext::{
    dir_of, install_next, install_start, path_of, status_of, FILE_NAME, HostView, InstallState,
    Status,
};
use crate::percent::lossy_utf8;
use vstd::prelude::*;
use vstd::utf8::*;

verus! {

/// The files of a user, by path, with their bytes.
pub type Files = Map<Seq<u8>, Seq<u8>>;

/// The files once a step of an installation is done.
pub open spec fn after_install_step(state: InstallState, files: Files) -> Files {
    match state {
        InstallState::Write { path, text } => files.insert(path, encode_utf8(text)),
        _ => files,
    }
}

/// The status that reading the files finds, given the text of this build's copy.
pub open spec fn status_in(host: HostView, files: Files, source: Seq<char>) -> Status {
    match path_of(host) {
        Some(path) => status_of(
            if files.contains_key(path) {
                Some(files[path])
            } else {
                None
            },
            source,
        ),
        None => Status::NotInstalled,
    }
}

/// Installing, where each step goes well, ends with this build's copy in place,
/// whatever was there before, and touches no other file.
pub proof fn an_installed_extension_reads_as_installed(
    host: HostView,
    files: Files,
    source: Seq<char>,
)
    requires
        path_of(host) is Some,
    ensures
        ({
            let create = install_start(host, source);
            let write = install_next(create, None);
            let done = install_next(write, None);
            let then = after_install_step(write, after_install_step(create, files));
            &&& done == InstallState::Done(Ok(path_of(host)->0))
            &&& status_in(host, then, source) == Status::Installed
            &&& then == files.insert(path_of(host)->0, encode_utf8(source))
        }),
{
}

/// Once the file is gone the extension reads as not installed.
pub proof fn a_removed_extension_reads_as_not_installed(
    host: HostView,
    files: Files,
    source: Seq<char>,
)
    requires
        path_of(host) is Some,
    ensures
        status_in(host, files.remove(path_of(host)->0), source) == Status::NotInstalled,
{
}

/// A file with any other bytes reads as outdated, one that is no text among them.
pub proof fn any_other_copy_reads_as_outdated(
    host: HostView,
    files: Files,
    source: Seq<char>,
    bytes: Seq<u8>,
)
    requires
        path_of(host) is Some,
        bytes != encode_utf8(source),
    ensures
        status_in(host, files.insert(path_of(host)->0, bytes), source) == Status::Outdated,
{
}

/// A copy with any other text, as another build installs it, reads as outdated.
pub proof fn another_build_reads_as_outdated(
    host: HostView,
    files: Files,
    source: Seq<char>,
    other: Seq<char>,
)
    requires
        path_of(host) is Some,
        other != source,
    ensures
        status_in(host, files.insert(path_of(host)->0, encode_utf8(other)), source)
            == Status::Outdated,
{
    encode_utf8_decode_utf8(other);
    encode_utf8_decode_utf8(source);
}

/// An installation with a failed step ends with an error.
pub proof fn a_failed_step_ends_the_installation(state: InstallState, reason: Seq<char>)
    requires
        !(state is Done),
    ensures
        install_next(state, Some(reason)) matches InstallState::Done(Err(_)),
{
}

/// The file lies in the extension directory itself.
pub proof fn the_file_lies_in_the_directory(host: HostView)
    ensures
        dir_of(host) is Some <==> path_of(host) is Some,
        path_of(host) matches Some(path) ==> path == dir_of(host)->0.push('/' as u8) + encode_utf8(
            FILE_NAME@,
        ),
{
    reveal_strlit("nautilus-python/extensions");
    let name = "nautilus-python/extensions"@;
    is_ascii_chars_encode_utf8(name);
    let bytes = encode_utf8(name);
    assert(name.last() == 's');
    assert(bytes.last() == 's' as u8);
}

/// Inside Flatpak the data directory, which is the sandbox's own, is not used;
/// outside it the home directory is not.
pub proof fn the_sandbox_has_no_say_in_the_directory(host: HostView, other: HostView)
    requires
        host.flatpak == other.flatpak,
        host.flatpak ==> host.home == other.home,
        !host.flatpak ==> host.data == other.data,
    ensures
        dir_of(host) == dir_of(other),
        path_of(host) == path_of(other),
{
}

/// A user's directory with a name below it, with one slash between them.
pub open spec fn slashed(base: Seq<u8>, name: Seq<char>) -> Seq<u8> {
    if base.len() > 0 && base.last() != '/' as u8 {
        base + seq!['/' as u8] + encode_utf8(name)
    } else {
        base + encode_utf8(name)
    }
}

proof fn lemma_ends_in_a_letter(base: Seq<u8>, name: Seq<char>)
    requires
        name == ".local/share"@ || name == "nautilus-python/extensions"@,
    ensures
        slashed(base, name).len() > 0,
        slashed(base, name).last() != '/' as u8,
{
    reveal_strlit(".local/share");
    reveal_strlit("nautilus-python/extensions");
    is_ascii_chars_encode_utf8(name);
    let bytes = encode_utf8(name);
    assert(bytes.last() == name.last() as u8);
    assert(slashed(base, name).last() == bytes.last());
}

/// The extension directory: below `.local/share` of the home inside Flatpak, and
/// below the data directory outside it. Without the one that counts there is none.
pub proof fn the_directory_lies_where_files_looks(host: HostView)
    ensures
        host.flatpak ==> dir_of(host) == match host.home {
            Some(home) => Some(
                slashed(home, ".local/share"@) + seq!['/' as u8] + encode_utf8(
                    "nautilus-python/extensions"@,
                ),
            ),
            None => None,
        },
        !host.flatpak ==> dir_of(host) == match host.data {
            Some(data) => Some(slashed(data, "nautilus-python/extensions"@)),
            None => None,
        },
{
    let name = encode_utf8("nautilus-python/extensions"@);
    if host.flatpak {
        if let Some(home) = host.home {
            let share = slashed(home, ".local/share"@);
            lemma_ends_in_a_letter(home, ".local/share"@);
            assert(home.push('/' as u8) == home + seq!['/' as u8]);
            assert(share.push('/' as u8) == share + seq!['/' as u8]);
        }
    } else if let Some(data) = host.data {
        assert(data.push('/' as u8) == data + seq!['/' as u8]);
    }
}

/// The first step of an installation creates the extension directory of the host,
/// and the file is to go into that directory under its own name, with the text that
/// is to be installed. Without a directory the installation ends there.
pub proof fn the_first_step_creates_the_directory_of_the_file(host: HostView, source: Seq<char>)
    ensures
        match dir_of(host) {
            Some(own) => install_start(host, source) matches InstallState::CreateDir {
                dir,
                path,
                text,
            } && {
                &&& dir == own
                &&& path == dir + seq!['/' as u8] + encode_utf8("vireo-nautilus.py"@)
                &&& path_of(host) == Some(path)
                &&& text == source
            },
            None => {
                &&& install_start(host, source) == InstallState::Done(Err("no home directory"@))
                &&& path_of(host) is None
            },
        },
{
    the_file_lies_in_the_directory(host);
    if let Some(dir) = dir_of(host) {
        assert(dir.push('/' as u8) == dir + seq!['/' as u8]);
    }
}

/// What stands before the last slash of a path, and nothing else.
pub open spec fn is_parent(dir: Seq<u8>, path: Seq<u8>) -> bool {
    &&& dir.len() < path.len()
    &&& path.take(dir.len() as int) == dir
    &&& path[dir.len() as int] == '/' as u8
    &&& forall|k: int| dir.len() < k < path.len() ==> #[trigger] path[k] != '/' as u8
}

/// A disk: its files with their bytes, and its directories.
pub struct Disk {
    pub files: Files,
    pub dirs: Set<Seq<u8>>,
}

/// A file can be written where a directory stands above its path and none at it.
pub open spec fn can_be_written(disk: Disk, path: Seq<u8>) -> bool {
    &&& !disk.dirs.contains(path)
    &&& exists|dir: Seq<u8>| #[trigger] disk.dirs.contains(dir) && is_parent(dir, path)
}

/// The disk once a step is done.
pub open spec fn disk_after(state: InstallState, disk: Disk) -> Disk {
    match state {
        InstallState::CreateDir { dir, path, text } => Disk {
            files: disk.files,
            dirs: disk.dirs.insert(dir),
        },
        InstallState::Write { path, text } => Disk {
            files: disk.files.insert(path, encode_utf8(text)),
            dirs: disk.dirs,
        },
        InstallState::Done(_) => disk,
    }
}

proof fn lemma_file_name_has_no_slash()
    ensures
        forall|k: int|
            0 <= k < encode_utf8("vireo-nautilus.py"@).len() ==> #[trigger] encode_utf8(
                "vireo-nautilus.py"@,
            )[k] != '/' as u8,
{
    reveal_strlit("vireo-nautilus.py");
    let name = "vireo-nautilus.py"@;
    is_ascii_chars_encode_utf8(name);
    assert forall|k: int| 0 <= k < encode_utf8(name).len() implies #[trigger] encode_utf8(name)[k]
        != '/' as u8 by {
        assert(encode_utf8(name)[k] == name[k] as u8);
        assert(name[k] != '/');
        assert('\0' <= name[k] <= '\u{7f}');
    }
}

/// Once the first step is done the second can be: the directory that was created is
/// the one the file goes into, and it does not stand where the file goes. The two
/// steps leave the text in the file, and every other file and directory as it was.
pub proof fn the_created_directory_lets_the_file_be_written(
    host: HostView,
    source: Seq<char>,
    disk: Disk,
)
    requires
        path_of(host) matches Some(path) && !disk.dirs.contains(path),
    ensures
        ({
            let create = install_start(host, source);
            let made = disk_after(create, disk);
            let write = install_next(create, None);
            let written = disk_after(write, made);
            let path = path_of(host)->0;
            &&& can_be_written(made, path)
            &&& write == (InstallState::Write { path, text: source })
            &&& written.files == disk.files.insert(path, encode_utf8(source))
            &&& written.dirs == disk.dirs.insert(dir_of(host)->0)
        }),
{
    let path = path_of(host)->0;
    let create = install_start(host, source);
    let made = disk_after(create, disk);
    the_first_step_creates_the_directory_of_the_file(host, source);
    lemma_file_name_has_no_slash();
    let dir = dir_of(host)->0;
    let name = encode_utf8("vireo-nautilus.py"@);
    let n = dir.len() as int;
    assert(path == dir + seq!['/' as u8] + name);
    assert(path.take(n) == dir);
    assert forall|k: int| n < k < path.len() implies #[trigger] path[k] != '/' as u8 by {
        assert(path[k] == name[k - n - 1]);
    }
    assert(is_parent(dir, path));
    assert(made.dirs.contains(dir));
    assert(dir.len() != path.len());
}

/// A step that fails ends the installation with the path it failed on and the
/// reason: the directory where it could not be created, the file where it could not
/// be written. What is done stays done.
pub proof fn a_failure_names_the_path_and_the_reason(
    dir: Seq<char>,
    path: Seq<char>,
    text: Seq<char>,
    reason: Seq<char>,
    outcome: Result<Seq<u8>, Seq<char>>,
    failed: Option<Seq<char>>,
)
    ensures
        install_next(
            InstallState::CreateDir { dir: encode_utf8(dir), path: encode_utf8(path), text },
            Some(reason),
        ) == InstallState::Done(Err(dir + seq![':', ' '] + reason)),
        install_next(InstallState::Write { path: encode_utf8(path), text }, Some(reason))
            == InstallState::Done(Err(path + seq![':', ' '] + reason)),
        install_next(InstallState::Done(outcome), failed) == InstallState::Done(outcome),
{
    text_in_utf8_is_read_as_it_is(dir);
    text_in_utf8_is_read_as_it_is(path);
    reveal_strlit(": ");
    assert(": "@ == seq![':', ' ']);
}

/// A path that is not UTF-8 is named as far as it can be read.
pub proof fn a_failure_names_every_path(
    dir: Seq<u8>,
    path: Seq<u8>,
    text: Seq<char>,
    reason: Seq<char>,
)
    ensures
        install_next(InstallState::CreateDir { dir, path, text }, Some(reason))
            == InstallState::Done(Err(lossy_utf8(dir) + seq![':', ' '] + reason)),
        install_next(InstallState::Write { path, text }, Some(reason)) == InstallState::Done(
            Err(lossy_utf8(path) + seq![':', ' '] + reason),
        ),
{
    reveal_strlit(": ");
    assert(": "@ == seq![':', ' ']);
}

/// A step that goes well leads on: the directory to the file with its text, and the
/// file to the end, which tells where it stands.
pub proof fn a_step_that_goes_well_leads_on(dir: Seq<u8>, path: Seq<u8>, text: Seq<char>)
    ensures
        ({
            let write = install_next(InstallState::CreateDir { dir, path, text }, None);
            &&& write == (InstallState::Write { path, text })
            &&& install_next(write, None) == InstallState::Done(Ok(path))
        }),
{
}

/// The copy is this build's where its bytes are those of the text, another where
/// they differ in any, and none where there is no file.
pub proof fn the_bytes_of_the_copy_tell_its_status(source: Seq<char>, file: Option<Seq<u8>>)
    ensures
        status_of(file, source) == Status::NotInstalled <==> file is None,
        status_of(file, source) == Status::Installed <==> file == Some(encode_utf8(source)),
        status_of(file, source) == Status::Outdated <==> (file matches Some(bytes) && bytes
            != encode_utf8(source)),
{
}

} // verus!

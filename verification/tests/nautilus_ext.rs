use std::collections::HashMap;
use vireo_mail::nautilus_ext::{
    dir, install, path, quit_answer, quit_files, remove, remove_at, status, status_at, BusReply,
    Deletion, Host, InstallStep, RemoveStep, Status, StatusStep, FILE_NAME,
};

/// What stands for this build's copy here.
const SOURCE: &str = "# caf\u{e9}\nprint(\"Send with Vireo\")\n";

type Files = HashMap<Vec<u8>, Vec<u8>>;

fn host(flatpak: bool, home: Option<&str>, data: Option<&str>) -> Host {
    let bytes = |s: &str| s.as_bytes().to_vec();
    Host { flatpak, home: home.map(bytes), data: data.map(bytes) }
}

fn status_in(host: &Host, files: &Files) -> Status {
    match status(host) {
        StatusStep::Read(path) => status_at(files.get(&path).map(|bytes| bytes.as_slice()), SOURCE),
        StatusStep::Known(status) => status,
    }
}

fn install_in(host: &Host, files: &mut Files) -> Result<Vec<u8>, String> {
    let mut step = install(host, SOURCE);
    loop {
        match &step {
            InstallStep::CreateDir { .. } => {}
            InstallStep::Write { path, text } => {
                files.insert(path.clone(), text.as_bytes().to_vec());
            }
            InstallStep::Done(outcome) => return outcome.clone(),
        }
        step = step.next(None);
    }
}

fn remove_in(host: &Host, files: &mut Files) -> Result<(), String> {
    match remove(host) {
        RemoveStep::Done => Ok(()),
        RemoveStep::Delete(path) => {
            let deletion = match files.remove(&path) {
                Some(_) => Deletion::Deleted,
                None => Deletion::NotFound,
            };
            remove_at(&path, deletion)
        }
    }
}

#[test]
fn install_status_remove_round_trip() {
    let host = host(false, None, Some("/tmp/vireo-nautilus-ext"));
    let mut files = Files::new();
    assert_eq!(status_in(&host, &files), Status::NotInstalled);
    let path = install_in(&host, &mut files).unwrap();
    assert_eq!(status_in(&host, &files), Status::Installed);
    assert_eq!(files[&path], SOURCE.as_bytes());
    // An older release's copy (anything that differs) reads as outdated.
    files.insert(path, b"# something else\n".to_vec());
    assert_eq!(status_in(&host, &files), Status::Outdated);
    remove_in(&host, &mut files).unwrap();
    assert_eq!(status_in(&host, &files), Status::NotInstalled);
    // Removing what is not there is not an error.
    remove_in(&host, &mut files).unwrap();
}

#[test]
fn a_file_that_differs_in_any_byte_is_outdated() {
    assert_eq!(status_at(None, SOURCE), Status::NotInstalled);
    assert_eq!(status_at(Some(SOURCE.as_bytes()), SOURCE), Status::Installed);
    assert_eq!(status_at(Some(b""), SOURCE), Status::Outdated);
    // No text in UTF-8.
    assert_eq!(status_at(Some(b"\xff"), SOURCE), Status::Outdated);
    let mut bytes = SOURCE.as_bytes().to_vec();
    bytes.push(b'\n');
    assert_eq!(status_at(Some(&bytes), SOURCE), Status::Outdated);
    bytes.pop();
    bytes[7] ^= 1;
    assert_eq!(status_at(Some(&bytes), SOURCE), Status::Outdated);
}

#[test]
fn the_directory_is_the_hosts() {
    let native = host(false, Some("/home/u"), Some("/data/"));
    assert_eq!(dir(&native).unwrap(), b"/data/nautilus-python/extensions".to_vec());
    let sandboxed = host(true, Some("/home/u"), Some("/data"));
    assert_eq!(
        dir(&sandboxed).unwrap(),
        b"/home/u/.local/share/nautilus-python/extensions".to_vec()
    );
    assert_eq!(dir(&host(false, None, Some(""))).unwrap(), b"nautilus-python/extensions".to_vec());
    assert_eq!(
        path(&sandboxed).unwrap(),
        format!("/home/u/.local/share/nautilus-python/extensions/{FILE_NAME}").into_bytes()
    );
    assert_eq!(dir(&host(true, None, Some("/data"))), None);
    assert_eq!(path(&host(false, Some("/home/u"), None)), None);
}

#[test]
fn paths_are_joined_as_the_standard_library_does() {
    for base in ["", "/", "/a", "/a/", "a//", "/a/b"] {
        let joined = std::path::Path::new(base).join("nautilus-python/extensions").join(FILE_NAME);
        let ours = path(&host(false, None, Some(base))).unwrap();
        assert_eq!(ours, joined.to_str().unwrap().as_bytes().to_vec());
        let ours = dir(&host(false, None, Some(base))).unwrap();
        assert_eq!(ours, joined.parent().unwrap().to_str().unwrap().as_bytes().to_vec());
    }
}

#[test]
fn without_a_home_nothing_is_done() {
    let nowhere = host(true, None, None);
    let mut files = Files::new();
    assert_eq!(status_in(&nowhere, &files), Status::NotInstalled);
    assert_eq!(install_in(&nowhere, &mut files), Err("no home directory".to_string()));
    assert_eq!(remove_in(&nowhere, &mut files), Ok(()));
    assert!(files.is_empty());
}

#[test]
fn a_failed_step_says_on_which_path() {
    let host = host(false, None, Some("/d"));
    let step = install(&host, SOURCE).next(Some("denied".to_string()));
    match step {
        InstallStep::Done(Err(error)) => {
            assert_eq!(error, "/d/nautilus-python/extensions: denied");
        }
        _ => panic!("a failed step is the last"),
    }
    let step = install(&host, SOURCE).next(None).next(Some("full".to_string()));
    match step.next(None) {
        InstallStep::Done(Err(error)) => {
            assert_eq!(error, "/d/nautilus-python/extensions/vireo-nautilus.py: full");
        }
        _ => panic!("a failed step is the last"),
    }
    assert_eq!(
        remove_at(&b"/x\xff".to_vec(), Deletion::Failed("busy".to_string())),
        Err("/x\u{fffd}: busy".to_string())
    );
}

#[test]
fn files_is_asked_to_quit_and_not_started() {
    let call = quit_files();
    assert_eq!(call.destination, "org.gnome.Nautilus");
    assert_eq!(call.object, "/org/gnome/Nautilus");
    assert_eq!((call.interface, call.method, call.action), ("org.gtk.Actions", "Activate", "quit"));
    assert!(call.parameters.is_empty() && call.platform_data.is_empty());
    assert!(!call.auto_start);
    assert_eq!(call.timeout_ms, 5000);
    assert_eq!(quit_answer(BusReply::Answered), Ok(()));
    assert_eq!(quit_answer(BusReply::ServiceUnknown), Ok(()));
    assert_eq!(quit_answer(BusReply::NameHasNoOwner), Ok(()));
    assert_eq!(quit_answer(BusReply::Failed("no bus".to_string())), Err("no bus".to_string()));
}

//! What the calls of the library give back, in terms of what they are given.

use crate::mailto::{parse_mailto, target_of, MailtoTarget};
use crate::message::{HeaderText, Message, MessageText};
use crate::models::Unsubscribe;
use crate::nautilus_ext::{
    dir, dir_of, install, install_next, install_start, path, path_of, quit_answer, quit_files,
    remove, remove_at, status, status_at, BusCall, BusReply, Deletion, Host, HostView, InstallState,
    InstallStep, RemoveStep, Status, StatusStep,
};
use crate::one_click::{one_click_answer, one_click_post, OneClickRequest, PostReply};
use crate::percent::{decoded, lossy_utf8, percent_decode};
use crate::text::{begins_but_case, decimal};
use crate::unsubscribe::{
    angle_handles, detect, from_headers, handles, header_values, list_id_of, list_key, offers_in,
    offers_of, raw_header_values, unfold, unfolded,
};
use vstd::prelude::*;
use vstd::utf8::encode_utf8;

verus! {

/// A handle gets a request exactly where it is https. The request goes to the handle
/// as it is, under the user agent given, with the one promised field and twenty
/// seconds to be answered; any other handle is told that it is not https.
pub proof fn a_request_is_made_for_https_handles_alone(
    url: &str,
    user_agent: &str,
    r: Result<OneClickRequest, String>,
)
    requires
        call_ensures(one_click_post, (url, user_agent), r),
    ensures
        r is Ok <==> begins_but_case(url@, "https://"@),
        r matches Ok(request) ==> {
            &&& request.url@ == url@
            &&& request.user_agent@ == user_agent@
            &&& request.field@ == "List-Unsubscribe"@
            &&& request.value@ == "One-Click"@
            &&& request.timeout_secs == 20
        },
        r matches Err(error) ==> error@
            == "the list's unsubscribe handle is not an https address"@,
{
}

/// The list took the request exactly where its server answered with a 2xx status. Any
/// other status is told to the user, and so is the reason why no answer came.
pub proof fn a_request_is_taken_by_a_2xx_answer_alone(reply: PostReply, r: Result<(), String>)
    requires
        call_ensures(one_click_answer, (reply,), r),
    ensures
        r is Ok <==> (reply matches PostReply::Answered(code) && 200 <= code <= 299),
        r matches Err(error) ==> error@ == match reply {
            PostReply::Answered(code) => "the list's server answered "@ + decimal(code as nat),
            PostReply::Failed(reason) => reason@,
        },
{
}

/// Files is asked to quit, with no other argument, and is not started for it.
pub proof fn files_is_asked_to_quit_and_not_started(call: BusCall)
    requires
        call_ensures(quit_files, (), call),
    ensures
        call.destination@ == "org.gnome.Nautilus"@,
        call.object@ == "/org/gnome/Nautilus"@,
        call.interface@ == "org.gtk.Actions"@,
        call.method@ == "Activate"@,
        call.action@ == "quit"@,
        call.parameters@.len() == 0,
        call.platform_data@.len() == 0,
        !call.auto_start,
        call.timeout_ms == 5000,
{
}

/// Only an error other than that Files is not running is reported, as it is.
pub proof fn files_that_is_not_running_is_no_error(reply: BusReply, r: Result<(), String>)
    requires
        call_ensures(quit_answer, (reply,), r),
    ensures
        r is Err <==> reply is Failed,
        r matches Err(error) ==> reply matches BusReply::Failed(reason) && error@ == reason@,
{
}

/// What the platform says of a user, by its own fields.
pub open spec fn host_view(host: Host) -> HostView {
    HostView {
        flatpak: host.flatpak,
        home: match host.home {
            Some(home) => Some(home@),
            None => None,
        },
        data: match host.data {
            Some(data) => Some(data@),
            None => None,
        },
    }
}

proof fn lemma_host_view(host: Host)
    ensures
        host.deep_view() == host_view(host),
{
    if let Some(home) = host.home {
        assert(home.deep_view() == home@);
    }
    if let Some(data) = host.data {
        assert(data.deep_view() == data@);
    }
}

/// The directory and the path are given out as they are.
pub proof fn the_directory_and_the_path_are_given_out(
    host: Host,
    own_dir: Option<Vec<u8>>,
    own_path: Option<Vec<u8>>,
)
    requires
        call_ensures(dir, (&host,), own_dir),
        call_ensures(path, (&host,), own_path),
    ensures
        dir_of(host_view(host)) == match own_dir {
            Some(bytes) => Some(bytes@),
            None => None,
        },
        path_of(host_view(host)) == match own_path {
            Some(bytes) => Some(bytes@),
            None => None,
        },
{
    lemma_host_view(host);
    if let Some(bytes) = own_dir {
        assert(bytes.deep_view() == bytes@);
    }
    if let Some(bytes) = own_path {
        assert(bytes.deep_view() == bytes@);
    }
}

/// The status is read from the file at the path and removing deletes that file;
/// without a path there is nothing to read and nothing to delete.
pub proof fn the_file_at_the_path_is_read_and_deleted(
    host: Host,
    read: StatusStep,
    delete: RemoveStep,
)
    requires
        call_ensures(status, (&host,), read),
        call_ensures(remove, (&host,), delete),
    ensures
        match path_of(host_view(host)) {
            Some(own) => {
                &&& read matches StatusStep::Read(bytes) && bytes@ == own
                &&& delete matches RemoveStep::Delete(bytes) && bytes@ == own
            },
            None => {
                &&& read matches StatusStep::Known(known) && known == Status::NotInstalled
                &&& delete is Done
            },
        },
{
    lemma_host_view(host);
}

/// A copy is this build's where its bytes are those of the text, and another where
/// they differ in any; no file is no copy.
pub proof fn a_copy_is_known_by_its_bytes(file: Option<&[u8]>, source: &str, r: Status)
    requires
        call_ensures(status_at, (file, source), r),
    ensures
        match file {
            Some(bytes) => r == if bytes@ == encode_utf8(source@) {
                Status::Installed
            } else {
                Status::Outdated
            },
            None => r == Status::NotInstalled,
        },
{
    if let Some(bytes) = file {
        assert(bytes.deep_view() == bytes@);
    }
}

/// The state that a step of an installation stands for, by its own fields.
pub open spec fn step_view(step: InstallStep) -> InstallState {
    match step {
        InstallStep::CreateDir { dir, path, text } => InstallState::CreateDir {
            dir: dir@,
            path: path@,
            text: text@,
        },
        InstallStep::Write { path, text } => InstallState::Write { path: path@, text: text@ },
        InstallStep::Done(Ok(path)) => InstallState::Done(Ok(path@)),
        InstallStep::Done(Err(error)) => InstallState::Done(Err(error@)),
    }
}

/// An installation starts with its first step, and each step is followed by its
/// next.
pub proof fn an_installation_goes_step_by_step(
    host: Host,
    source: &str,
    start: InstallStep,
    step: InstallStep,
    failed: Option<String>,
    then: InstallStep,
)
    requires
        call_ensures(install, (&host, source), start),
        call_ensures(InstallStep::next, (step, failed), then),
    ensures
        step_view(start) == install_start(host_view(host), source@),
        step_view(then) == install_next(
            step_view(step),
            match failed {
                Some(reason) => Some(reason@),
                None => None,
            },
        ),
{
    lemma_host_view(host);
}

/// Deleting what is not there is no error; a deletion that fails tells the path and
/// the reason.
pub proof fn a_deletion_that_fails_names_the_path(
    own: Vec<u8>,
    deletion: Deletion,
    r: Result<(), String>,
)
    requires
        call_ensures(remove_at, (&own, deletion), r),
    ensures
        r is Err <==> deletion is Failed,
        r matches Err(error) ==> deletion matches Deletion::Failed(reason) && error@
            == lossy_utf8(own@) + seq![':', ' '] + reason@,
{
    reveal_strlit(": ");
    assert(": "@ == seq![':', ' ']);
}

/// A target that is given out holds what the URI stands for, each text in its own
/// place.
pub proof fn a_target_is_given_out_as_it_is(uri: &str, r: Option<MailtoTarget>)
    requires
        call_ensures(parse_mailto, (uri,), r),
    ensures
        r is Some <==> target_of(uri@) is Some,
        r matches Some(target) ==> {
            &&& target.to@ == target_of(uri@)->0.to
            &&& target.subject@ == target_of(uri@)->0.subject
            &&& target.body@ == target_of(uri@)->0.body
        },
{
}

/// A text that may be there.
pub open spec fn optional(text: Option<String>) -> Option<Seq<char>> {
    match text {
        Some(text) => Some(text@),
        None => None,
    }
}

/// A part of a text that may be there.
pub open spec fn optional_part(text: Option<&str>) -> Option<Seq<char>> {
    match text {
        Some(text) => Some(text@),
        None => None,
    }
}

/// Offers that are given out hold what the header values offer, each route in its own
/// place; and there is a direct route where there is a one-click or a mail route.
pub proof fn offers_are_given_out_as_they_are(
    values: &[String],
    post: Option<&str>,
    list_id: Option<&str>,
    r: Option<Unsubscribe>,
)
    requires
        call_ensures(from_headers, (values, post, list_id), r),
    ensures
        ({
            let texts = Seq::new(values@.len(), |i: int| values@[i]@);
            let offered = offers_of(texts, optional_part(post), optional_part(list_id));
            &&& r is Some <==> offered is Some
            &&& r matches Some(offers) ==> {
                &&& optional(offers.one_click) == offered->0.one_click
                &&& optional(offers.mailto) == offered->0.mailto
                &&& optional(offers.web) == offered->0.web
                &&& offers.list_id@ == offered->0.list_id
            }
        }),
{
    let texts = Seq::new(values@.len(), |i: int| values@[i]@);
    assert(values.deep_view() == texts);
}

/// A message, by its own fields.
pub open spec fn message_view(message: Message) -> MessageText {
    MessageText {
        raw: message.raw@,
        headers: Seq::new(
            message.headers@.len(),
            |i: int|
                HeaderText {
                    name: message.headers@[i].name@,
                    start: message.headers@[i].start as int,
                    end: message.headers@[i].end as int,
                },
        ),
    }
}

proof fn lemma_message_view(message: Message)
    ensures
        message.deep_view() == message_view(message),
{
    assert(message.headers.deep_view() == message_view(message).headers);
}

/// A message is asked for what its headers offer, each route in its own place.
pub proof fn the_offers_of_a_message_are_given_out_as_they_are(
    message: Message,
    r: Option<Unsubscribe>,
)
    requires
        call_ensures(detect, (&message,), r),
    ensures
        ({
            let offered = offers_in(message_view(message));
            &&& r is Some <==> offered is Some
            &&& r matches Some(offers) ==> {
                &&& optional(offers.one_click) == offered->0.one_click
                &&& optional(offers.mailto) == offered->0.mailto
                &&& optional(offers.web) == offered->0.web
                &&& offers.list_id@ == offered->0.list_id
            }
        }),
{
    lemma_message_view(message);
}

/// A message is asked for the values of its headers of a name, in order.
pub proof fn the_values_of_a_header_are_given_out_as_they_are(
    message: Message,
    name: &str,
    found: Vec<String>,
)
    requires
        call_ensures(raw_header_values, (&message, name), found),
    ensures
        found@.len() == header_values(message_view(message), name@).len(),
        forall|i: int|
            0 <= i < found@.len() ==> (#[trigger] found@[i])@ == header_values(
                message_view(message),
                name@,
            )[i],
{
    lemma_message_view(message);
    let values = header_values(message_view(message), name@);
    assert(found.deep_view() == values);
    assert forall|i: int| 0 <= i < found@.len() implies (#[trigger] found@[i])@ == values[i] by {
        assert(found.deep_view()[i] == found@[i]@);
    }
}

/// A list can be left without a browser where it takes a POST or a mail.
pub proof fn a_direct_route_is_a_post_or_a_mail(offers: Unsubscribe, r: bool)
    requires
        call_ensures(Unsubscribe::direct, (&offers,), r),
    ensures
        r <==> offers.one_click is Some || offers.mailto is Some,
{
}

/// Texts are unfolded, decoded, read for handles and made keys as they are given.
pub proof fn texts_are_read_as_they_are_given(
    text: &str,
    line: String,
    plain: String,
    found: Vec<String>,
    key: String,
)
    requires
        call_ensures(unfold, (text,), line),
        call_ensures(percent_decode, (text,), plain),
        call_ensures(angle_handles, (text,), found),
        call_ensures(list_id_of, (text,), key),
    ensures
        line@ == unfolded(text@),
        plain@ == decoded(text@),
        handles(text@).len() == found@.len(),
        forall|i: int| 0 <= i < found@.len() ==> (#[trigger] found@[i])@ == handles(text@)[i],
        key@ == list_key(text@),
{
    assert(found.deep_view() == handles(text@));
    assert forall|i: int| 0 <= i < found@.len() implies (#[trigger] found@[i])@ == handles(
        text@,
    )[i] by {
        assert(found.deep_view()[i] == found@[i]@);
    }
}

/// A parsed message keeps the bytes it was given, and the value of each of its headers
/// lies within them.
pub proof fn a_parsed_message_keeps_its_bytes(raw: &[u8], r: Option<Message>)
    requires
        call_ensures(Message::parse, (raw,), r),
    ensures
        r matches Some(message) ==> {
            &&& message.raw@ == raw@
            &&& message.headers@.len() > 0
            &&& forall|i: int|
                0 <= i < message.headers@.len() ==> (#[trigger] message.headers@[i]).start
                    <= message.headers@[i].end <= raw@.len()
        },
{
}

} // verus!

use vireo_mail::one_click::{one_click_answer, one_click_post, PostReply};
use vireo_mail::unsubscribe::ONE_CLICK;

#[test]
fn the_request_is_the_promised_form() {
    let request = one_click_post("HTTPS://list.example/u/1", "Vireo/1.0").ok().unwrap();
    assert_eq!(request.url, "HTTPS://list.example/u/1");
    assert_eq!(request.user_agent, "Vireo/1.0");
    assert_eq!(format!("{}={}", request.field, request.value), ONE_CLICK);
    assert_eq!(request.timeout_secs, 20);
}

#[test]
fn a_handle_that_is_not_https_gets_no_request() {
    for url in ["http://list.example/u/1", "mailto:a@b.c", "https:/", ""] {
        assert_eq!(
            one_click_post(url, "Vireo/1.0").err().unwrap(),
            "the list's unsubscribe handle is not an https address"
        );
    }
}

#[test]
fn answers_are_told_to_the_user() {
    for code in [200, 202, 204, 299] {
        assert_eq!(one_click_answer(PostReply::Answered(code)), Ok(()));
    }
    assert_eq!(
        one_click_answer(PostReply::Answered(404)),
        Err("the list's server answered 404".to_string())
    );
    for code in [0, 9, 10, 199, 300, 307, 308, 500, 65535] {
        assert_eq!(
            one_click_answer(PostReply::Answered(code)),
            Err(format!("the list's server answered {code}"))
        );
    }
    assert_eq!(
        one_click_answer(PostReply::Failed("timed out".to_string())),
        Err("timed out".to_string())
    );
}

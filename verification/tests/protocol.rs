use emailnator::api::create_emails_request;
use emailnator::api::create_emails_response;
use emailnator::api::fetch_inbox_response;
use emailnator::api::read_message_response;
use emailnator::json::encode_fetch_inbox;
use emailnator::json::encode_read_message;
use emailnator::EmailKind;
use emailnator::Error;

#[test]
fn create_emails_request_no_kinds_fails_for_any_count() {
    let none: Vec<EmailKind> = Vec::new();
    assert!(matches!(create_emails_request(&none, 0), Err(Error::NoEmailKinds)));
    assert!(matches!(create_emails_request(&none, 1), Err(Error::NoEmailKinds)));
    assert!(matches!(create_emails_request(&none, 500), Err(Error::NoEmailKinds)));
}

#[test]
fn create_emails_request_zero_count_fails() {
    let kinds = vec![EmailKind::Domain];
    assert!(matches!(create_emails_request(&kinds, 0), Err(Error::ZeroCount)));
}

#[test]
fn create_emails_request_builds_exact_body() {
    let kinds = vec![EmailKind::Domain, EmailKind::PlusGmail];
    let body = create_emails_request(&kinds, 2).unwrap();
    assert_eq!(body, "{\"email\":[\"domain\",\"plusGmail\"],\"emailNo\":2}");
}

#[test]
fn create_emails_request_all_kind_labels() {
    let kinds = vec![
        EmailKind::Domain,
        EmailKind::PlusGmail,
        EmailKind::DotGmail,
        EmailKind::GoogleMail,
    ];
    let body = create_emails_request(&kinds, 1000000).unwrap();
    assert_eq!(
        body,
        "{\"email\":[\"domain\",\"plusGmail\",\"dotGmail\",\"googleMail\"],\"emailNo\":1000000}"
    );
}

#[test]
fn fetch_inbox_body_is_exact() {
    assert_eq!(encode_fetch_inbox("a@x.com"), "{\"email\":\"a@x.com\"}");
}

#[test]
fn read_message_body_is_exact() {
    assert_eq!(
        encode_read_message("a@x.com", "1"),
        "{\"email\":\"a@x.com\",\"messageID\":\"1\"}"
    );
}

#[test]
fn request_bodies_escape_special_characters() {
    assert_eq!(
        encode_fetch_inbox("a\"b\\c\nd"),
        "{\"email\":\"a\\\"b\\\\c\\nd\"}"
    );
    assert_eq!(
        encode_fetch_inbox("a\u{0001}b"),
        "{\"email\":\"a\\u0001b\"}"
    );
}

#[test]
fn status_429_is_rate_limited_everywhere() {
    assert!(matches!(
        create_emails_response(429, "definitely not json"),
        Err(Error::RateLimited)
    ));
    assert!(matches!(
        fetch_inbox_response(429, "definitely not json"),
        Err(Error::RateLimited)
    ));
    assert!(matches!(
        read_message_response(429, "definitely not json".to_string()),
        Err(Error::RateLimited)
    ));
}

#[test]
fn generation_response_returns_emails_in_order() {
    let r = create_emails_response(200, "{\"email\":[\"a@x.com\",\"b@x.com\"]}").unwrap();
    assert_eq!(r, vec!["a@x.com".to_string(), "b@x.com".to_string()]);
}

#[test]
fn generation_response_tolerates_whitespace() {
    let r = create_emails_response(200, " { \"email\" : [ \"a@x.com\" ] } ").unwrap();
    assert_eq!(r, vec!["a@x.com".to_string()]);
}

#[test]
fn generation_response_empty_array() {
    let r = create_emails_response(200, "{\"email\":[]}").unwrap();
    assert!(r.is_empty());
}

#[test]
fn generation_response_decodes_escapes() {
    let r = create_emails_response(200, "{\"email\":[\"a\\\"b\\\\c\\nd\"]}").unwrap();
    assert_eq!(r, vec!["a\"b\\c\nd".to_string()]);
}

#[test]
fn generation_response_bad_shape_is_parse_error() {
    assert!(matches!(create_emails_response(200, "not json"), Err(Error::Parse(_))));
    assert!(matches!(create_emails_response(200, "{}"), Err(Error::Parse(_))));
    assert!(matches!(
        create_emails_response(200, "{\"email\":[\"a@x.com\"]} trailing"),
        Err(Error::Parse(_))
    ));
}

#[test]
fn inbox_response_one_header() {
    let body = "{\"messageData\":[{\"messageID\":\"1\",\"from\":\"s@x\",\"subject\":\"hi\"}]}";
    let inbox = fetch_inbox_response(200, body).unwrap();
    assert_eq!(inbox.message.len(), 1);
    assert_eq!(inbox.message[0].id, "1");
    assert_eq!(inbox.message[0].from, "s@x");
    assert_eq!(inbox.message[0].subject, "hi");
}

#[test]
fn inbox_response_two_headers_in_order() {
    let body = "{ \"messageData\" : [ {\"messageID\": \"1\", \"from\": \"s@x\", \"subject\": \"hi\"} , {\"messageID\": \"2\", \"from\": \"t@y\", \"subject\": \"yo\"} ] }";
    let inbox = fetch_inbox_response(200, body).unwrap();
    assert_eq!(inbox.message.len(), 2);
    assert_eq!(inbox.message[0].id, "1");
    assert_eq!(inbox.message[1].id, "2");
    assert_eq!(inbox.message[1].from, "t@y");
    assert_eq!(inbox.message[1].subject, "yo");
}

#[test]
fn inbox_response_empty_array() {
    let inbox = fetch_inbox_response(200, "{\"messageData\":[]}").unwrap();
    assert!(inbox.message.is_empty());
}

#[test]
fn inbox_response_bad_shape_is_parse_error() {
    assert!(matches!(fetch_inbox_response(200, "{}"), Err(Error::Parse(_))));
    assert!(matches!(
        fetch_inbox_response(200, "{\"messageData\":[{\"from\":\"s@x\"}]}"),
        Err(Error::Parse(_))
    ));
}

#[test]
fn read_message_returns_body_verbatim() {
    let r = read_message_response(200, "<html>body</html>".to_string()).unwrap();
    assert_eq!(r, "<html>body</html>");
}

#[test]
fn error_messages() {
    assert_eq!(Error::RateLimited.message(), "Rate limited by Cloudflare. Retry later");
    assert_eq!(
        Error::NoEmailKinds.message(),
        "No email kinds provided. Must provide at least one"
    );
    assert_eq!(Error::ZeroCount.message(), "Count cannot be zero. Must provide at least one");
    assert_eq!(Error::Request("boom".to_string()).message(), "boom");
    assert_eq!(Error::Parse("bad".to_string()).message(), "bad");
}

#[test]
fn generation_response_decodes_unicode_escapes() {
    let r = create_emails_response(200, "{\"email\":[\"\\u0041\\u00e9\"]}").unwrap();
    assert_eq!(r, vec!["A\u{e9}".to_string()]);
}

#[test]
fn generation_response_rejects_surrogate_escape() {
    assert!(matches!(
        create_emails_response(200, "{\"email\":[\"\\ud800\"]}"),
        Err(Error::Parse(_))
    ));
    assert!(matches!(
        create_emails_response(200, "{\"email\":[\"\\u12\"]}"),
        Err(Error::Parse(_))
    ));
}

#[test]
fn inbox_response_accepts_any_member_order() {
    let body = "{\"messageData\":[{\"from\":\"s@x\",\"messageID\":\"1\",\"subject\":\"hi\"}]}";
    let inbox = fetch_inbox_response(200, body).unwrap();
    assert_eq!(inbox.message.len(), 1);
    assert_eq!(inbox.message[0].id, "1");
    assert_eq!(inbox.message[0].from, "s@x");
    assert_eq!(inbox.message[0].subject, "hi");
}

#[test]
fn inbox_response_skips_unknown_members() {
    let body = "{\"tag\":null,\"messageData\":[{\"messageID\":\"1\",\"attachments\":[1,2.5,true],\"from\":\"s@x\",\"meta\":{\"k\":\"v\",\"n\":-3e2},\"subject\":\"hi\"}],\"count\":1}";
    let inbox = fetch_inbox_response(200, body).unwrap();
    assert_eq!(inbox.message.len(), 1);
    assert_eq!(inbox.message[0].id, "1");
    assert_eq!(inbox.message[0].subject, "hi");
}

#[test]
fn generation_response_skips_unknown_members() {
    let r = create_emails_response(
        200,
        "{\"status\":\"ok\",\"email\":[\"a@x.com\"],\"limit\":10}",
    )
    .unwrap();
    assert_eq!(r, vec!["a@x.com".to_string()]);
}

#[test]
fn duplicate_members_are_parse_errors() {
    assert!(matches!(
        create_emails_response(200, "{\"email\":[\"a@x.com\"],\"email\":[\"b@x.com\"]}"),
        Err(Error::Parse(_))
    ));
    let dup = "{\"messageData\":[{\"messageID\":\"1\",\"messageID\":\"2\",\"from\":\"s@x\",\"subject\":\"hi\"}]}";
    assert!(matches!(fetch_inbox_response(200, dup), Err(Error::Parse(_))));
}

use emailnator::token::bootstrap_token;
use emailnator::token::header_token;
use emailnator::Error;

#[test]
fn bootstrap_takes_first_matching_header() {
    let cookies = vec![
        "session=1; Path=/".to_string(),
        "XSRF-TOKEN=abc%20def; Path=/; Secure".to_string(),
        "XSRF-TOKEN=zzz; Path=/".to_string(),
    ];
    assert_eq!(bootstrap_token(&cookies).unwrap(), "abc def");
}

#[test]
fn bootstrap_without_match_is_rate_limited() {
    let none: Vec<String> = Vec::new();
    assert!(matches!(bootstrap_token(&none), Err(Error::RateLimited)));
    let cookies = vec!["session=1; Path=/".to_string(), "other=XSRF-TOKEN=x".to_string()];
    assert!(matches!(bootstrap_token(&cookies), Err(Error::RateLimited)));
}

#[test]
fn header_token_strips_prefix_and_cuts_at_separator() {
    assert_eq!(header_token("XSRF-TOKEN=tok; Path=/").unwrap(), "tok");
    assert_eq!(header_token("XSRF-TOKEN=tok").unwrap(), "tok");
    assert_eq!(header_token("XSRF-TOKEN="), None);
    assert_eq!(header_token("XSRF-TOKEN=; Path=/"), None);
    assert_eq!(header_token("XSRF-TOKEN=%20").map(|t| t.len()), Some(1));
    assert_eq!(header_token("Other=tok"), None);
}

#[test]
fn header_token_percent_decodes() {
    assert_eq!(header_token("XSRF-TOKEN=a%2Fb%20c; Path=/").unwrap(), "a/b c");
    assert_eq!(header_token("XSRF-TOKEN=%D0%B0").unwrap(), "\u{0430}");
}

#[test]
fn header_token_idempotent_on_decoded_value() {
    let once = header_token("XSRF-TOKEN=a%20b; Path=/").unwrap();
    assert_eq!(once, "a b");
    let again = header_token(&format!("XSRF-TOKEN={once}")).unwrap();
    assert_eq!(again, once);
}

#[test]
fn bootstrap_skips_empty_token_header() {
    let cookies = vec![
        "XSRF-TOKEN=; Path=/".to_string(),
        "XSRF-TOKEN=ok; Path=/".to_string(),
    ];
    assert_eq!(bootstrap_token(&cookies).unwrap(), "ok");
    let only_empty = vec!["XSRF-TOKEN=".to_string()];
    assert!(matches!(bootstrap_token(&only_empty), Err(Error::RateLimited)));
}

#[test]
fn bootstrap_skips_header_that_fails_decoding() {
    let cookies = vec![
        "XSRF-TOKEN=%FF; Path=/".to_string(),
        "XSRF-TOKEN=ok; Path=/".to_string(),
    ];
    assert_eq!(bootstrap_token(&cookies).unwrap(), "ok");
}

#[test]
fn header_token_keeps_malformed_escapes_literally() {
    assert_eq!(header_token("XSRF-TOKEN=%ZZ; Path=/").unwrap(), "%ZZ");
}

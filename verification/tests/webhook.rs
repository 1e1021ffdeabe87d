use frame_store::webhook::{format_uri, parse_uri, parse_webhooks, UriError, Webhook};

#[test]
fn round_trips_a_uri() {
    let uri = format_uri("123", "tok.en-_x", "456");
    assert_eq!(uri, "discord://123/tok.en-_x/456");
    let parsed = parse_uri(&uri).unwrap();
    assert_eq!(parsed.id, "123");
    assert_eq!(parsed.token, "tok.en-_x");
    assert_eq!(parsed.message_id, "456");
}

#[test]
fn rejects_malformed_uris() {
    assert!(parse_uri("https://example.com/x").is_err());
    assert!(parse_uri("discord://123/token").is_err());
    assert!(parse_uri("discord://123//456").is_err());
    assert!(parse_uri("discord://123/token/456/extra").is_err());
}

#[test]
fn names_what_is_wrong_with_a_uri() {
    assert_eq!(parse_uri("https://x"), Err(UriError::NotDiscord));
    assert_eq!(parse_uri("discord://"), Err(UriError::Malformed));
    assert_eq!(
        UriError::NotDiscord.message("https://x"),
        "not a discord uri: https://x"
    );
    assert_eq!(
        UriError::Malformed.message("discord://a"),
        "malformed discord uri: discord://a"
    );
}

#[test]
fn reads_a_webhook_list() {
    let text = "# webhooks\n\n 123:tok:en \r\n\t\n456:other\n";
    assert_eq!(
        parse_webhooks(text).unwrap(),
        vec![
            Webhook {
                id: "123".to_owned(),
                token: "tok:en".to_owned(),
            },
            Webhook {
                id: "456".to_owned(),
                token: "other".to_owned(),
            },
        ]
    );
    assert_eq!(parse_webhooks("").unwrap(), vec![]);
    assert_eq!(parse_webhooks("1:a\nno colon\n2:b"), Err(2));
}

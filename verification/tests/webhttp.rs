use notegraph::domain::{account_note_id, allows_cross_author, AssociationKind, EngineError, Note, User};
use notegraph::http::{status_text, Response};
use notegraph::ids::{encode_id, NoteId};
use notegraph::policy::{
    ensure_association_allowed, is_allowed_kind, kind_from_token, parse_kind, require_policy,
    AssociationDenied, PolicyAcceptance, POLICY_VERSION,
};
use notegraph::query::{parse_limit_param, parse_query, parse_query_param, LimitError};
use notegraph::web::{
    association_label, escape_attr, escape_html, home_html, login_uri, note_excerpt, note_slug,
    redirect_html, signin_html, Config,
};

fn config() -> Config {
    Config {
        bind_addr: "127.0.0.1:8080".to_string(),
        database_url: "postgres://localhost/notes".to_string(),
        google_client_id: "client-123".to_string(),
        public_base_url: "https://notes.example".to_string(),
        session_ttl_secs: 3600,
        run_migrations: false,
        migrations_path: "db/migrations".to_string(),
    }
}

#[test]
fn escaping_covers_markup_characters() {
    assert_eq!(escape_attr("a<b>&\"'"), "a&lt;b&gt;&amp;&quot;&#39;");
    assert_eq!(escape_html("plain text"), "plain text");
    assert_eq!(escape_attr(""), "");
}

#[test]
fn note_excerpt_drops_line_breaks_and_truncates() {
    assert_eq!(note_excerpt("hello\nworld", 8), "hellowor...");
    assert_eq!(note_excerpt("hello", 8), "hello");
    assert_eq!(note_excerpt("", 8), "Empty note");
    assert_eq!(note_excerpt("\n\r\n", 8), "Empty note");
    // exactly at the bound: no ellipsis
    assert_eq!(note_excerpt("12345678", 8), "12345678");
}

#[test]
fn association_labels() {
    let center = NoteId::from_bytes([1u8; 32]);
    let other = NoteId::from_bytes([2u8; 32]);
    let version_out = notegraph::domain::Association {
        kind: AssociationKind::Version,
        from_id: center,
        to_id: other,
        created_at: 0,
    };
    assert_eq!(association_label(&version_out, &center), "Newer version");
    let version_in = notegraph::domain::Association {
        kind: AssociationKind::Version,
        from_id: other,
        to_id: center,
        created_at: 0,
    };
    assert_eq!(association_label(&version_in, &center), "Older version");
    let reply_out = notegraph::domain::Association {
        kind: AssociationKind::Reply,
        from_id: center,
        to_id: other,
        created_at: 0,
    };
    assert_eq!(association_label(&reply_out, &center), "Reply to");
    let link = notegraph::domain::Association {
        kind: AssociationKind::Link,
        from_id: center,
        to_id: other,
        created_at: 0,
    };
    assert_eq!(association_label(&link, &center), "link");
}

#[test]
fn note_slug_accepts_only_id_paths() {
    let id_text = encode_id([3u8; 32]);
    let path = format!("/{id_text}");
    assert_eq!(note_slug(&path), Some(id_text));
    assert_eq!(note_slug("/"), None);
    assert_eq!(note_slug("/notes"), None);
    assert_eq!(note_slug(""), None);
    let nested = format!("/{}/x", encode_id([3u8; 32]));
    assert_eq!(note_slug(&nested), None);
}

#[test]
fn pages_embed_the_escaped_configuration() {
    let cfg = config();
    let home = home_html(&cfg);
    assert!(home.contains("data-client-id=\"client-123\""));
    assert!(home.contains("data-login-uri=\"https://notes.example/auth/google/redirect\""));
    assert!(home.contains("data-view=\"home\""));
    let signin = signin_html(&cfg);
    assert!(signin.contains("data-client-id=\"client-123\""));
    assert_eq!(
        login_uri(&cfg),
        "https://notes.example/auth/google/redirect"
    );
    let redirect = redirect_html("tok<en", "/target");
    assert!(redirect.contains("data-session-token=\"tok&lt;en\""));
    assert!(redirect.contains("data-redirect-target=\"/target\""));
}

#[test]
fn response_wire_format_is_exact() {
    let r = Response::json(200, b"{}".to_vec());
    let bytes = r.to_bytes();
    let expected = b"HTTP/1.1 200 OK\r\nContent-Type: application/json\r\nConnection: keep-alive\r\nContent-Length: 2\r\n\r\n{}";
    assert_eq!(bytes, expected.to_vec());
}

#[test]
fn empty_response_has_no_body() {
    let r = Response::empty(404);
    assert_eq!(r.status, 404);
    assert!(r.body.is_empty());
    let bytes = r.to_bytes();
    let text = String::from_utf8(bytes).unwrap();
    assert!(text.starts_with("HTTP/1.1 404 Not Found\r\n"));
    assert!(text.ends_with("Content-Length: 0\r\n\r\n"));
}

#[test]
fn status_texts() {
    assert_eq!(status_text(200), "OK");
    assert_eq!(status_text(409), "Conflict");
    assert_eq!(status_text(422), "Unprocessable Entity");
    assert_eq!(status_text(599), "OK");
}

#[test]
fn query_strings_are_decoded() {
    let params = parse_query(Some("a=b&c=d%20e&a=second"));
    assert_eq!(
        params,
        vec![
            ("a".to_string(), "b".to_string()),
            ("c".to_string(), "d e".to_string()),
            ("a".to_string(), "second".to_string()),
        ]
    );
    assert!(parse_query(None).is_empty());
    // the first value for a repeated key wins
    assert_eq!(parse_query_param(&params, "a"), Some("b"));
    assert_eq!(parse_query_param(&params, "c"), Some("d e"));
    assert_eq!(parse_query_param(&params, "missing"), None);
}

#[test]
fn limit_parameter_rules() {
    let params = |v: &str| vec![("limit".to_string(), v.to_string())];
    assert_eq!(parse_limit_param(&Vec::new(), "limit", 50, 200), Ok(50));
    assert_eq!(parse_limit_param(&params("10"), "limit", 50, 200), Ok(10));
    assert_eq!(
        parse_limit_param(&params("0"), "limit", 50, 200),
        Err(LimitError::Invalid)
    );
    assert_eq!(
        parse_limit_param(&params("201"), "limit", 50, 200),
        Err(LimitError::TooLarge)
    );
    assert_eq!(
        parse_limit_param(&params("ten"), "limit", 50, 200),
        Err(LimitError::Invalid)
    );
}

#[test]
fn kind_tokens_are_validated() {
    assert_eq!(parse_kind("  reply\t"), Ok("reply".to_string()));
    assert_eq!(parse_kind("reply"), Ok("reply".to_string()));
    assert_eq!(parse_kind(""), Err(EngineError::InvalidInput));
    assert_eq!(parse_kind("   "), Err(EngineError::InvalidInput));
    assert_eq!(parse_kind("two words"), Err(EngineError::InvalidInput));
    assert!(is_allowed_kind("version"));
    assert!(is_allowed_kind("link"));
    assert!(!is_allowed_kind("author"));
    assert!(!is_allowed_kind("Version"));
    assert_eq!(kind_from_token("next"), Some(AssociationKind::Next));
    assert_eq!(kind_from_token("nope"), None);
}

#[test]
fn cross_author_kinds() {
    assert!(allows_cross_author(AssociationKind::Link));
    assert!(allows_cross_author(AssociationKind::Reply));
    assert!(allows_cross_author(AssociationKind::Quote));
    assert!(!allows_cross_author(AssociationKind::Parent));
    assert!(!allows_cross_author(AssociationKind::Next));
    assert!(!allows_cross_author(AssociationKind::Version));
}

fn note(id: NoteId, author: u128) -> Note {
    Note {
        id,
        value: b"text".to_vec(),
        created_at: 0,
        author,
    }
}

#[test]
fn association_policy_variants() {
    let acct = NoteId::from_bytes([9u8; 32]);
    let mine = note(NoteId::from_bytes([1u8; 32]), 1);
    let also_mine = note(NoteId::from_bytes([2u8; 32]), 1);
    let theirs = note(NoteId::from_bytes([3u8; 32]), 2);
    let account_note = note(acct, 1);
    let user = User {
        user_id: 1,
        email: "me@example.com".to_string(),
        account_note_id: Some(acct),
    };
    assert_eq!(
        ensure_association_allowed(AssociationKind::Link, &mine, &also_mine, &user),
        Ok(())
    );
    assert_eq!(
        ensure_association_allowed(AssociationKind::Link, &theirs, &mine, &user),
        Err(AssociationDenied::NotOwner)
    );
    assert_eq!(
        ensure_association_allowed(AssociationKind::Link, &account_note, &mine, &user),
        Err(AssociationDenied::FromAccountNote)
    );
    assert_eq!(
        ensure_association_allowed(AssociationKind::Version, &mine, &account_note, &user),
        Err(AssociationDenied::VersionOfAccountNote)
    );
    assert_eq!(
        ensure_association_allowed(AssociationKind::Parent, &mine, &theirs, &user),
        Err(AssociationDenied::CrossAuthor)
    );
    // cross-author kinds pass the last rule
    assert_eq!(
        ensure_association_allowed(AssociationKind::Reply, &mine, &theirs, &user),
        Ok(())
    );
}

#[test]
fn account_note_resolution() {
    let acct = NoteId::from_bytes([9u8; 32]);
    let user = User {
        user_id: 1,
        email: "me@example.com".to_string(),
        account_note_id: Some(acct),
    };
    assert_eq!(
        account_note_id(&user).unwrap().to_bytes(),
        acct.to_bytes()
    );
    let fresh = User {
        user_id: 2,
        email: "new@example.com".to_string(),
        account_note_id: None,
    };
    assert_eq!(account_note_id(&fresh), Err(EngineError::StorageError));
}

#[test]
fn policy_acceptance_is_checked() {
    let good = PolicyAcceptance {
        accepted: true,
        version: POLICY_VERSION.to_string(),
        agreed_at: None,
    };
    assert_eq!(require_policy(Some(&good)), Ok(()));
    let not_accepted = PolicyAcceptance {
        accepted: false,
        version: POLICY_VERSION.to_string(),
        agreed_at: None,
    };
    assert_eq!(
        require_policy(Some(&not_accepted)),
        Err(EngineError::InvalidInput)
    );
    let wrong_version = PolicyAcceptance {
        accepted: true,
        version: "2020-01-01".to_string(),
        agreed_at: Some("2020-01-01T00:00:00Z".to_string()),
    };
    assert_eq!(
        require_policy(Some(&wrong_version)),
        Err(EngineError::InvalidInput)
    );
    assert_eq!(require_policy(None), Err(EngineError::InvalidInput));
}

#[test]
fn kind_token_round_trip() {
    for kind in [
        AssociationKind::Link,
        AssociationKind::Reply,
        AssociationKind::Quote,
        AssociationKind::Parent,
        AssociationKind::Child,
        AssociationKind::Next,
        AssociationKind::Prev,
        AssociationKind::Version,
    ] {
        assert_eq!(kind_from_token(kind.as_str()), Some(kind));
    }
    // the author token is reserved for the chain builder
    assert_eq!(AssociationKind::Author.as_str(), "author");
    assert_eq!(kind_from_token("author"), None);
}

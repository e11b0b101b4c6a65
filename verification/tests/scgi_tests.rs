use scgi::codec::{decode, decode_block, encode, length_step, LengthStep, ScgiError};
use scgi::env::SCGIEnv;
use scgi::server::{
    accept_step, conn_step, AcceptAction, AcceptEvent, ConnAction, ConnEvent, ConnPhase,
    SCGIServer,
};

fn env_of(pairs: &[(&str, &str)]) -> SCGIEnv {
    let mut env: Vec<(String, String)> = Vec::new();
    for (k, v) in pairs {
        env.push((k.to_string(), v.to_string()));
    }
    SCGIEnv { env }
}

#[test]
fn test_read_header() {
    let mut scgi_data = Vec::new();
    for b in b"70:CONTENT_LENGTH\x0027\x00SCGI\x001\x00REQUEST_METHOD\x00POST\x00REQUEST_URI\x00/deepthought\x00,What is the answer to life?".iter() {
        scgi_data.push(*b);
    }

    let (headers, used) = decode(&scgi_data).unwrap();

    let expected = [
        ("CONTENT_LENGTH", "27"),
        ("SCGI", "1"),
        ("REQUEST_METHOD", "POST"),
        ("REQUEST_URI", "/deepthought"),
    ];
    assert_eq!(headers.env.len(), expected.len());
    for (k, v) in expected.iter() {
        assert_eq!(headers.get(k), Some(v.to_string()));
    }

    let length: usize = headers.get("CONTENT_LENGTH").unwrap().parse().unwrap();
    let body = &scgi_data[used..used + length];
    assert_eq!(body, b"What is the answer to life?");
}

#[test]
fn decode_reports_missing_terminator() {
    // five block bytes followed by 'X' where ',' belongs
    assert_eq!(decode(b"5:ab\x00c\x00X"), Err(ScgiError::MissingTerminator));
}

#[test]
fn decode_reports_truncated_input() {
    // fewer than N + prefix + 2 bytes in every shape: short block,
    // complete block but no terminator byte, and no delimiter at all
    assert_eq!(decode(b"10:abc"), Err(ScgiError::Truncated));
    assert_eq!(decode(b"5:ab\x00c\x00"), Err(ScgiError::Truncated));
    assert_eq!(decode(b"123"), Err(ScgiError::Truncated));
    assert_eq!(decode(b""), Err(ScgiError::Truncated));
}

#[test]
fn decode_reports_invalid_header_length() {
    // a non-digit byte before the ':' delimiter
    assert_eq!(decode(b"12x4:whatever,"), Err(ScgiError::InvalidHeaderLength));
    // a declared length beyond the configured bound
    assert_eq!(
        decode(b"99999999999999:x,"),
        Err(ScgiError::InvalidHeaderLength)
    );
}

#[test]
fn decode_handles_empty_block() {
    let (headers, used) = decode(b"0:,").unwrap();
    assert_eq!(headers.env.len(), 0);
    assert_eq!(used, 3);
}

#[test]
fn decode_accepts_leading_zeros_in_prefix() {
    let (headers, used) = decode(b"004:K\x00v\x00,").unwrap();
    assert_eq!(headers.get("K"), Some("v".to_string()));
    assert_eq!(used, 9);
}

#[test]
fn decode_last_value_wins_on_repeated_name() {
    // two entries named "A": the later value overwrites the earlier one
    let (headers, _) = decode(b"12:A\x001\x00B\x002\x00A\x003\x00,").unwrap();
    assert_eq!(headers.env.len(), 2);
    assert_eq!(headers.get("A"), Some("3".to_string()));
    assert_eq!(headers.get("B"), Some("2".to_string()));
}

#[test]
fn decode_drops_dangling_name_token() {
    // the block splits into tokens "A", "1", "dangling": the odd final
    // name produces no entry
    let (headers, _) = decode(b"12:A\x001\x00dangling,").unwrap();
    assert_eq!(headers.env.len(), 1);
    assert_eq!(headers.get("A"), Some("1".to_string()));
    assert_eq!(headers.get("dangling"), None);
}

#[test]
fn decode_substitutes_invalid_utf8() {
    // 0xFF can appear in no UTF-8 encoding: lossy decoding must replace it
    let (headers, _) = decode(b"4:K\x00\xFF\x00,").unwrap();
    assert_eq!(headers.get("K"), Some("\u{FFFD}".to_string()));
}

#[test]
fn streaming_steps_match_buffer_decoder() {
    // drive the length prefix byte by byte, as a stream reader would
    let input = b"13:";
    let mut acc: usize = 0;
    let mut declared = None;
    for b in input.iter() {
        match length_step(acc, *b).unwrap() {
            LengthStep::More(a) => acc = a,
            LengthStep::Done(n) => {
                declared = Some(n);
                break;
            }
        }
    }
    assert_eq!(declared, Some(13));

    let block = b"NAME\x00value\x00cr";
    assert_eq!(
        decode_block(block, b'!'),
        Err(ScgiError::MissingTerminator)
    );
    let headers = decode_block(block, b',').unwrap();
    assert_eq!(headers.get("NAME"), Some("value".to_string()));

    assert_eq!(
        length_step(0, b'x'),
        Err(ScgiError::InvalidHeaderLength)
    );
}

#[test]
fn encode_then_decode_reproduces_the_mapping() {
    let original = env_of(&[
        ("CONTENT_LENGTH", "0"),
        ("SCGI", "1"),
        ("REQUEST_METHOD", "GET"),
        ("QUERY_STRING", "a=1&b=2"),
    ]);
    let wire = encode(&original).unwrap();
    let (decoded, used) = decode(&wire).unwrap();
    assert_eq!(used, wire.len());
    assert_eq!(decoded.env, original.env);
}

#[test]
fn encode_then_decode_keeps_non_ascii_text() {
    let original = env_of(&[("X", "h\u{e9}llo \u{4e16}\u{754c}"), ("Y", "plain")]);
    let wire = encode(&original).unwrap();
    let (decoded, used) = decode(&wire).unwrap();
    assert_eq!(used, wire.len());
    assert_eq!(decoded.env, original.env);
}

#[test]
fn encode_rejects_nul_in_name_or_value() {
    assert_eq!(encode(&env_of(&[("A", "x\u{0}y")])), None);
    assert_eq!(encode(&env_of(&[("a\u{0}b", "x")])), None);
}

#[test]
fn query_keeps_last_value_and_order_keeps_all() {
    let headers = env_of(&[("QUERY_STRING", "a=1&b=2&a=3")]);

    let ordered = headers.query_vec().unwrap();
    assert_eq!(
        ordered,
        vec![
            ("a".to_string(), "1".to_string()),
            ("b".to_string(), "2".to_string()),
            ("a".to_string(), "3".to_string()),
        ]
    );

    let deduped = headers.query().unwrap();
    assert_eq!(deduped.len(), 2);
    assert!(deduped.contains(&("a".to_string(), "3".to_string())));
    assert!(deduped.contains(&("b".to_string(), "2".to_string())));

    let none = env_of(&[("SCGI", "1")]);
    assert_eq!(none.query(), None);
    assert_eq!(none.query_vec(), None);

    // present but empty: a parameter list with no entries, not absence
    let empty = env_of(&[("QUERY_STRING", "")]);
    assert_eq!(empty.query_vec(), Some(vec![]));
    assert_eq!(empty.query(), Some(vec![]));
}

#[test]
fn query_percent_decodes() {
    let headers = env_of(&[("QUERY_STRING", "a=%41+b&%23first=%25try%25")]);
    let ordered = headers.query_vec().unwrap();
    assert_eq!(
        ordered,
        vec![
            ("a".to_string(), "A b".to_string()),
            ("#first".to_string(), "%try%".to_string()),
        ]
    );
}

#[test]
fn cookies_split_on_semicolon_and_first_equals() {
    let headers = env_of(&[("HTTP_COOKIE", "a=1; b=2")]);
    let cookies = headers.cookies().unwrap();
    assert_eq!(
        cookies,
        vec![
            ("a".to_string(), "1".to_string()),
            ("b".to_string(), "2".to_string()),
        ]
    );

    // values may hold '=': only the first one splits
    let headers = env_of(&[("HTTP_COOKIE", "k=v=w; l=x")]);
    let cookies = headers.cookies().unwrap();
    assert_eq!(
        cookies,
        vec![
            ("k".to_string(), "v=w".to_string()),
            ("l".to_string(), "x".to_string()),
        ]
    );

    assert_eq!(env_of(&[("SCGI", "1")]).cookies(), None);
}

#[test]
fn content_length_defaults_to_zero() {
    assert_eq!(env_of(&[]).content_length(), 0);
    assert_eq!(env_of(&[("CONTENT_LENGTH", "27")]).content_length(), 27);
    assert_eq!(env_of(&[("CONTENT_LENGTH", "abc")]).content_length(), 0);
    assert_eq!(env_of(&[("CONTENT_LENGTH", "")]).content_length(), 0);
    assert_eq!(
        env_of(&[("CONTENT_LENGTH", "99999999999999999999999")]).content_length(),
        0
    );
}

#[test]
fn typed_accessors_parse_best_effort() {
    let headers = env_of(&[
        ("SERVER_PORT", "8080"),
        ("BAD_PORT", "70000"),
        ("WORSE_PORT", "x"),
        ("PATH_TRANSLATED", "/srv/www/index.html"),
        ("EMPTY", ""),
        ("REQUEST_METHOD", "POST"),
    ]);
    assert_eq!(headers.port("SERVER_PORT"), Some(8080));
    assert_eq!(headers.port("BAD_PORT"), None);
    assert_eq!(headers.port("WORSE_PORT"), None);
    assert_eq!(headers.port("MISSING"), None);
    assert_eq!(
        headers.path("PATH_TRANSLATED"),
        Some("/srv/www/index.html".to_string())
    );
    assert_eq!(headers.path("EMPTY"), None);
    assert_eq!(headers.path("MISSING"), None);
    assert_eq!(headers.method(), "POST".to_string());
}

#[test]
fn url_accessor_parses_or_declines() {
    let headers = env_of(&[
        ("GOOD", "http://example.com/index?a=1"),
        ("BAD", "not a url at all"),
    ]);
    let good = headers.url("GOOD").unwrap();
    assert_eq!(good.scheme(), "http");
    assert_eq!(headers.url("BAD").map(|u| u.to_string()), None);
    assert_eq!(headers.url("MISSING").map(|u| u.to_string()), None);
}

#[test]
fn server_wraps_its_listener() {
    let server = SCGIServer::new("localhost:9000");
    assert_eq!(server.listener, "localhost:9000");
}

#[test]
fn connection_steps_isolate_failures() {
    assert_eq!(
        conn_step(ConnPhase::Decoding, ConnEvent::Decoded),
        (ConnPhase::Dispatching, ConnAction::RunHandler)
    );
    assert_eq!(
        conn_step(ConnPhase::Decoding, ConnEvent::DecodeFailed),
        (ConnPhase::Closed, ConnAction::Close)
    );
    assert_eq!(
        conn_step(ConnPhase::Dispatching, ConnEvent::HandlerFinished),
        (ConnPhase::Closed, ConnAction::Close)
    );
    assert_eq!(
        conn_step(ConnPhase::Dispatching, ConnEvent::HandlerFailed),
        (ConnPhase::Closed, ConnAction::Close)
    );
}

#[test]
fn accept_loop_survives_transient_failures() {
    assert_eq!(accept_step(AcceptEvent::Connection), AcceptAction::Dispatch);
    assert_eq!(
        accept_step(AcceptEvent::AcceptFailed),
        AcceptAction::KeepAccepting
    );
    assert_eq!(accept_step(AcceptEvent::ListenerFailed), AcceptAction::Stop);
}

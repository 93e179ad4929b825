//! Response construction.
use plecto::headers::{
    copy_headers, copy_headers_preserving, show_headers, to_wire, Header, RawHeader,
};
use plecto::respond::{
    clamp_status, decimal_text, http_response, stream_head, stream_response, synth,
    synth_retry_after, HttpResponse,
};

fn header(name: &str, value: &str) -> Header {
    Header {
        name: name.to_string(),
        value: value.to_string(),
    }
}

fn raw(name: &str, value: &[u8]) -> RawHeader {
    RawHeader {
        name: name.to_string(),
        value: value.to_vec(),
    }
}

fn pairs(headers: &[RawHeader]) -> Vec<(&str, &[u8])> {
    headers
        .iter()
        .map(|h| (h.name.as_str(), h.value.as_slice()))
        .collect()
}

#[test]
fn http_response_clamps_invalid_status_and_drops_invalid_headers_without_panicking() {
    // A short-circuit / fail-closed response carries a filter-supplied `u16` status and
    // arbitrary headers. An out-of-range status must clamp to 502 (never panic), and an
    // invalid header value must be dropped — the data plane must survive hostile filter output.
    for bad_status in [0u16, 99, 1000] {
        let resp = http_response(HttpResponse {
            status: bad_status,
            headers: vec![],
            body: Vec::new(),
        });
        assert_eq!(
            resp.head.status,
            hyper::StatusCode::BAD_GATEWAY.as_u16(),
            "an out-of-range status ({bad_status}) clamps to 502"
        );
    }

    // a valid status is preserved; a CRLF-bearing header is dropped, a clean one kept.
    let resp = http_response(HttpResponse {
        status: 403,
        headers: vec![header("x-clean", "ok"), header("x-evil", "a\r\nb")],
        body: b"denied".to_vec(),
    });
    assert_eq!(resp.head.status, hyper::StatusCode::FORBIDDEN.as_u16());
    assert!(resp.head.contains_header("x-clean"));
    assert!(
        !resp.head.contains_header("x-evil"),
        "an invalid header value is dropped from a synthesised response"
    );
    assert_eq!(resp.body, b"denied");
}

#[test]
fn statuses_of_three_digits_are_kept() {
    for status in [100u16, 200, 403, 502, 599, 999] {
        assert_eq!(clamp_status(status), status);
    }
    for status in [0u16, 1, 99, 1000, u16::MAX] {
        assert_eq!(clamp_status(status), 502);
    }
}

#[test]
fn names_are_lowered_and_checked() {
    assert_eq!(to_wire("X-Clean", "Ok").unwrap().name, "x-clean");
    assert_eq!(to_wire("X-Clean", "Ok").unwrap().value, b"Ok");
    for bad in ["", "a b", "a:b", "a\n", "\u{e9}", "a\"b", "(", "a/b", "a,b", "a\u{7f}"] {
        assert!(to_wire(bad, "ok").is_none(), "{bad:?} is no name");
    }
    assert!(to_wire("!#$%&'*+-.^_`|~09azAZ", "ok").is_some());
}

#[test]
fn every_character_of_a_name_is_judged_alike() {
    for c in 0u8..128 {
        let c = c as char;
        let token = c.is_ascii_alphanumeric() || "!#$%&'*+-.^_`|~".contains(c);
        assert_eq!(to_wire(&c.to_string(), "v").is_some(), token, "{c:?}");
        let value = c == '\t' || (c as u32 >= 32 && c as u32 != 127);
        assert_eq!(to_wire("n", &c.to_string()).is_some(), value, "{c:?}");
    }
}

#[test]
fn names_have_a_longest_length() {
    assert!(to_wire(&"a".repeat(64), "v").is_some());
    assert!(to_wire(&"A".repeat(65), "v").is_some());
    assert_eq!(to_wire(&"A".repeat(65), "v").unwrap().name, "a".repeat(65));
    assert!(to_wire(&"a".repeat(65_535), "v").is_some());
    assert!(to_wire(&"a".repeat(65_536), "v").is_none());
    assert!(to_wire(&format!("{}:", "a".repeat(100)), "v").is_none());
}

#[test]
fn standard_names_are_names_like_others() {
    assert_eq!(to_wire("Content-Type", "v").unwrap().name, "content-type");
    assert_eq!(to_wire("SET-COOKIE", "v").unwrap().name, "set-cookie");
}

#[test]
fn values_may_hold_any_text_but_control_characters() {
    assert_eq!(to_wire("n", "a\tb").unwrap().value, b"a\tb");
    assert_eq!(to_wire("n", "").unwrap().value, b"");
    assert_eq!(to_wire("n", "\u{e9}").unwrap().value, [0xc3, 0xa9]);
    for bad in ["a\r", "a\n", "\u{0}", "\u{7f}", "\u{1b}"] {
        assert!(to_wire("n", bad).is_none(), "{bad:?} is no value");
    }
}

#[test]
fn copied_headers_keep_their_order() {
    let copied = copy_headers(&[
        header("B", "1"),
        header("a\n", "2"),
        header("a", "3"),
        header("b", "4"),
    ]);
    assert_eq!(
        pairs(&copied),
        [("b", &b"1"[..]), ("a", &b"3"[..]), ("b", &b"4"[..])]
    );
}

#[test]
fn untouched_headers_keep_their_bytes() {
    let original = [
        raw("x-latin", b"caf\xe9"),
        raw("x-other", b"\xff\xfe"),
        raw("x-plain", b"ok"),
    ];
    let shown = show_headers(&original);
    assert_eq!(shown, ["caf\u{fffd}", "\u{fffd}\u{fffd}", "ok"]);
    let edited = [
        header("x-added", "new"),
        header("X-Latin", "caf\u{fffd}"),
        header("x-plain", "changed"),
    ];
    let head = stream_response(200, &edited, &original);
    assert_eq!(head.status, 200);
    assert_eq!(
        pairs(&head.headers),
        [
            ("x-added", &b"new"[..]),
            ("x-latin", &b"caf\xe9"[..]),
            ("x-plain", &b"changed"[..]),
        ]
    );
}

#[test]
fn an_unedited_response_goes_back_as_it_came() {
    let original = [
        raw("set-cookie", b"a\xe9"),
        raw("set-cookie", b"a\xff"),
        raw("via", b"x"),
    ];
    let seen: Vec<Header> = original
        .iter()
        .zip(show_headers(&original))
        .map(|(h, text)| header(&h.name, &text))
        .collect();
    let head = stream_response(204, &seen, &original);
    assert_eq!(pairs(&head.headers), pairs(&original));
}

#[test]
fn fields_that_show_alike_keep_their_bytes_in_order() {
    let original = [raw("a", b"\xe9"), raw("b", b"x"), raw("a", b"\xff")];
    let edited = [
        header("A", "\u{fffd}"),
        header("c", "new"),
        header("a", "\u{fffd}"),
    ];
    let head = stream_response(200, &edited, &original);
    assert_eq!(
        pairs(&head.headers),
        [("a", &b"\xe9"[..]), ("c", &b"new"[..]), ("a", &b"\xff"[..])]
    );
}

#[test]
fn each_received_header_serves_once() {
    let original = [raw("a", b"\xff")];
    let edited = [header("a", "\u{fffd}"), header("a", "\u{fffd}")];
    let copied = copy_headers_preserving(&edited, &original, &show_headers(&original));
    assert_eq!(
        pairs(&copied),
        [("a", &b"\xff"[..]), ("a", "\u{fffd}".as_bytes())]
    );
}

#[test]
fn a_forwarded_head_is_clamped_too() {
    let head = stream_head(7, &[header("a b", "x"), header("c", "y\n")], &[], &Vec::new());
    assert_eq!(head.status, 502);
    assert!(head.headers.is_empty());
}

#[test]
fn synthesised_responses_carry_the_fault() {
    let reply = synth(404, "no-route", b"not found");
    assert_eq!(reply.head.status, 404);
    assert_eq!(
        pairs(&reply.head.headers),
        [("x-plecto-fault", &b"no-route"[..])]
    );
    assert_eq!(reply.body, b"not found");
}

#[test]
fn limited_responses_say_when_to_try_again() {
    let reply = synth_retry_after(429, "rate-limited", b"slow down", 120);
    assert_eq!(reply.head.status, 429);
    assert_eq!(
        pairs(&reply.head.headers),
        [
            ("x-plecto-fault", &b"rate-limited"[..]),
            ("retry-after", &b"120"[..]),
        ]
    );
    assert!(reply.head.contains_header("Retry-After"));
    assert!(!reply.head.contains_header("via"));
    assert_eq!(reply.body, b"slow down");
}

#[test]
fn numbers_are_written_in_decimal() {
    for n in [0u64, 7, 10, 99, 100, 1_000_000, u64::MAX] {
        assert_eq!(decimal_text(n), n.to_string());
    }
}

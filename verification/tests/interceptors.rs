use reqtrace::Header;
use reqtrace::HeaderCollection;
use reqtrace::RequestContext;
use reqtrace::RequestId;
use reqtrace::eq_ignore_case;
use reqtrace::is_sensitive_name;
use reqtrace::make_request_event;
use reqtrace::make_response_event;

fn collection(pairs: &[(&str, &str)]) -> HeaderCollection {
    let mut h = HeaderCollection::new();
    for (name, value) in pairs {
        h.push(name.to_string(), value.to_string());
    }
    h
}

fn pairs(h: &HeaderCollection) -> Vec<(String, String)> {
    h.entries.iter().map(|e| (e.name.clone(), e.value.clone())).collect()
}

fn assert_canonical_form(s: &str) {
    assert_eq!(s.len(), 36);
    for (i, c) in s.chars().enumerate() {
        if i == 8 || i == 13 || i == 18 || i == 23 {
            assert_eq!(c, '-', "expected hyphen at {i} in {s}");
        } else {
            assert!(
                c.is_ascii_hexdigit() && !c.is_ascii_uppercase(),
                "expected lowercase hex at {i} in {s}"
            );
        }
    }
}

#[test]
fn assigned_identifier_reaches_response_header() {
    let mut ctx = RequestContext::new();
    let id = ctx.assign_identifier();
    let mut response_headers = collection(&[("content-type", "text/plain")]);
    reqtrace::apply_identifier_header(&mut response_headers, &id);

    let entries = pairs(&response_headers);
    assert_eq!(entries.len(), 2);
    let last = entries.last().unwrap();
    assert_eq!(last.0, "x-request-id");
    assert_canonical_form(&last.1);
    assert_eq!(last.1, id.canonical());
    assert_eq!(ctx.identifier().unwrap().bits(), id.bits());
}

#[test]
fn identifier_header_overwrites_existing_value() {
    let mut ctx = RequestContext::new();
    let id = ctx.assign_identifier();
    let mut response_headers = collection(&[
        ("X-Request-Id", "stale"),
        ("server", "demo"),
        ("x-request-id", "staler"),
    ]);
    reqtrace::apply_identifier_header(&mut response_headers, &id);

    let entries = pairs(&response_headers);
    assert_eq!(entries.len(), 2);
    assert_eq!(entries[0], ("server".to_string(), "demo".to_string()));
    assert_eq!(entries[1], ("x-request-id".to_string(), id.canonical()));
}

#[test]
fn ten_thousand_identifiers_do_not_collide() {
    let mut seen: Vec<u128> = (0..10_000).map(|_| RequestId::generate().bits()).collect();
    seen.sort_unstable();
    for w in seen.windows(2) {
        assert_ne!(w[0], w[1], "identifier collision");
    }
}

#[test]
fn generated_identifiers_carry_version_and_variant_markers() {
    let bits = RequestId::generate().bits();
    assert_eq!((bits >> 76) & 0xf, 7);
    assert_eq!((bits >> 62) & 0x3, 2);
}

#[test]
fn later_timestamps_sort_greater() {
    let early = RequestId::from_parts(1_700_000_000_000, 0xfff, 0x3fff_ffff_ffff_ffff);
    let late = RequestId::from_parts(1_700_000_000_001, 0, 0);
    assert!(early.bits() < late.bits());
    assert!(early.canonical() < late.canonical());
}

#[test]
fn timestamp_accessor_returns_the_packed_millis() {
    let id = RequestId::from_parts(1_700_000_000_000, 0x123, 42);
    assert_eq!(id.timestamp_millis(), 1_700_000_000_000);
    let len_check = collection(&[("a", "1"), ("b", "2")]);
    assert_eq!(len_check.len(), 2);
}

#[test]
fn canonical_form_of_known_bits() {
    let id = RequestId::from_parts(0x017F_22E2_79B0, 0xCC3, 0x18C4_DC0C_0C07_398F);
    // Example timestamp and random payload drawn from the time-ordered
    // identifier layout: 0x017F22E279B0 ms, version 7, variant 10.
    assert_eq!(id.canonical(), "017f22e2-79b0-7cc3-98c4-dc0c0c07398f");
}

#[test]
fn sequentially_generated_identifiers_are_ordered() {
    let a = RequestId::generate();
    let b = RequestId::generate();
    assert!(a.bits() < b.bits());
    assert_ne!(a.canonical(), b.canonical());
}

#[test]
fn redaction_masks_all_sensitive_names_in_any_casing() {
    let input = collection(&[
        ("AUTHORIZATION", "Basic dXNlcg=="),
        ("Proxy-Authorization", "Basic cHJveHk="),
        ("cookie", "session=1"),
        ("Set-Cookie", "session=2"),
        ("accept", "*/*"),
    ]);
    let redacted = input.redact();
    let entries = pairs(&redacted);
    assert_eq!(
        entries,
        vec![
            ("AUTHORIZATION".to_string(), "[REDACTED]".to_string()),
            ("Proxy-Authorization".to_string(), "[REDACTED]".to_string()),
            ("cookie".to_string(), "[REDACTED]".to_string()),
            ("Set-Cookie".to_string(), "[REDACTED]".to_string()),
            ("accept".to_string(), "*/*".to_string()),
        ]
    );
}

#[test]
fn redaction_collapses_repeated_sensitive_names_to_one_entry() {
    let input = collection(&[
        ("set-cookie", "a=1"),
        ("x-mid", "keep"),
        ("Set-Cookie", "b=2"),
        ("set-cookie", "c=3"),
    ]);
    let redacted = input.redact();
    let entries = pairs(&redacted);
    assert_eq!(
        entries,
        vec![
            ("set-cookie".to_string(), "[REDACTED]".to_string()),
            ("x-mid".to_string(), "keep".to_string()),
        ]
    );
}

#[test]
fn redaction_never_mutates_its_input() {
    let input = collection(&[("Authorization", "Bearer xyz"), ("X-Trace", "abc")]);
    let before = pairs(&input);
    let _redacted = input.redact();
    assert_eq!(pairs(&input), before);
}

#[test]
fn redaction_scenario_authorization_and_trace() {
    let input = collection(&[("Authorization", "Bearer xyz"), ("X-Trace", "abc")]);
    let redacted = input.redact();
    let entries = pairs(&redacted);
    assert_eq!(
        entries,
        vec![
            ("Authorization".to_string(), "[REDACTED]".to_string()),
            ("X-Trace".to_string(), "abc".to_string()),
        ]
    );
}

#[test]
fn redaction_keeps_non_sensitive_headers_byte_identical() {
    let input = collection(&[
        ("Content-Type", "application/json"),
        ("x-custom", "Value-With-Casing"),
        ("authorization-x", "not sensitive"),
        ("xauthorization", "not sensitive either"),
    ]);
    let redacted = input.redact();
    assert_eq!(pairs(&redacted), pairs(&input));
}

#[test]
fn case_insensitive_name_comparison() {
    assert!(eq_ignore_case("Authorization", "aUtHoRiZaTiOn"));
    assert!(eq_ignore_case("set-cookie", "SET-COOKIE"));
    assert!(!eq_ignore_case("cookie", "cookies"));
    assert!(!eq_ignore_case("cookie", "c00kie"));
    assert!(is_sensitive_name("PROXY-AUTHORIZATION"));
    assert!(!is_sensitive_name("x-request-id"));
}

#[test]
fn request_event_carries_identifier_and_redacted_headers() {
    let mut ctx = RequestContext::new();
    let id = ctx.assign_identifier();
    let headers = collection(&[("Authorization", "Bearer xyz"), ("Accept", "*/*")]);
    let event = make_request_event(
        &ctx,
        "GET".to_string(),
        "/status".to_string(),
        "HTTP/1.1".to_string(),
        &headers,
    )
    .expect("identifier was assigned");
    assert_eq!(event.request_id, id.canonical());
    assert_eq!(event.method, "GET");
    assert_eq!(event.path, "/status");
    assert_eq!(event.http_version, "HTTP/1.1");
    assert_eq!(
        pairs(&event.headers),
        vec![
            ("Authorization".to_string(), "[REDACTED]".to_string()),
            ("Accept".to_string(), "*/*".to_string()),
        ]
    );
}

#[test]
fn request_event_without_assignment_is_a_contract_violation() {
    let ctx = RequestContext::new();
    let headers = HeaderCollection::new();
    let result = make_request_event(
        &ctx,
        "GET".to_string(),
        "/".to_string(),
        "HTTP/1.1".to_string(),
        &headers,
    );
    assert!(result.is_err());
}

#[test]
fn response_event_scenario_status_404_after_12ms() {
    let headers = collection(&[("Set-Cookie", "session=9"), ("Content-Length", "0")]);
    let event = make_response_event(404, 12_345_678, &headers);
    assert_eq!(event.status, 404);
    assert_eq!(event.duration_millis, 12);
    assert_eq!(
        pairs(&event.headers),
        vec![
            ("Set-Cookie".to_string(), "[REDACTED]".to_string()),
            ("Content-Length".to_string(), "0".to_string()),
        ]
    );
}

#[test]
fn response_event_duration_truncates_sub_millisecond_remainders() {
    let headers = HeaderCollection::new();
    assert_eq!(make_response_event(200, 999_999, &headers).duration_millis, 0);
    assert_eq!(make_response_event(200, 1_000_000, &headers).duration_millis, 1);
    assert_eq!(make_response_event(200, 12_999_999, &headers).duration_millis, 12);
}

#[test]
fn header_struct_fields_are_plain_strings() {
    let h = Header { name: "via".to_string(), value: "proxy".to_string() };
    assert_eq!(h.name, "via");
    assert_eq!(h.value, "proxy");
}

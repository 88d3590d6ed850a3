use hyper_replay::body::{Body, IntoBody};
use hyper_replay::data::{
    HandleChangedRequest, Headers, RedirectPolicy, ReplayError, StatusCode,
};
use hyper_replay::session::{ReplayClient, SendOutcome};
use hyper_replay::storage::ReplayFile;
use hyper_replay::urls::parse_url;
use hyper_replay::ClientMode;

fn file() -> ReplayFile {
    ReplayFile::new(b"cassette.json".to_vec())
}

fn response(url: &[u8], status: u16, body: &[u8]) -> hyper_replay::data::ResponseData {
    let u = parse_url(&url.to_vec()).unwrap();
    hyper_replay::data::ResponseData::new(
        u,
        StatusCode { value: status },
        Headers::new(),
        body.to_vec(),
    )
}

#[test]
fn it_works() {}

#[test]
fn record_then_replay_two_requests() {
    // Record two interactions.
    let mut rec = ReplayClient::new(ClientMode::Record, HandleChangedRequest::Panic, file());
    for body in [&b"one"[..], &b"two"[..]] {
        let b = rec
            .get(&b"https://api.example.com/users".to_vec())
            .unwrap()
            .body(body.to_vec());
        match b.send(&mut rec).unwrap() {
            SendOutcome::NeedsLive => {}
            _ => panic!("recording must go live"),
        }
        rec.complete_live(response(b"https://api.example.com/users", 200, body));
    }
    let bytes = rec.close();

    // Replay the same two requests in order.
    let mut rep = ReplayClient::with_cassette_bytes(
        ClientMode::Replay,
        HandleChangedRequest::Panic,
        file(),
        &bytes,
    )
    .unwrap();
    assert_eq!(rep.interaction_count(), 2);
    for body in [&b"one"[..], &b"two"[..]] {
        let b = rep
            .get(&b"https://api.example.com/users".to_vec())
            .unwrap()
            .body(body.to_vec());
        match b.send(&mut rep).unwrap() {
            SendOutcome::Replayed(resp) => {
                assert_eq!(resp.status.value, 200);
                assert_eq!(resp.body, body.to_vec());
            }
            _ => panic!("replay must not go live"),
        }
    }
    assert_eq!(rep.consumed_count(), 2);
}

#[test]
fn exhaustion_fails_under_panic_and_ignore() {
    for policy in [HandleChangedRequest::Panic, HandleChangedRequest::Ignore] {
        let mut rec = ReplayClient::new(ClientMode::Record, policy, file());
        let b = rec.get(&b"http://h/x".to_vec()).unwrap();
        b.send(&mut rec).unwrap();
        rec.complete_live(response(b"http://h/x", 204, b""));
        let bytes = rec.close();

        let mut rep =
            ReplayClient::with_cassette_bytes(ClientMode::Replay, policy, file(), &bytes).unwrap();
        let first = rep.get(&b"http://h/x".to_vec()).unwrap();
        assert!(matches!(first.send(&mut rep), Ok(SendOutcome::Replayed(_))));
        // One more request than was recorded.
        let extra = rep.get(&b"http://h/x".to_vec()).unwrap();
        assert_eq!(extra.send(&mut rep).unwrap_err(), ReplayError::ReplayExhausted);
    }
}

#[test]
fn mismatched_body_under_each_policy() {
    let record = |policy| {
        let mut rec = ReplayClient::new(ClientMode::Record, policy, file());
        let b = rec
            .post(&b"http://h/login".to_vec())
            .unwrap()
            .body(b"abc".to_vec());
        b.send(&mut rec).unwrap();
        rec.complete_live(response(b"http://h/login", 201, b"stored"));
        rec.close()
    };

    // Panic: a single changed byte fails with a report naming the body.
    let bytes = record(HandleChangedRequest::Panic);
    let mut rep = ReplayClient::with_cassette_bytes(
        ClientMode::Replay,
        HandleChangedRequest::Panic,
        file(),
        &bytes,
    )
    .unwrap();
    let b = rep
        .post(&b"http://h/login".to_vec())
        .unwrap()
        .body(b"abd".to_vec());
    match b.send(&mut rep).unwrap_err() {
        ReplayError::ReplayMismatch(diff) => {
            assert!(diff.body);
            assert!(!diff.method);
            assert!(!diff.url);
            assert!(!diff.headers);
            assert!(!diff.basic_auth);
        }
        other => panic!("expected a mismatch report, got {:?}", other),
    }

    // Ignore: the stored response comes back unchanged.
    let mut rep = ReplayClient::with_cassette_bytes(
        ClientMode::Replay,
        HandleChangedRequest::Ignore,
        file(),
        &bytes,
    )
    .unwrap();
    let b = rep
        .post(&b"http://h/login".to_vec())
        .unwrap()
        .body(b"abd".to_vec());
    match b.send(&mut rep).unwrap() {
        SendOutcome::Replayed(resp) => assert_eq!(resp.body, b"stored".to_vec()),
        _ => panic!("ignore must use the stored response"),
    }

    // Record: exactly one promotion to a live call.
    let mut rep = ReplayClient::with_cassette_bytes(
        ClientMode::Replay,
        HandleChangedRequest::Record,
        file(),
        &bytes,
    )
    .unwrap();
    let b = rep
        .post(&b"http://h/login".to_vec())
        .unwrap()
        .body(b"abd".to_vec());
    match b.send(&mut rep).unwrap() {
        SendOutcome::NeedsLive => {}
        _ => panic!("record policy must promote to a live call"),
    }
    rep.complete_live(response(b"http://h/login", 200, b"fresh"));
    assert_eq!(rep.interaction_count(), 2);
}

#[test]
fn transport_knobs_never_affect_matching() {
    let mut rec = ReplayClient::new(ClientMode::Record, HandleChangedRequest::Panic, file());
    let b = rec.get(&b"http://h/a".to_vec()).unwrap();
    b.send(&mut rec).unwrap();
    rec.complete_live(response(b"http://h/a", 200, b"ok"));
    let bytes = rec.close();

    let mut rep = ReplayClient::with_cassette_bytes(
        ClientMode::Replay,
        HandleChangedRequest::Panic,
        file(),
        &bytes,
    )
    .unwrap();
    // Change every transport knob before building the request.
    rep.gzip(false);
    rep.redirect(RedirectPolicy::NoFollow);
    rep.timeout(30);
    let b = rep.get(&b"http://h/a".to_vec()).unwrap();
    match b.send(&mut rep).unwrap() {
        SendOutcome::Replayed(resp) => assert_eq!(resp.body, b"ok".to_vec()),
        _ => panic!("knobs must not affect the match"),
    }
}

#[test]
fn recorded_get_replays_with_zero_transport_calls() {
    let mut rec = ReplayClient::new(ClientMode::Record, HandleChangedRequest::Panic, file());
    let b = rec
        .get(&b"https://api.example.com/users".to_vec())
        .unwrap()
        .header(b"Accept".to_vec(), b"application/json".to_vec());
    match b.send(&mut rec).unwrap() {
        SendOutcome::NeedsLive => {}
        _ => panic!("recording must go live"),
    }
    rec.complete_live(response(b"https://api.example.com/users", 200, b"{\"id\":1}"));
    assert_eq!(rec.interaction_count(), 1);
    let bytes = rec.close();

    let mut rep = ReplayClient::with_cassette_bytes(
        ClientMode::Replay,
        HandleChangedRequest::Panic,
        file(),
        &bytes,
    )
    .unwrap();
    assert_eq!(rep.interaction_count(), 1);
    let b = rep
        .get(&b"https://api.example.com/users".to_vec())
        .unwrap()
        .header(b"Accept".to_vec(), b"application/json".to_vec());
    match b.send(&mut rep).unwrap() {
        SendOutcome::Replayed(resp) => {
            assert_eq!(resp.status.value, 200);
            assert_eq!(resp.body, b"{\"id\":1}".to_vec());
        }
        SendOutcome::NeedsLive => panic!("a recorded interaction must replay without transport"),
    }
}

#[test]
fn empty_cassette_with_record_policy_promotes_once() {
    let mut rep = ReplayClient::new(ClientMode::Replay, HandleChangedRequest::Record, file());
    let b = rep
        .post(&b"http://h/login".to_vec())
        .unwrap()
        .body(b"user=u&pass=p".to_vec());
    match b.send(&mut rep).unwrap() {
        SendOutcome::NeedsLive => {}
        _ => panic!("an empty cassette must promote under the record policy"),
    }
    rep.complete_live(response(b"http://h/login", 200, b"welcome"));
    assert_eq!(rep.interaction_count(), 1);
}

#[test]
fn header_names_match_case_insensitively() {
    let mut rec = ReplayClient::new(ClientMode::Record, HandleChangedRequest::Panic, file());
    let b = rec
        .get(&b"http://h/a".to_vec())
        .unwrap()
        .header(b"Accept".to_vec(), b"text/plain".to_vec());
    b.send(&mut rec).unwrap();
    rec.complete_live(response(b"http://h/a", 200, b""));
    let bytes = rec.close();

    let mut rep = ReplayClient::with_cassette_bytes(
        ClientMode::Replay,
        HandleChangedRequest::Panic,
        file(),
        &bytes,
    )
    .unwrap();
    let b = rep
        .get(&b"http://h/a".to_vec())
        .unwrap()
        .header(b"ACCEPT".to_vec(), b"text/plain".to_vec());
    assert!(matches!(b.send(&mut rep), Ok(SendOutcome::Replayed(_))));
}

#[test]
fn absent_and_empty_bodies_match() {
    let mut rec = ReplayClient::new(ClientMode::Record, HandleChangedRequest::Panic, file());
    let b = rec.get(&b"http://h/a".to_vec()).unwrap();
    b.send(&mut rec).unwrap();
    rec.complete_live(response(b"http://h/a", 200, b""));
    let bytes = rec.close();

    let mut rep = ReplayClient::with_cassette_bytes(
        ClientMode::Replay,
        HandleChangedRequest::Panic,
        file(),
        &bytes,
    )
    .unwrap();
    let b = rep.get(&b"http://h/a".to_vec()).unwrap().body(Vec::new());
    assert!(matches!(b.send(&mut rep), Ok(SendOutcome::Replayed(_))));
}

#[test]
fn query_order_does_not_matter() {
    let mut rec = ReplayClient::new(ClientMode::Record, HandleChangedRequest::Panic, file());
    let b = rec.get(&b"http://h/s?b=2&a=1".to_vec()).unwrap();
    b.send(&mut rec).unwrap();
    rec.complete_live(response(b"http://h/s?a=1&b=2", 200, b""));
    let bytes = rec.close();

    let mut rep = ReplayClient::with_cassette_bytes(
        ClientMode::Replay,
        HandleChangedRequest::Panic,
        file(),
        &bytes,
    )
    .unwrap();
    let b = rep.get(&b"http://h/s?a=1&b=2".to_vec()).unwrap();
    assert!(matches!(b.send(&mut rep), Ok(SendOutcome::Replayed(_))));
}

#[test]
fn session_closed_after_close_and_close_is_idempotent() {
    let mut c = ReplayClient::new(ClientMode::Record, HandleChangedRequest::Panic, file());
    let first = c.close();
    let second = c.close();
    assert_eq!(first, second);
    let b = c.get(&b"http://h/a".to_vec()).unwrap();
    assert_eq!(b.send(&mut c).unwrap_err(), ReplayError::SessionClosed);
}

#[test]
fn failed_live_calls_are_not_recorded() {
    let mut c = ReplayClient::new(ClientMode::Record, HandleChangedRequest::Panic, file());
    let b = c.get(&b"http://h/a".to_vec()).unwrap();
    match b.send(&mut c).unwrap() {
        SendOutcome::NeedsLive => {}
        _ => panic!("recording must go live"),
    }
    c.fail_live();
    assert_eq!(c.interaction_count(), 0);
}

#[test]
fn invalid_urls_are_rejected_immediately() {
    let c = ReplayClient::new(ClientMode::Record, HandleChangedRequest::Panic, file());
    for bad in [
        &b""[..],
        &b"nourl"[..],
        &b"http://"[..],
        &b"://host"[..],
        &b"HTTP://host/a"[..],
        &b"http://h/a?justkey"[..],
    ] {
        assert_eq!(
            c.get(&bad.to_vec()).unwrap_err(),
            ReplayError::InvalidUrl,
            "{:?} should be invalid",
            bad
        );
    }
    assert!(c.get(&b"http://h".to_vec()).is_ok());
    assert!(c.get(&b"http://h/a?k=v&k2=v2".to_vec()).is_ok());
}

#[test]
fn record_then_replay_under_ignore_policy() {
    let mut rec = ReplayClient::new(ClientMode::Record, HandleChangedRequest::Ignore, file());
    let b = rec.get(&b"http://h/one".to_vec()).unwrap();
    b.send(&mut rec).unwrap();
    rec.complete_live(response(b"http://h/one", 200, b"payload"));
    let bytes = rec.close();

    let mut rep = ReplayClient::with_cassette_bytes(
        ClientMode::Replay,
        HandleChangedRequest::Ignore,
        file(),
        &bytes,
    )
    .unwrap();
    let b = rep.get(&b"http://h/one".to_vec()).unwrap();
    match b.send(&mut rep).unwrap() {
        SendOutcome::Replayed(resp) => assert_eq!(resp.body, b"payload".to_vec()),
        _ => panic!("a recorded request must replay"),
    }
    assert_eq!(rep.consumed_count(), 1);
}

#[test]
fn config_is_copied_at_builder_creation() {
    let mut c = ReplayClient::new(ClientMode::Record, HandleChangedRequest::Panic, file());
    c.timeout(5);
    let before = c.get(&b"http://h/a".to_vec()).unwrap();
    // Mutating the session after the builder exists must not affect it.
    c.timeout(99);
    before.send(&mut c).unwrap();
    c.complete_live(response(b"http://h/a", 200, b""));
    let text = String::from_utf8(c.close()).unwrap();
    assert!(text.contains("\"timeout\":5"), "{}", text);
}

#[test]
fn redirect_policy_constructors() {
    assert_eq!(RedirectPolicy::limited(3), RedirectPolicy::Limit(3));
    assert_eq!(RedirectPolicy::none(), RedirectPolicy::NoFollow);
    assert_eq!(RedirectPolicy::default(), RedirectPolicy::Limit(10));
}

#[test]
fn new_requests_start_from_the_session_defaults() {
    let d = hyper_replay::data::RequestData::default();
    assert!(d.gzip);
    assert_eq!(d.redirect, RedirectPolicy::Limit(10));
    assert_eq!(d.timeout, None);
    assert!(d.target.is_none());
    assert!(d.body.is_none());
    assert!(d.basic_auth.is_none());
    let cd = hyper_replay::data::ClientData::default();
    let seeded = hyper_replay::data::RequestData::new_for_client(&cd);
    assert_eq!(seeded.gzip, cd.gzip);
    assert_eq!(seeded.timeout, cd.timeout);
}

#[test]
fn into_body_conversions() {
    assert_eq!(vec![1u8, 2].into_body(), vec![1u8, 2]);
    assert_eq!("hi".into_body(), b"hi".to_vec());
    assert_eq!(Body::from_text("hi").into_vec(), b"hi".to_vec());
    assert_eq!(Body::from_bytes(vec![7]).into_vec(), vec![7u8]);
}

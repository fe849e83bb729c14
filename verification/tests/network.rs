use inseam_plugins::operations::merge::QueryResult;
use inseam_plugins::roster::admission::{Admit, AdmissionCache, Doorkeeper};
use inseam_plugins::roster::config::{RosterConfig, RosterFactory, RosterPlugin};
use inseam_plugins::roster::invitations::{token_of, OpenInvitations, TOKEN_CHARS};
use inseam_plugins::roster::stewardships::{
    announces, join_hosts, note_published, note_withdrawn, plan, publication, rotated, HostRecord,
    Publication, Registration, StewardCapabilities, StewardshipRecord,
};
use inseam_plugins::routing::config::{Limits, RoutingConfig, RoutingFactory, RoutingPlugin};
use inseam_plugins::routing::fan_out::{
    fan_out_reply, fan_out_request, fan_out_targets, FanOutNode, FanOutOutcome,
};
use inseam_plugins::routing::protocol::{
    decode_request, decode_response, encode_request, encode_response, error_from_wire, error_kind,
    error_response, parsed_response, unexpected_reply, Frame, RouteBody, RouteReply, RouteRequest,
    RouteResponse, REQUEST_BYTES_MAX, TAG_BYTES, TAG_JSON,
};
use inseam_plugins::routing::serve::{
    answered, bytes_reply, candidates, envelope_reply, expand_reply, local_read, locate,
    nobody_answered, relay, relays, routed, served_bytes, serving, start_route, taken, text_reply,
    unreachable_reply, Exchange, Forwarding, LocalRead, Location, RelayStep, RouteStart, Serving,
};
use inseam_plugins::seam::{Address, NodeId, SeamError};
use inseam_plugins::sync::config::{SyncConfig, SyncFactory, SyncPlugin};
use inseam_plugins::sync::exchange::{check_peer, timed_out, Exchange as SyncExchange, ROUNDS_MAX};
use inseam_plugins::sync::peers::{choose_peers, SyncNode};
use inseam_plugins::sync::protocol::{
    announces_roster, carries_roster_record, check_batch_bound, decoding_failed, encoding_failed,
    LogEntry, RecordKind, VectorEntry, VersionVector, LOG_ENTRIES_PER_BATCH_MAX, PROTOCOL,
};
use inseam_plugins::sync::views::{Moved, PeerLedgers, PEER_VIEWS_MAX};

const HOPS_MAX: u32 = 4;
const NOW: i64 = 1_800_000_000;
const TTL_SECS: i64 = 3_600;
const OPEN_MAX: usize = 16;
const PEERS_PER_ROUND_MAX: usize = 16;
const FAN_OUT_NODES_MAX: usize = 8;

fn node(byte: u8) -> NodeId {
    NodeId { bytes: [byte; 32] }
}

fn address() -> Address {
    Address { host: "fs-a".to_string(), locator: "notes/a.md".to_string() }
}

// --- Routing: requests ---

fn request(body: RouteBody) -> RouteRequest {
    RouteRequest { hops_remaining: HOPS_MAX, visited: vec![node(1)], body }
}

#[test]
fn malformed_requests_are_refused_by_name() {
    let cases: Vec<(&str, RouteRequest)> = vec![
        (
            "hops",
            RouteRequest {
                hops_remaining: HOPS_MAX + 1,
                ..request(RouteBody::ReadText { address: address() })
            },
        ),
        (
            "twice",
            RouteRequest {
                visited: vec![node(1), node(1)],
                ..request(RouteBody::ReadText { address: address() })
            },
        ),
        (
            "bound",
            RouteRequest {
                visited: (0..=HOPS_MAX + 1)
                    .map(|i| node(u8::try_from(i).expect("small")))
                    .collect(),
                ..request(RouteBody::ReadText { address: address() })
            },
        ),
        (
            "requester",
            RouteRequest {
                visited: Vec::new(),
                ..request(RouteBody::ReadText { address: address() })
            },
        ),
        (
            "range",
            request(RouteBody::Scan { address: address(), start: 0, end: 1 }),
        ),
        (
            "limit",
            request(RouteBody::Query { text: "x".to_string(), limit: 0 }),
        ),
        (
            "empty query",
            request(RouteBody::Query { text: String::new(), limit: 1 }),
        ),
    ];
    for (name, bad) in cases {
        match encode_request(&bad, Ok(b"{}".to_vec()), HOPS_MAX) {
            Err(SeamError::Refused(_)) | Err(SeamError::ScanRange { .. }) => {}
            other => panic!("{name}: expected a refusal, got {other:?}"),
        }
    }
    assert!(matches!(
        decode_request(9, Err("key must be a string".to_string()), HOPS_MAX),
        Err(SeamError::Refused(_))
    ));
}

#[test]
fn a_well_formed_request_passes_both_ways() {
    let original = request(RouteBody::ReadLines { address: address(), start: 3, end: 9 });
    let bytes = encode_request(&original, Ok(b"{}".to_vec()), HOPS_MAX).expect("encodes");
    assert_eq!(bytes, b"{}");
    let back = decode_request(bytes.len(), Ok(original), HOPS_MAX).expect("decodes");
    assert_eq!(back.visited, vec![node(1)]);
    assert_eq!(back.body.name(), "read_lines");
    let fitting = request(RouteBody::ReadText { address: address() });
    assert!(decode_request(REQUEST_BYTES_MAX + 1, Ok(fitting), HOPS_MAX).is_err());
}

// --- Routing: replies ---

#[test]
fn json_replies_carry_the_zero_tag() {
    let json = serde_json::to_vec(&serde_json::Value::String("hello".to_string())).expect("json");
    let bytes = encode_response(Frame::Json(json.clone()));
    assert_eq!(bytes[0], TAG_JSON);
    match decode_response(bytes).expect("decodes") {
        Frame::Json(back) => {
            assert_eq!(back, json);
            let text: String = serde_json::from_slice(&back).expect("json");
            match parsed_response::<()>(Ok(RouteResponse::Text(text))).expect("parses") {
                RouteReply::Json(RouteResponse::Text(text)) => assert_eq!(text, "hello"),
                other => panic!("unexpected {other:?}"),
            }
        }
        other => panic!("unexpected {other:?}"),
    }
}

#[test]
fn the_raw_bytes_tag_roundtrips_a_mebibyte() {
    let body: Vec<u8> = (0..(1024u32 * 1024))
        .map(|i| u8::try_from(i % 251).expect("fits"))
        .collect();
    let bytes = encode_response(Frame::Bytes(body.clone()));
    assert_eq!(bytes[0], TAG_BYTES);
    assert_eq!(bytes.len(), body.len() + 1);
    match decode_response(bytes).expect("decodes") {
        Frame::Bytes(back) => assert_eq!(back, body),
        other => panic!("unexpected {other:?}"),
    }
}

#[test]
fn unknown_framing_and_empty_replies_are_errors() {
    assert!(decode_response(Vec::new()).is_err());
    assert!(decode_response(vec![7, 1, 2]).is_err());
    match decode_response(vec![TAG_JSON, b'{']).expect("framed") {
        Frame::Json(bytes) => {
            let parsed: Result<serde_json::Value, serde_json::Error> =
                serde_json::from_slice(&bytes);
            let parsed = match parsed {
                Ok(_) => panic!("half an object"),
                Err(e) => Err(e.to_string()),
            };
            assert!(parsed_response::<()>(parsed).is_err());
        }
        other => panic!("unexpected {other:?}"),
    }
}

#[test]
fn wire_errors_come_back_typed_where_the_requester_holds_the_data() {
    let body = RouteBody::ReadText { address: address() };
    let wire: RouteResponse<()> =
        error_response(&SeamError::UnknownSource(address()), "unknown".to_string());
    let RouteResponse::Error { kind, message } = wire else {
        panic!("not an error");
    };
    assert_eq!(kind, "unknown_source");
    assert!(matches!(
        error_from_wire(&body, &kind, message),
        SeamError::UnknownSource(a) if a == address()
    ));
    assert!(matches!(
        error_from_wire(&body, "refused", "no".to_string()),
        SeamError::Refused(m) if m == "no"
    ));
    assert!(matches!(
        error_from_wire(&body, "scan_beyond_end", "past".to_string()),
        SeamError::Failed(m) if m == "past"
    ));
    let unreachable = SeamError::Unreachable { host: address().host, tried: Vec::new() };
    assert_eq!(error_kind(&unreachable), "unreachable");
    let relayed: RouteReply<()> =
        RouteReply::Json(error_response(&unreachable, "unreachable".to_string()));
    assert!(relayed.is_unreachable());
}

#[test]
fn replies_of_the_wrong_shape_are_named() {
    let reply: RouteReply<()> = RouteReply::Bytes(vec![1]);
    let error = unexpected_reply("read_text", &reply);
    assert!(format!("{error:?}").contains("read_text"));
    assert!(text_reply::<()>("read_text", RouteReply::Bytes(vec![1])).is_err());
    assert_eq!(
        text_reply::<()>("read_text", RouteReply::Json(RouteResponse::Text("a".into())))
            .expect("text"),
        "a"
    );
    assert_eq!(bytes_reply::<()>("read_bytes", RouteReply::Bytes(vec![1])).expect("bytes"), vec![1]);
    let body = RouteBody::ReadText { address: address() };
    let refused: RouteReply<()> = RouteReply::Json(RouteResponse::Error {
        kind: "refused".into(),
        message: "no".into(),
    });
    assert!(matches!(routed(&body, refused), Err(SeamError::Refused(m)) if m == "no"));
}

// --- Routing: serving and forwarding ---

#[test]
fn locate_answers_local_remote_and_unknown() {
    let me = node(1);
    assert!(matches!(locate(true, &vec![node(2)], me), Location::Local));
    match locate(false, &vec![node(2), node(3)], me) {
        Location::Remote(stewards) => assert_eq!(stewards, vec![node(2), node(3)]),
        other => panic!("{other:?}"),
    }
    assert!(matches!(locate(false, &Vec::new(), me), Location::Unknown));
}

#[test]
fn a_stale_claim_by_this_node_is_not_a_remote_steward() {
    assert!(matches!(locate(false, &vec![node(1)], node(1)), Location::Unknown));
}

#[test]
fn a_query_is_answered_by_the_node_it_lands_on_and_never_forwarded() {
    let query = request(RouteBody::Query { text: "x".into(), limit: 1 });
    assert_eq!(serving(&query, node(2), false).expect("serves"), Serving::Query);
    let read = request(RouteBody::ReadText { address: address() });
    assert_eq!(serving(&read, node(2), true).expect("serves"), Serving::Local);
    assert_eq!(serving(&read, node(2), false).expect("serves"), Serving::Relay);
}

#[test]
fn a_node_that_does_not_relay_says_so() {
    let read = request(RouteBody::ReadText { address: address() });
    match relay::<()>(read, node(2), "fs-a", false) {
        RelayStep::Answer(reply) => assert!(reply.is_unreachable()),
        other => panic!("{other:?}"),
    }
}

#[test]
fn a_relay_refuses_once_the_hop_budget_is_spent() {
    let spent = RouteRequest {
        hops_remaining: 0,
        ..request(RouteBody::ReadText { address: address() })
    };
    match relay::<()>(spent, node(2), "fs-a", true) {
        RelayStep::Answer(reply) => assert!(reply.is_unreachable()),
        other => panic!("{other:?}"),
    }
}

#[test]
fn visited_grows_by_one_per_hop_and_a_loop_is_refused() {
    let read = request(RouteBody::ReadText { address: address() });
    match relay::<()>(read, node(2), "fs-a", true) {
        RelayStep::Forward(forwarded) => {
            assert_eq!(forwarded.visited, vec![node(1), node(2)]);
            assert_eq!(forwarded.hops_remaining, HOPS_MAX - 1);
            assert!(serving(&forwarded, node(1), false).is_err(), "it has been here");
        }
        other => panic!("{other:?}"),
    }
}

#[test]
fn a_relay_skips_a_steward_that_cannot_reach_the_host_either() {
    let unreachable: RouteReply<()> = unreachable_reply(node(2), "fs-a", &Vec::new(), "no steward");
    assert!(taken(Exchange::Replied(unreachable)).is_none());
    assert!(taken::<()>(Exchange::Silent).is_none());
    assert!(taken::<()>(Exchange::NotInRoster).is_none());
    assert!(taken::<()>(Exchange::Garbled).is_none());
    let text: RouteReply<()> = RouteReply::Json(RouteResponse::Text("a".into()));
    assert!(taken(Exchange::Replied(text)).is_some());
}

#[test]
fn an_unreachable_steward_names_who_was_tried() {
    let me = node(1);
    let mut forwarding = Forwarding::to_stewards(&vec![node(2), me, node(3)], me, vec![me]);
    assert_eq!(forwarding.next(), Some(node(2)));
    assert_eq!(forwarding.next(), Some(node(3)));
    assert_eq!(forwarding.next(), None);
    forwarding.to_relays(&vec![node(3), node(4)]);
    assert_eq!(forwarding.next(), Some(node(4)));
    assert_eq!(forwarding.next(), None);
    let tried = forwarding.into_tried();
    assert!(tried.contains(&node(2)) && tried.contains(&node(3)));
}

#[test]
fn forwarding_never_goes_back() {
    let me = node(1);
    let visited = vec![node(5), me];
    assert_eq!(candidates(&vec![node(5), node(2), me], me, &visited), vec![node(2)]);
    assert_eq!(
        relays(&vec![node(5), node(2), node(3)], me, &visited, &vec![node(2)]),
        vec![node(3)]
    );
}

#[test]
fn a_route_starts_with_the_whole_hop_budget() {
    let body = || RouteBody::ReadText { address: address() };
    match start_route(body(), "fs-a", Location::Local, node(1), HOPS_MAX).expect("served") {
        RouteStart::Serve(served) => assert_eq!(served, body()),
        other => panic!("{other:?}"),
    }
    let remote = Location::Remote(vec![node(2)]);
    match start_route(body(), "fs-a", remote, node(1), HOPS_MAX).expect("forwarded") {
        RouteStart::Forward(request, stewards) => {
            assert_eq!(request.hops_remaining, HOPS_MAX);
            assert_eq!(request.visited, vec![node(1)]);
            assert_eq!(stewards, vec![node(2)]);
            assert!(request.check_bounds(HOPS_MAX).is_ok());
        }
        other => panic!("{other:?}"),
    }
    assert!(matches!(
        start_route(body(), "fs-a", Location::Unknown, node(1), HOPS_MAX),
        Err(SeamError::UnknownHost(host)) if host == "fs-a"
    ));
    assert!(matches!(
        nobody_answered("fs-a", vec![node(2)]),
        SeamError::Unreachable { host, tried } if host == "fs-a" && tried == vec![node(2)]
    ));
}

#[test]
fn a_bad_line_range_is_refused_by_the_steward_too() {
    let lines = |start: u64, end: u64| RouteBody::ReadLines { address: address(), start, end };
    assert!(matches!(
        local_read(lines(3, 2)),
        Err(SeamError::ScanRange { start: 3, end: 2 })
    ));
    assert!(matches!(
        local_read(lines(2, 3)).expect("valid"),
        LocalRead::Lines { start: 2, end: 3, .. }
    ));
    assert!(matches!(
        local_read(RouteBody::Query { text: "x".into(), limit: 1_000 }).expect("clamped"),
        LocalRead::Query { limit: 50, .. }
    ));
}

#[test]
fn a_steward_always_answers() {
    assert!(matches!(
        served_bytes::<()>(&address(), vec![1, 2], 2),
        Ok(RouteReply::Bytes(bytes)) if bytes == vec![1, 2]
    ));
    assert!(matches!(
        served_bytes::<()>(&address(), vec![1, 2, 3], 2),
        Err(SeamError::FetchTooLarge { bytes: 3, limit: 2, .. })
    ));
    let failed: RouteReply<()> =
        answered(Err((SeamError::Refused("no".to_string()), "refused: no".to_string())));
    match failed {
        RouteReply::Json(RouteResponse::Error { kind, message }) => {
            assert_eq!(kind, "refused");
            assert_eq!(message, "refused: no");
        }
        other => panic!("{other:?}"),
    }
    let envelope: RouteReply<u8> = RouteReply::Json(RouteResponse::Envelope(4));
    assert_eq!(envelope_reply("describe", envelope).expect("an envelope"), 4);
    let expansion: RouteReply<u8> = RouteReply::Json(RouteResponse::Expand(5));
    assert_eq!(expand_reply("expand", expansion).expect("an expansion"), 5);
    assert!(expand_reply::<u8>("expand", RouteReply::Bytes(Vec::new())).is_err());
}

// --- Routing: the fan-out ---

fn fan_node(byte: u8, deep_index: bool, always_on: bool) -> FanOutNode {
    FanOutNode { id: node(byte), deep_index, always_on }
}

#[test]
fn fan_out_prefers_live_sessions_then_always_on_nodes_within_its_bound() {
    let nodes = vec![
        fan_node(1, true, true),
        fan_node(2, true, false),
        fan_node(3, true, true),
        fan_node(4, true, false),
        fan_node(5, false, true),
    ];
    let targets = fan_out_targets(&nodes, &vec![node(4)], node(1), 2);
    let ids: Vec<NodeId> = targets.iter().map(|at| nodes[*at].id).collect();
    assert_eq!(ids, vec![node(4), node(3)]);
}

#[test]
fn a_fanned_out_query_carries_no_hops() {
    let asked = fan_out_request("words", 9, node(1));
    assert_eq!(asked.visited, vec![node(1)]);
    assert!(asked.check_bounds(HOPS_MAX).is_ok());
    match asked.body {
        RouteBody::Query { text, limit } => {
            assert_eq!(text, "words");
            assert_eq!(limit, 9);
        }
        other => panic!("{other:?}"),
    }
}

#[test]
fn fan_out_reports_a_node_that_never_answers() {
    let silent = fan_out_reply::<()>(node(2), 3_001, FanOutOutcome::TimedOut, 3_000);
    assert!(silent.results.is_empty());
    assert!(silent.error.expect("an error").contains("3000"));
    let failed = fan_out_reply::<()>(node(2), 5, FanOutOutcome::Failed("refused".into()), 3_000);
    assert_eq!(failed.error.as_deref(), Some("refused"));
    let found = vec![QueryResult {
        address: address(),
        score: 0,
        content_digest: None,
        replicas: Vec::new(),
        via: None,
        shown: (),
    }];
    let answered = fan_out_reply(
        node(2),
        5,
        FanOutOutcome::Answered(RouteReply::Json(RouteResponse::Query(found))),
        3_000,
    );
    assert_eq!(answered.results.len(), 1);
    assert_eq!(answered.error, None);
}

#[test]
fn the_config_refuses_zero_timeouts_and_clamps_the_fan_out_count() {
    assert!(Limits::from_config(&RoutingConfig {
        request_timeout_secs: 0,
        ..RoutingConfig::default()
    })
    .is_err());
    assert!(Limits::from_config(&RoutingConfig {
        fan_out_timeout_ms: 0,
        ..RoutingConfig::default()
    })
    .is_err());
    assert!(Limits::from_config(&RoutingConfig {
        fan_out_nodes_max: 0,
        ..RoutingConfig::default()
    })
    .is_err());
    let clamped = Limits::from_config(&RoutingConfig {
        fan_out_nodes_max: 1_000,
        ..RoutingConfig::default()
    })
    .expect("valid");
    assert_eq!(clamped.fan_out_nodes_max, FAN_OUT_NODES_MAX);
}

#[test]
fn the_default_config_matches_the_seam_defaults() {
    let config = RoutingConfig::default();
    assert_eq!(config.request_timeout_secs, 30);
    assert!(config.fan_out);
    assert_eq!(config.fan_out_timeout_ms, 3000);
    assert_eq!(config.fan_out_nodes_max, 8);
}

#[test]
fn each_network_plugin_has_its_name_and_its_default() {
    assert_eq!(RoutingFactory.name(), "routing");
    assert_eq!(RosterFactory.name(), "roster");
    assert_eq!(SyncFactory.name(), "sync");
    assert!(RoutingPlugin::from_config(&RoutingConfig::default()).is_ok());
    assert!(RosterPlugin::from_config(RosterConfig::default()).is_ok());
    assert!(RosterPlugin::from_config(RosterConfig { endpoint_poll_secs: 0 }).is_err());
    let standard = SyncConfig::standard(16);
    assert!(SyncPlugin::from_config(standard).is_ok());
    assert!(SyncPlugin::from_config(SyncConfig { interval_secs: 0, ..standard }).is_err());
    assert_eq!(standard.peers_per_round(4), 4);
    assert_eq!(SyncConfig { peers_per_round_max: 3, ..standard }.peers_per_round(4), 3);
}

// --- The roster: invitations ---

#[test]
fn a_minted_token_redeems_once() {
    let mut ledger = OpenInvitations::new();
    let (token, expires) = ledger.mint(NOW, TTL_SECS, OPEN_MAX).expect("mints");
    assert_eq!(expires, NOW + TTL_SECS);
    assert_eq!(ledger.open_count(), 1);
    assert!(ledger.redeem(&token, NOW));
    assert!(!ledger.redeem(&token, NOW), "a token is spent by its first redeem");
    assert_eq!(ledger.open_count(), 0);
}

#[test]
fn tokens_are_unique_and_plain() {
    let mut ledger = OpenInvitations::new();
    let (a, _) = ledger.mint(NOW, TTL_SECS, OPEN_MAX).expect("mints");
    let (b, _) = ledger.mint(NOW, TTL_SECS, OPEN_MAX).expect("mints");
    assert_ne!(a, b);
    assert_eq!(a.len(), TOKEN_CHARS);
    assert!(a.chars().all(|c| c.is_ascii_alphanumeric() || c == '-' || c == '_'));
}

#[test]
fn an_expired_token_does_not_redeem() {
    let mut ledger = OpenInvitations::new();
    let (token, expires) = ledger.mint(NOW, TTL_SECS, OPEN_MAX).expect("mints");
    assert!(!ledger.redeem(&token, expires), "expiry is exclusive");
    assert_eq!(ledger.open_count(), 0, "the expired token was pruned");
}

#[test]
fn a_wrong_token_is_refused_and_leaves_the_ledger_intact() {
    let mut ledger = OpenInvitations::new();
    let _ = ledger.mint(NOW, TTL_SECS, OPEN_MAX).expect("mints");
    assert!(!ledger.redeem("not-the-token", NOW));
    assert_eq!(ledger.open_count(), 1);
}

#[test]
fn a_full_ledger_refuses_until_one_expires() {
    let mut ledger = OpenInvitations::new();
    for _ in 0..OPEN_MAX {
        ledger.mint(NOW, TTL_SECS, OPEN_MAX).expect("mints within the bound");
    }
    assert!(matches!(ledger.mint(NOW, TTL_SECS, OPEN_MAX), Err(SeamError::Refused(_))));
    assert_eq!(ledger.open_count(), OPEN_MAX);
    let later = NOW + TTL_SECS;
    ledger.mint(later, TTL_SECS, OPEN_MAX).expect("the expired ones made room");
    assert_eq!(ledger.open_count(), 1);
}

#[test]
fn a_token_is_the_url_safe_base64_of_its_bytes() {
    assert_eq!(token_of(&vec![0xff, 0xfe, 0xfd]), "__79");
    assert_eq!(token_of(&vec![0; 32]), "A".repeat(43));
    assert_eq!(token_of(&b"inseam".to_vec()), "aW5zZWFt");
    assert_eq!(token_of(&vec![0xfb]), "-w");
}

// --- The roster: admission ---

fn keeper() -> Doorkeeper {
    Doorkeeper {
        local: node(1),
        cache: AdmissionCache::new(),
        invitations: OpenInvitations::new(),
    }
}

#[test]
fn an_invitation_lets_a_peer_in_once_and_only_once() {
    let mut door = keeper();
    let (token, _) = door.invitations.mint(NOW, TTL_SECS, OPEN_MAX).expect("mints");
    assert!(matches!(door.let_in(node(2), Some(&token), NOW, 8), Admit::Admitted));
    assert!(matches!(door.let_in(node(2), None, NOW, 8), Admit::Admitted), "it is remembered");
    assert!(matches!(door.let_in(node(3), Some(&token), NOW, 8), Admit::Refused(_)));
}

#[test]
fn an_unknown_peer_without_a_token_is_refused() {
    let mut door = keeper();
    match door.let_in(node(2), None, NOW, 8) {
        Admit::Refused(why) => assert!(why.contains("presented no invitation"), "{why}"),
        other => panic!("{other:?}"),
    }
}

#[test]
fn an_expelled_peer_is_refused() {
    let mut door = keeper();
    door.cache.replace(node(1), vec![node(2)], vec![node(3)]);
    assert!(matches!(door.let_in(node(2), None, NOW, 8), Admit::Admitted));
    match door.let_in(node(3), None, NOW, 8) {
        Admit::Refused(why) => assert!(why.contains("was expelled"), "{why}"),
        other => panic!("{other:?}"),
    }
}

#[test]
fn expelling_self_is_refused() {
    let door = keeper();
    assert!(matches!(door.check_expel(node(1)), Err(SeamError::Refused(_))));
    assert!(door.check_expel(node(2)).is_ok());
}

#[test]
fn a_redeemed_peer_is_let_in_until_the_store_settles_it() {
    let mut door = keeper();
    let (token, _) = door.invitations.mint(NOW, TTL_SECS, OPEN_MAX).expect("mints");
    assert!(door.redeem(node(2), &token, NOW, 8));
    assert!(!door.redeem(node(2), &token, NOW, 8));
    assert!(matches!(door.let_in(node(2), None, NOW, 8), Admit::Admitted));
    door.cache.replace(node(1), Vec::new(), vec![node(2)]);
    assert!(matches!(door.let_in(node(2), None, NOW, 8), Admit::Refused(_)));
}

// --- The roster: stewardships ---

fn registration(host: &str, roots: &[&str]) -> Registration {
    Registration {
        host: host.to_string(),
        kind: "fs".to_string(),
        display_name: format!("{host} display"),
        capabilities: StewardCapabilities { enumerates: true, change_feed: false, writable: false },
        roots: roots.iter().map(ToString::to_string).collect(),
    }
}

fn local() -> NodeId {
    node(7)
}

#[test]
fn a_registration_maps_to_a_host_and_a_claim_without_credentials() {
    let published = publication(local(), &registration("fs-a", &["notes"]));
    assert_eq!(published.host.id, "fs-a");
    assert_eq!(published.host.kind, "fs");
    assert_eq!(published.host.display_name, "fs-a display");
    assert_eq!(published.stewardship.node, local());
    assert_eq!(published.stewardship.host, published.host.id);
    assert!(published.stewardship.capabilities.enumerates);
    assert!(!published.stewardship.capabilities.writable);
    assert_eq!(published.stewardship.roots, vec!["notes"]);
}

#[test]
fn a_new_registration_is_published() {
    let snapshot = vec![registration("fs-a", &[])];
    let planned = plan(local(), &snapshot, &Vec::new());
    assert_eq!(planned.publish.len(), 1);
    assert!(planned.withdraw.is_empty());
}

#[test]
fn stewardships_an_unchanged_registration_is_not_republished() {
    let snapshot = vec![registration("fs-a", &["notes"])];
    let mut published: Vec<Publication> = Vec::new();
    note_published(&mut published, publication(local(), &snapshot[0]));
    assert!(plan(local(), &snapshot, &published).is_empty());
}

#[test]
fn a_changed_registration_is_published_again() {
    let mut published: Vec<Publication> = Vec::new();
    note_published(&mut published, publication(local(), &registration("fs-a", &["notes"])));
    let snapshot = vec![registration("fs-a", &["notes", "papers"])];
    let planned = plan(local(), &snapshot, &published);
    assert_eq!(planned.publish.len(), 1);
    assert_eq!(planned.publish[0].stewardship.roots, vec!["notes", "papers"]);
    assert!(planned.withdraw.is_empty());
}

#[test]
fn a_vanished_registration_is_withdrawn_in_host_order() {
    let mut published: Vec<Publication> = Vec::new();
    for host in ["fs-b", "fs-a"] {
        note_published(&mut published, publication(local(), &registration(host, &[])));
    }
    let planned = plan(local(), &Vec::new(), &published);
    assert!(planned.publish.is_empty());
    let withdrawn: Vec<&str> = planned.withdraw.iter().map(|h| h.id.as_str()).collect();
    assert_eq!(withdrawn, vec!["fs-a", "fs-b"]);
    assert_eq!(planned.records(), 2);
    note_withdrawn(&mut published, "fs-a");
    assert_eq!(published.len(), 1);
}

#[test]
fn a_reconciled_registry_has_nothing_left_to_do() {
    let mut published: Vec<Publication> = Vec::new();
    for host in ["fs-old", "fs-a"] {
        note_published(&mut published, publication(local(), &registration(host, &[])));
    }
    let snapshot = vec![registration("fs-a", &["notes"]), registration("fs-new", &[])];
    let planned = plan(local(), &snapshot, &published);
    assert_eq!(planned.publish.len(), 2);
    assert_eq!(planned.withdraw.len(), 1);
    for publication in planned.publish {
        note_published(&mut published, publication);
    }
    for host in &planned.withdraw {
        note_withdrawn(&mut published, &host.id);
    }
    assert!(plan(local(), &snapshot, &published).is_empty());
}

#[test]
fn republish_carries_the_rotated_endpoints() {
    let endpoints = |at: &[&str]| at.iter().map(ToString::to_string).collect::<Vec<String>>();
    assert!(rotated(&None, &endpoints(&[])));
    assert!(!rotated(&Some(endpoints(&["ip:1"])), &endpoints(&["ip:1"])));
    assert!(rotated(&Some(endpoints(&["ip:1"])), &endpoints(&["ip:2"])));
    assert!(announces(true, 0));
    assert!(announces(false, 2));
    assert!(!announces(false, 0));
}

#[test]
fn hosts_join_every_steward_across_nodes() {
    let host = |id: &str| HostRecord {
        id: id.to_string(),
        kind: "fs".to_string(),
        display_name: id.to_string(),
    };
    let claim = |byte: u8, id: &str| StewardshipRecord {
        node: node(byte),
        host: id.to_string(),
        capabilities: StewardCapabilities { enumerates: true, change_feed: false, writable: false },
        roots: Vec::new(),
    };
    let joined = join_hosts(
        vec![host("fs-a"), host("fs-b")],
        vec![claim(1, "fs-a"), claim(2, "fs-b"), claim(3, "fs-a")],
    );
    assert_eq!(joined.len(), 2);
    let stewards: Vec<NodeId> = joined[0].stewards.iter().map(|s| s.node).collect();
    assert_eq!(stewards, vec![node(1), node(3)]);
    assert_eq!(joined[1].stewards.len(), 1);
}

// --- Sync: peers ---

fn record(byte: u8, dialable: bool, always_on: bool) -> SyncNode {
    SyncNode { id: node(byte), dialable, always_on }
}

#[test]
fn skips_self_the_expelled_and_the_undialable() {
    let nodes = vec![
        record(1, true, true),
        record(2, true, false),
        record(3, false, false),
        record(4, true, false),
    ];
    let peers = choose_peers(node(1), &nodes, &Vec::new(), &vec![node(4)], PEERS_PER_ROUND_MAX);
    let ids: Vec<NodeId> = peers.iter().map(|p| p.id).collect();
    assert_eq!(ids, vec![node(2)]);
}

#[test]
fn a_session_reaches_a_peer_with_no_endpoints_once() {
    let nodes = vec![record(2, false, false), record(3, true, false)];
    let sessions = vec![node(2), node(2), node(3)];
    let peers = choose_peers(node(1), &nodes, &sessions, &Vec::new(), PEERS_PER_ROUND_MAX);
    let ids: Vec<NodeId> = peers.iter().map(|p| p.id).collect();
    assert_eq!(ids, vec![node(3), node(2)]);
    assert!(peers[1].record.is_none(), "the session, not a dial, reaches it");
    assert_eq!(peers[0].record, Some(1), "a roster peer keeps its endpoints");
}

#[test]
fn always_on_nodes_come_first_and_the_bound_cuts_the_rest() {
    let nodes = vec![record(2, true, false), record(3, true, true), record(4, true, false)];
    let peers = choose_peers(node(1), &nodes, &vec![node(9)], &Vec::new(), 2);
    let ids: Vec<NodeId> = peers.iter().map(|p| p.id).collect();
    assert_eq!(ids, vec![node(3), node(2)]);
}

#[test]
fn an_expelled_session_peer_is_not_dialed_back() {
    let peers = choose_peers(node(1), &Vec::new(), &vec![node(5)], &vec![node(5)], 4);
    assert!(peers.is_empty());
}

// --- Sync: the protocol ---

#[test]
fn the_protocol_name_is_valid() {
    assert_eq!(PROTOCOL, "inseam/sync/1");
}

#[test]
fn the_batch_bound_is_checked_by_count() {
    assert!(check_batch_bound(LOG_ENTRIES_PER_BATCH_MAX).is_ok());
    assert!(matches!(
        check_batch_bound(LOG_ENTRIES_PER_BATCH_MAX + 1),
        Err(SeamError::Refused(_))
    ));
}

#[test]
fn roster_kinds_are_told_apart_from_catalog_kinds() {
    let expulsion = LogEntry { origin: node(1), epoch: 1, seq: 1, record: RecordKind::Expulsion };
    let gone = LogEntry { origin: node(1), epoch: 1, seq: 2, record: RecordKind::SourceGone };
    assert!(carries_roster_record(&vec![gone, expulsion]));
    assert!(!carries_roster_record(&vec![gone]));
    assert!(!carries_roster_record(&Vec::new()));
    assert!(announces_roster(1, &vec![gone, expulsion]));
    assert!(!announces_roster(0, &vec![gone, expulsion]), "nothing was applied");
}

#[test]
fn failures_name_what_was_being_read() {
    assert!(format!("{:?}", encoding_failed("sync request", "why")).contains("sync request"));
    assert!(format!("{:?}", decoding_failed("sync reply", "why")).contains("sync reply"));
    assert!(format!("{:?}", timed_out(node(2), 30)).contains("30"));
}

#[test]
fn sync_with_self_is_refused() {
    assert!(check_peer(node(1), node(1)).is_err());
    assert!(check_peer(node(2), node(1)).is_ok());
}

fn vector(seq: u64) -> VersionVector {
    VersionVector { entries: vec![VectorEntry { origin: node(1), epoch: 1, seq }] }
}

#[test]
fn an_exchange_ends_when_nothing_moves() {
    let mut exchange = SyncExchange::new();
    exchange.round(2, 3, 2, vector(1));
    assert!(!exchange.is_over());
    exchange.round(0, 0, 0, vector(1));
    assert!(exchange.is_over());
    assert_eq!(exchange.received(), 3);
    assert_eq!(exchange.sent(), 2);
    assert_eq!(exchange.rounds(), 2);
}

#[test]
fn an_exchange_is_cut_at_its_last_round() {
    let mut exchange = SyncExchange::new();
    let mut rounds: u32 = 0;
    while !exchange.is_over() {
        exchange.round(1, 1, 1, vector(u64::from(rounds)));
        rounds += 1;
    }
    assert_eq!(rounds, ROUNDS_MAX);
}

// --- Sync: views ---

#[test]
fn a_success_clears_the_error_and_accumulates_counts() {
    let mut ledgers = PeerLedgers::new();
    ledgers.record_error(node(2), 10, "refused".to_string());
    let failed = ledgers.view_of(&node(2), false).expect("tracked");
    assert!(!failed.live);
    assert_eq!(failed.last_error.as_deref(), Some("refused"));
    ledgers.record_success(node(2), 20, 3, 1);
    ledgers.record_success(node(2), 30, 2, 0);
    let view = ledgers.view_of(&node(2), false).expect("tracked");
    assert!(view.live);
    assert_eq!(view.last_success, Some(30));
    assert_eq!(view.last_error, None);
    assert_eq!(view.entries_received, 5);
    assert_eq!(view.entries_sent, 1);
}

#[test]
fn an_exchange_is_recorded_whichever_way_it_went() {
    let mut ledgers = PeerLedgers::new();
    let failed = ledgers.record(node(2), 10, Err("refused".to_string()), false);
    assert_eq!(failed.expect_err("handed back"), "refused");
    let moved = Moved { received: 3, sent: 1 };
    let view = ledgers.record(node(2), 20, Ok(moved), false).expect("a view");
    assert!(view.live);
    assert_eq!(view.entries_received, 3);
    assert_eq!(view.last_error, None);
}

#[test]
fn a_session_makes_a_failed_peer_live() {
    let mut ledgers = PeerLedgers::new();
    ledgers.record_error(node(2), 10, "timed out".to_string());
    assert!(ledgers.view_of(&node(2), true).expect("tracked").live);
    assert!(ledgers.views(&vec![node(2)])[0].live);
}

#[test]
fn views_are_ordered_by_node() {
    let mut ledgers = PeerLedgers::new();
    ledgers.record_success(node(9), 1, 0, 0);
    ledgers.record_success(node(3), 2, 0, 0);
    let ids: Vec<NodeId> = ledgers.views(&Vec::new()).iter().map(|v| v.node).collect();
    assert_eq!(ids, vec![node(3), node(9)]);
}

#[test]
fn a_full_set_forgets_the_peer_tried_longest_ago() {
    let mut ledgers = PeerLedgers::new();
    for i in 0..PEER_VIEWS_MAX {
        let byte = u8::try_from(i % 256).expect("fits");
        let mut bytes = [byte; 32];
        bytes[0] = u8::try_from(i / 256).expect("fits");
        let time = i64::try_from(i + 1).expect("fits");
        ledgers.record_success(NodeId { bytes }, time, 0, 0);
    }
    let oldest = NodeId { bytes: [0; 32] };
    assert!(ledgers.view_of(&oldest, false).is_some());
    ledgers.record_success(node(255), 5_000, 0, 0);
    assert!(ledgers.view_of(&oldest, false).is_none());
    assert_eq!(ledgers.views(&Vec::new()).len(), PEER_VIEWS_MAX);
}

#[test]
fn a_node_shows_its_first_bytes() {
    let mut bytes = [0u8; 32];
    bytes[0] = 0xab;
    bytes[1] = 0x0c;
    assert_eq!(NodeId { bytes }.short(), "ab0c0000");
    assert!(node(1).precedes(&node(2)));
    assert!(!node(2).precedes(&node(1)));
    assert!(!node(1).precedes(&node(1)));
}

#[test]
fn a_spent_hop_budget_is_named() {
    let spent = RouteRequest {
        hops_remaining: 0,
        ..request(RouteBody::ReadText { address: address() })
    };
    match relay::<()>(spent, node(2), "fs-a", true) {
        RelayStep::Answer(RouteReply::Json(RouteResponse::Error { kind, message })) => {
            assert_eq!(kind, "unreachable");
            assert!(message.contains("hop limit"), "{message}");
        }
        other => panic!("{other:?}"),
    }
}

#[test]
fn a_full_visited_list_is_well_formed_and_an_overfull_one_is_refused() {
    let looped = RouteRequest {
        hops_remaining: HOPS_MAX,
        visited: vec![node(3), node(2)],
        body: RouteBody::ReadText { address: address() },
    };
    match serving(&looped, node(2), false) {
        Err(SeamError::Refused(message)) => assert!(message.contains("loop"), "{message}"),
        other => panic!("{other:?}"),
    }
    let visited_max = u8::try_from(HOPS_MAX).expect("small") + 1;
    let full: Vec<NodeId> = (10..10 + visited_max).map(node).collect();
    let exhausted = RouteRequest {
        hops_remaining: 0,
        visited: full.clone(),
        body: RouteBody::ReadText { address: address() },
    };
    assert!(exhausted.check_bounds(HOPS_MAX).is_ok());
    assert_eq!(serving(&exhausted, node(2), false).expect("well-formed"), Serving::Relay);
    match relay::<()>(exhausted, node(2), "fs-a", true) {
        RelayStep::Answer(reply) => assert!(reply.is_unreachable()),
        other => panic!("{other:?}"),
    }
    let mut overfull = full;
    overfull.push(node(99));
    let malformed = RouteRequest {
        hops_remaining: 0,
        visited: overfull,
        body: RouteBody::ReadText { address: address() },
    };
    match encode_request(&malformed, Ok(b"{}".to_vec()), HOPS_MAX) {
        Err(SeamError::Refused(_)) => {}
        other => panic!("{other:?}"),
    }
}

#[test]
fn fan_out_takes_the_live_session_or_else_the_always_on_node() {
    let nodes = vec![fan_node(1, true, true), fan_node(2, true, false), fan_node(3, true, false)];
    let live = fan_out_targets(&nodes, &vec![node(2)], node(3), 1);
    assert_eq!(live, vec![1], "a live session outranks an always-on node");
    let none = fan_out_targets(&nodes, &Vec::new(), node(3), 1);
    assert_eq!(none, vec![0], "with no session, the always-on node comes first");
}

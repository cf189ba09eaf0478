use lqos_core::bus::{
    authenticated, cookie_value, parse_add_ip, parse_tc_handle, process_session, BusRequest, BusResponse,
    BusSession,
};
use lqos_core::tracker::ThroughputTracker;

fn session(cookie: u32, requests: Vec<BusRequest>) -> BusSession {
    BusSession { auth_cookie: cookie, requests }
}

#[test]
fn cookie_is_shared_constant() {
    assert_eq!(cookie_value(), 1234);
}

#[test]
fn wrong_token_gets_no_reply() {
    let t = ThroughputTracker::new();
    let s = session(4321, vec![BusRequest::Ping]);
    assert!(process_session(&s, &t, vec![BusResponse::Ack]).is_none());
}

#[test]
fn ping_gets_one_ack() {
    let t = ThroughputTracker::new();
    let s = session(1234, vec![BusRequest::Ping]);
    let reply = process_session(&s, &t, vec![BusResponse::Fail("unused".to_string())]).unwrap();
    assert_eq!(reply.auth_cookie, 1234);
    assert_eq!(reply.responses.len(), 1);
    assert!(matches!(reply.responses[0], BusResponse::Ack));
}

#[test]
fn responses_follow_request_order() {
    let t = ThroughputTracker::new();
    let s = session(
        1234,
        vec![
            BusRequest::ClearIpFlow,
            BusRequest::GetCurrentThroughput,
            BusRequest::GetTopNDownloaders(5),
            BusRequest::DelIpFlow { ip_address: "1.2.3.4".to_string() },
            BusRequest::XdpPping,
        ],
    );
    let outside = vec![
        BusResponse::Ack,
        BusResponse::Ack,
        BusResponse::Ack,
        BusResponse::Fail("not found".to_string()),
        BusResponse::Ack,
    ];
    let reply = process_session(&s, &t, outside).unwrap();
    assert_eq!(reply.responses.len(), 5);
    assert!(matches!(reply.responses[0], BusResponse::Ack));
    match &reply.responses[1] {
        BusResponse::CurrentThroughput { bits_per_second, packets_per_second } => {
            assert_eq!(*bits_per_second, (0, 0));
            assert_eq!(*packets_per_second, (0, 0));
        }
        _ => panic!("expected throughput"),
    }
    match &reply.responses[2] {
        BusResponse::TopDownloaders(v) => assert!(v.is_empty()),
        _ => panic!("expected top downloaders"),
    }
    match &reply.responses[3] {
        BusResponse::Fail(m) => assert_eq!(m, "not found"),
        _ => panic!("expected the outside failure"),
    }
    assert!(matches!(reply.responses[4], BusResponse::XdpPping(_)));
}

#[test]
fn queue_handles_parse() {
    assert_eq!(parse_tc_handle("1:12"), Some((1, 12)));
    assert_eq!(parse_tc_handle("65535:0"), Some((65535, 0)));
    assert_eq!(parse_tc_handle("65536:1"), None);
    assert_eq!(parse_tc_handle("1"), None);
    assert_eq!(parse_tc_handle("1:"), None);
    assert_eq!(parse_tc_handle(":2"), None);
    assert_eq!(parse_tc_handle("1:2:3"), None);
    assert_eq!(parse_tc_handle("a:b"), None);
}

#[test]
fn add_requests_are_checked_before_sending() {
    match parse_add_ip("10.0.0.5", "1:12", "2").unwrap() {
        BusRequest::MapIpToFlow { ip_address, tc_major, tc_minor, cpu } => {
            assert_eq!(ip_address, "10.0.0.5");
            assert_eq!((tc_major, tc_minor), (1, 12));
            assert_eq!(cpu, 2);
        }
        _ => panic!("expected an add request"),
    }
    assert!(parse_add_ip("10.0.0.5", "1:12", "4294967295").is_ok());
    assert!(parse_add_ip("10.0.0.5", "1:12", "4294967296").is_err());
    assert!(parse_add_ip("bad wolf", "1:12", "2").is_err());
    assert!(parse_add_ip("10.0.0.5", "112", "2").is_err());
    assert!(parse_add_ip("10.0.0.5", "1:12", "-1").is_err());
}

#[test]
fn token_checked_before_any_work() {
    assert!(authenticated(&session(1234, vec![BusRequest::ClearIpFlow])));
    assert!(!authenticated(&session(1, vec![BusRequest::ClearIpFlow])));
}

use vstd::prelude::*;

use crate::classifier::{parse_entry, ClassifierError, IpMapping, IpToMap};
use crate::ipparse::COLON;
use crate::text::{dec_number_ok, dec_value, find_sep, first_sep, parse_dec};
use vstd::string::StringSliceAdditionalSpecFns;
use crate::report::{bits_of, digest_of, ranked, IpStats, XdpPpingResult};
use crate::tracker::ThroughputTracker;

verus! {

/// The shared token that every session must carry.
pub const BUS_COOKIE: u32 = 1234;

/// The token a session must carry to be answered.
pub fn cookie_value() -> (r: u32)
    ensures
        r == BUS_COOKIE,
{
    BUS_COOKIE
}

/// One connection's worth of requests, with its token.
pub struct BusSession {
    pub auth_cookie: u32,
    pub requests: Vec<BusRequest>,
}

/// One request of a session.
pub enum BusRequest {
    Ping,
    GetCurrentThroughput,
    GetTopNDownloaders(u32),
    GetWorstRtt(u32),
    MapIpToFlow { ip_address: String, tc_major: u16, tc_minor: u16, cpu: u32 },
    DelIpFlow { ip_address: String },
    ClearIpFlow,
    ListIpFlow,
    XdpPping,
    GetRawQueueData(String),
    ReloadLibreQoS,
}

/// The answer to a session: its token and one response per request, in
/// request order.
pub struct BusReply {
    pub auth_cookie: u32,
    pub responses: Vec<BusResponse>,
}

/// One response of a reply: an acknowledgement, a failure with a diagnostic
/// message, or the data asked for.
pub enum BusResponse {
    Ack,
    Fail(String),
    CurrentThroughput { bits_per_second: (u64, u64), packets_per_second: (u64, u64) },
    TopDownloaders(Vec<IpStats>),
    WorstRtt(Vec<IpStats>),
    MappedIps(Vec<IpMapping>),
    XdpPping(Vec<XdpPpingResult>),
    RawQueueData(String),
}

/// A request that the tracking engine answers; the others go to the
/// classification table or to outside services.
pub open spec fn served_locally(req: BusRequest) -> bool {
    match req {
        BusRequest::Ping => true,
        BusRequest::GetCurrentThroughput => true,
        BusRequest::GetTopNDownloaders(_) => true,
        BusRequest::GetWorstRtt(_) => true,
        BusRequest::XdpPping => true,
        _ => false,
    }
}

/// `v` holds the first `n` flows of `t` by descending rank key.
pub open spec fn ranks_first(t: ThroughputTracker, v: Seq<IpStats>, n: u32, by_latency: bool) -> bool {
    &&& v.len() == if (n as int) < t.raw_data@.len() {
        n as int
    } else {
        t.raw_data@.len() as int
    }
    &&& exists|perm: Seq<int>| ranked(t.raw_data@, v, perm, by_latency)
}

/// `resp` answers `req`, which the engine `t` serves.
pub open spec fn local_answer(req: BusRequest, t: ThroughputTracker, resp: BusResponse) -> bool {
    match req {
        BusRequest::Ping => resp is Ack,
        BusRequest::GetCurrentThroughput => match resp {
            BusResponse::CurrentThroughput { bits_per_second, packets_per_second } => {
                &&& bits_per_second == (
                    bits_of(t.bytes_per_second.0),
                    bits_of(t.bytes_per_second.1),
                )
                &&& packets_per_second == t.packets_per_second
            },
            _ => false,
        },
        BusRequest::GetTopNDownloaders(n) => match resp {
            BusResponse::TopDownloaders(v) => ranks_first(t, v@, n, false),
            _ => false,
        },
        BusRequest::GetWorstRtt(n) => match resp {
            BusResponse::WorstRtt(v) => ranks_first(t, v@, n, true),
            _ => false,
        },
        BusRequest::XdpPping => match resp {
            BusResponse::XdpPping(v) => v@ == digest_of(t.raw_data@),
            _ => false,
        },
        _ => false,
    }
}

/// `rep` answers `session`: the same token, and for each request in order
/// the engine's answer or, for a request it does not serve, the response
/// that was produced outside for it.
pub open spec fn answers(
    session: BusSession,
    t: ThroughputTracker,
    outside: Seq<BusResponse>,
    rep: BusReply,
) -> bool {
    &&& rep.auth_cookie == session.auth_cookie
    &&& rep.responses@.len() == session.requests@.len()
    &&& forall|i: int|
        0 <= i < session.requests@.len() ==> if served_locally(session.requests@[i]) {
            local_answer(session.requests@[i], t, #[trigger] rep.responses@[i])
        } else {
            rep.responses@[i] == outside[i]
        }
}

/// Whether a session carries the shared token. A session that does not is
/// dropped whole: none of its requests is carried out and nothing is
/// written back.
pub fn authenticated(session: &BusSession) -> (r: bool)
    ensures
        r == (session.auth_cookie == BUS_COOKIE),
{
    session.auth_cookie == cookie_value()
}

/// The engine's answer to a request that it serves.
pub fn answer_local(req: &BusRequest, t: &ThroughputTracker) -> (r: Option<BusResponse>)
    ensures
        r is Some <==> served_locally(*req),
        r matches Some(resp) ==> local_answer(*req, *t, resp),
{
    match req {
        BusRequest::Ping => Some(BusResponse::Ack),
        BusRequest::GetCurrentThroughput => Some(
            BusResponse::CurrentThroughput {
                bits_per_second: t.bits_per_second(),
                packets_per_second: t.packets_per_second(),
            },
        ),
        BusRequest::GetTopNDownloaders(n) => Some(BusResponse::TopDownloaders(t.top_n(*n))),
        BusRequest::GetWorstRtt(n) => Some(BusResponse::WorstRtt(t.worst_n(*n))),
        BusRequest::XdpPping => Some(BusResponse::XdpPping(t.xdp_pping_compat())),
        _ => None,
    }
}

/// Answers a session. A session with the wrong token gets no reply at all.
/// Otherwise each request gets one response, in order: the engine answers
/// the requests it serves, and `outside[i]` stands for request `i` where it
/// does not.
pub fn process_session(session: &BusSession, t: &ThroughputTracker, outside: Vec<BusResponse>) -> (r:
    Option<BusReply>)
    requires
        outside@.len() == session.requests@.len(),
    ensures
        r is None <==> session.auth_cookie != BUS_COOKIE,
        r matches Some(rep) ==> answers(*session, *t, outside@, rep),
{
    if !authenticated(session) {
        return None;
    }
    let ghost given = outside@;
    let mut outside = outside;
    let mut responses: Vec<BusResponse> = Vec::new();
    let n = session.requests.len();
    let mut i: usize = 0;
    while i < n
        invariant
            n == session.requests@.len(),
            given.len() == n,
            i <= n,
            outside@ == given.subrange(i as int, n as int),
            responses@.len() == i,
            forall|j: int|
                0 <= j < i ==> if served_locally(session.requests@[j]) {
                    local_answer(session.requests@[j], *t, #[trigger] responses@[j])
                } else {
                    responses@[j] == given[j]
                },
        decreases n - i,
    {
        let given_here = outside.remove(0);
        proof {
            assert(outside@ =~= given.subrange(i as int + 1, n as int));
        }
        let resp = match answer_local(&session.requests[i], t) {
            Some(resp) => resp,
            None => given_here,
        };
        responses.push(resp);
        i = i + 1;
    }
    Some(BusReply { auth_cookie: session.auth_cookie, responses })
}

/// The queue handle written as `major:minor`, each a decimal number up to
/// 65535.
pub open spec fn parse_classid(s: Seq<u8>) -> Option<(u16, u16)> {
    let n = s.len() as int;
    let c = first_sep(s, 0, n, COLON);
    if c < n && dec_number_ok(s, 0, c, 65535) && dec_number_ok(s, c + 1, n, 65535) {
        Some((dec_value(s, 0, c) as u16, dec_value(s, c + 1, n) as u16))
    } else {
        None
    }
}

/// Reads a queue handle written as `major:minor`.
pub fn parse_tc_handle(classid: &str) -> (r: Option<(u16, u16)>)
    ensures
        r == parse_classid(classid.spec_bytes()),
{
    let s = classid.as_bytes();
    let n = s.len();
    let c = find_sep(s, 0, n, COLON);
    if c == n {
        return None;
    }
    let major = match parse_dec(s, 0, c, 65535) {
        Some(v) => v,
        None => return None,
    };
    let minor = match parse_dec(s, c + 1, n, 65535) {
        Some(v) => v,
        None => return None,
    };
    Some((major as u16, minor as u16))
}

/// The request that binds the address or subnet `ip` to the queue `classid`
/// (`major:minor`) on the CPU numbered `cpu`, checked before it is sent.
pub fn parse_add_ip(ip: &str, classid: &str, cpu: &str) -> (r: Result<BusRequest, ClassifierError>)
    ensures
        r is Ok <==> (parse_entry(ip.spec_bytes()) is Some && parse_classid(classid.spec_bytes())
            is Some && dec_number_ok(
            cpu.spec_bytes(),
            0,
            cpu.spec_bytes().len() as int,
            u32::MAX as int,
        )),
        r matches Ok(req) ==> match req {
            BusRequest::MapIpToFlow { ip_address, tc_major, tc_minor, cpu: c } => {
                &&& ip_address@ == ip@
                &&& parse_classid(classid.spec_bytes()) == Some((tc_major, tc_minor))
                &&& c as int == dec_value(cpu.spec_bytes(), 0, cpu.spec_bytes().len() as int)
            },
            _ => false,
        },
{
    if IpToMap::new(ip, (0, 0), 0).is_err() {
        return Err(ClassifierError::Parse);
    }
    let (tc_major, tc_minor) = match parse_tc_handle(classid) {
        Some(h) => h,
        None => return Err(ClassifierError::Parse),
    };
    let c = cpu.as_bytes();
    let cpu_id = match parse_dec(c, 0, c.len(), u32::MAX) {
        Some(v) => v,
        None => return Err(ClassifierError::Parse),
    };
    Ok(BusRequest::MapIpToFlow { ip_address: ip.to_owned(), tc_major, tc_minor, cpu: cpu_id })
}

/// A session holding one ping is answered with exactly one acknowledgement.
pub proof fn lemma_ping_acked(
    session: BusSession,
    t: ThroughputTracker,
    outside: Seq<BusResponse>,
    rep: BusReply,
)
    requires
        session.requests@.len() == 1,
        session.requests@[0] is Ping,
        answers(session, t, outside, rep),
    ensures
        rep.responses@.len() == 1,
        rep.responses@[0] is Ack,
{
    assert(served_locally(session.requests@[0]));
}

} // verus!

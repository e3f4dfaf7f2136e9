//! Decisions behind opening the two sessions: the link protocol taken from
//! the first locator, the batch size it calls for, the ports and listen
//! endpoints, the connect endpoints, and subscription identifiers.

use vstd::prelude::*;
use vstd::string::{StrSliceExecFns, StringExecFns, StringSliceAdditionalSpecFns};

use crate::text::{dec_digits, parse_bounded, push_decimal, spec_parse_bounded};
use crate::transfer::is_white_space;

verus! {

broadcast use vstd::string::group_string_axioms;

/// Batch size on UDP-based links: an Ethernet MTU less the IP and UDP
/// headers, so that batches are never fragmented.
pub const UDP_BATCH_SIZE: u16 = 1472;

/// Batch size on stream links, which segment batches themselves.
pub const STREAM_BATCH_SIZE: u16 = 65535;

/// Port listened on when the listen port does not parse.
pub const DEFAULT_LISTEN_PORT: u16 = 7447;

/// Port the monitor session listens on when its port does not parse.
pub const DEFAULT_MONITOR_PORT: u16 = 8447;

/// Offset of the monitor session's port from the publishing session's.
pub const MONITOR_PORT_OFFSET: u16 = 1000;

/// The `/`... split of a text at a separator, empty segments kept, as the
/// completed segments and the segment being read.
pub open spec fn split_acc(s: Seq<char>, sep: char) -> (Seq<Seq<char>>, Seq<char>)
    decreases s.len(),
{
    if s.len() == 0 {
        (Seq::empty(), Seq::empty())
    } else {
        let (ps, cur) = split_acc(s.drop_last(), sep);
        if s.last() == sep {
            (ps.push(cur), Seq::empty())
        } else {
            (ps, cur.push(s.last()))
        }
    }
}

/// The segments of a text between occurrences of a separator, empty ones
/// included (as `str::split` gives them).
pub open spec fn split_all(s: Seq<char>, sep: char) -> Seq<Seq<char>> {
    let (ps, cur) = split_acc(s, sep);
    ps.push(cur)
}

/// Number of leading white-space characters.
pub open spec fn leading_white(s: Seq<char>) -> nat
    decreases s.len(),
{
    if s.len() > 0 && is_white_space(s[0]) {
        1 + leading_white(s.drop_first())
    } else {
        0
    }
}

/// Number of trailing white-space characters.
pub open spec fn trailing_white(s: Seq<char>) -> nat
    decreases s.len(),
{
    if s.len() > 0 && is_white_space(s.last()) {
        1 + trailing_white(s.drop_last())
    } else {
        0
    }
}

/// The text without leading and trailing white space (`str::trim`).
pub open spec fn spec_trim(s: Seq<char>) -> Seq<char> {
    let a = leading_white(s);
    let rest = s.skip(a as int);
    rest.take(rest.len() - trailing_white(rest))
}

/// The link protocol: what precedes the first `/` of the first
/// comma-separated locator, trimmed; `tcp` when there is no locator.
pub open spec fn spec_protocol(locators: Seq<char>) -> Seq<char> {
    let first = spec_trim(split_all(locators, ',')[0]);
    if first.len() == 0 {
        "tcp"@
    } else {
        split_all(first, '/')[0]
    }
}

/// UDP and QUIC links carry datagrams.
pub open spec fn is_udp_based(protocol: Seq<char>) -> bool {
    protocol == "udp"@ || protocol == "quic"@
}

/// A port parsed as `u16` from the text, or the default.
pub open spec fn spec_port_or(text: Seq<char>, default: u16) -> u16 {
    match spec_parse_bounded(vstd::utf8::encode_utf8(text), 65535) {
        Some(p) => p as u16,
        None => default,
    }
}

/// The listen endpoint `{protocol}/[::]:{port}`.
pub open spec fn spec_listen_endpoint(protocol: Seq<char>, port: u16) -> Seq<char> {
    protocol + "/[::]:"@ + dec_digits(port as nat)
}

/// How a session's link is set up.
pub struct LinkPlan {
    /// The link protocol.
    pub protocol: String,
    /// Transmission batch size.
    pub batch_size: u16,
    /// Peer mode (else client mode).
    pub peer_mode: bool,
    /// Multicast scouting and gossip on (peer mode of the publishing session).
    pub scouting: bool,
    /// The endpoint listened on (peer mode).
    pub listen_endpoint: Option<String>,
    /// The endpoints to connect to, one per comma-separated locator, trimmed.
    pub connect_endpoints: Vec<String>,
}

/// The characters of `s` between character positions `from` and `to`.
fn chars_between(s: &str, from: usize, to: usize) -> (res: String)
    requires
        from <= to <= s@.len(),
    ensures
        res@ == s@.subrange(from as int, to as int),
{
    String::from_str(s.substring_char(from, to))
}

/// `s` without leading and trailing white space.
pub fn trim(s: &str) -> (res: String)
    ensures
        res@ == spec_trim(s@),
{
    let n = s.unicode_len();
    let mut a: usize = 0;
    proof {
        assert(s@.skip(0) =~= s@);
    }
    while a < n && crate::transfer::white_space_char(s.get_char(a))
        invariant
            n == s@.len(),
            a <= n,
            leading_white(s@) == a + leading_white(s@.skip(a as int)),
        decreases n - a,
    {
        proof {
            assert(s@.skip(a as int).drop_first() =~= s@.skip(a + 1));
        }
        a = a + 1;
    }
    let ghost rest = s@.skip(a as int);
    proof {
        assert(leading_white(rest) == 0);
    }
    let mut b: usize = n;
    proof {
        assert(rest.take(rest.len() as int) =~= rest);
        assert(s@.subrange(a as int, b as int) =~= rest);
    }
    while b > a && crate::transfer::white_space_char(s.get_char(b - 1))
        invariant
            n == s@.len(),
            a <= b <= n,
            rest == s@.skip(a as int),
            trailing_white(rest) == (n - b) + trailing_white(s@.subrange(a as int, b as int)),
        decreases b,
    {
        proof {
            assert(s@.subrange(a as int, b as int).drop_last() =~= s@.subrange(a as int, b - 1));
        }
        b = b - 1;
    }
    proof {
        assert(rest.take(rest.len() - trailing_white(rest)) =~= s@.subrange(a as int, b as int));
    }
    chars_between(s, a, b)
}

/// Splits `s` at every `sep` (empty segments kept).
pub fn split_on(s: &str, sep: char) -> (res: Vec<String>)
    ensures
        res@.map_values(|p: String| p@) == split_all(s@, sep),
{
    let n = s.unicode_len();
    let mut parts: Vec<String> = Vec::new();
    let mut start: usize = 0;
    let mut i: usize = 0;
    while i < n
        invariant
            n == s@.len(),
            start <= i <= n,
            (parts@.map_values(|p: String| p@), s@.subrange(start as int, i as int)) == split_acc(
                s@.take(i as int),
                sep,
            ),
        decreases n - i,
    {
        let c = s.get_char(i);
        proof {
            assert(s@.take(i + 1).drop_last() =~= s@.take(i as int));
            assert(s@.take(i + 1).last() == c);
        }
        if c == sep {
            let seg = chars_between(s, start, i);
            let ghost before = parts@;
            parts.push(seg);
            proof {
                assert(parts@.map_values(|p: String| p@) =~= before.map_values(|p: String| p@).push(seg@));
                assert(s@.subrange(i + 1, i + 1) =~= Seq::<char>::empty());
            }
            start = i + 1;
        } else {
            proof {
                assert(s@.subrange(start as int, i + 1) =~= s@.subrange(start as int, i as int).push(c));
            }
        }
        i = i + 1;
    }
    let seg = chars_between(s, start, n);
    let ghost before = parts@;
    parts.push(seg);
    proof {
        assert(s@.take(n as int) =~= s@);
        assert(parts@.map_values(|p: String| p@) =~= before.map_values(|p: String| p@).push(seg@));
    }
    parts
}

/// Whether two strings hold the same text.
fn same_text(a: &str, b: &str) -> (res: bool)
    ensures
        res == (a@ == b@),
{
    crate::payload_store::str_equal(a, b)
}

/// The link protocol of a locator list: what precedes the first `/` of the
/// first locator, or `tcp` when there is none.
pub fn protocol_of(locators: &str) -> (res: String)
    ensures
        res@ == spec_protocol(locators@),
{
    let parts = split_on(locators, ',');
    proof {
        assert(parts@.map_values(|p: String| p@).len() == parts@.len());
        assert(split_all(locators@, ',').len() > 0);
        assert(parts@.map_values(|p: String| p@)[0] == parts@[0]@);
    }
    let first = trim(parts[0].as_str());
    if first.unicode_len() == 0 {
        proof {
            reveal_strlit("tcp");
        }
        return String::from_str("tcp");
    }
    let segs = split_on(first.as_str(), '/');
    proof {
        assert(segs@.map_values(|p: String| p@).len() == segs@.len());
        assert(split_all(first@, '/').len() > 0);
        assert(segs@.map_values(|p: String| p@)[0] == segs@[0]@);
    }
    segs[0].clone()
}

/// Batch size for a protocol: 1472 bytes on UDP-based links, 65535 on
/// others.
pub fn batch_size_for(protocol: &str) -> (res: u16)
    ensures
        res == if is_udp_based(protocol@) {
            UDP_BATCH_SIZE
        } else {
            STREAM_BATCH_SIZE
        },
{
    proof {
        reveal_strlit("udp");
        reveal_strlit("quic");
    }
    if same_text(protocol, "udp") || same_text(protocol, "quic") {
        UDP_BATCH_SIZE
    } else {
        STREAM_BATCH_SIZE
    }
}

/// A port parsed from the text (as `u16` parses), or `default`.
pub fn port_or(text: &str, default: u16) -> (res: u16)
    ensures
        res == spec_port_or(text@, default),
{
    match parse_bounded(text.as_bytes(), 65535) {
        Some(p) => p as u16,
        None => default,
    }
}

/// The monitor session's port: the listen port plus 1000.
pub fn monitor_port(listen_port: u16) -> (res: u16)
    requires
        listen_port + MONITOR_PORT_OFFSET <= u16::MAX,
    ensures
        res == listen_port + MONITOR_PORT_OFFSET,
{
    listen_port + MONITOR_PORT_OFFSET
}

/// The endpoint listened on in peer mode: `{protocol}/[::]:{port}`.
pub fn listen_endpoint(protocol: &str, port: u16) -> (res: String)
    ensures
        res@ == spec_listen_endpoint(protocol@, port),
{
    let mut e = String::from_str(protocol);
    e.append("/[::]:");
    push_decimal(&mut e, port as u128);
    e
}

/// The trimmed comma-separated locators (none for an empty list).
pub open spec fn spec_connect_endpoints(locators: Seq<char>) -> Seq<Seq<char>> {
    if locators.len() == 0 {
        Seq::empty()
    } else {
        split_all(locators, ',').map_values(|l: Seq<char>| spec_trim(l))
    }
}

/// How a session's link is set up:
/// - the protocol of the first locator and its batch size;
/// - in peer mode, a listen endpoint on the given port (`default_port`
///   when the port does not parse), with scouting as `peer_scouting` says;
///   in client mode, no listen endpoint and no scouting;
/// - one connect endpoint per locator.
pub open spec fn is_link_plan(
    plan: LinkPlan,
    locators: Seq<char>,
    port: Seq<char>,
    mode: Seq<char>,
    default_port: u16,
    peer_scouting: bool,
) -> bool {
    let protocol = spec_protocol(locators);
    let peer = mode == "peer"@;
    &&& plan.protocol@ == protocol
    &&& plan.batch_size == if is_udp_based(protocol) {
        UDP_BATCH_SIZE
    } else {
        STREAM_BATCH_SIZE
    }
    &&& plan.peer_mode == peer
    &&& plan.scouting == (peer && peer_scouting)
    &&& peer ==> (plan.listen_endpoint matches Some(e) && e@ == spec_listen_endpoint(
        protocol,
        spec_port_or(port, default_port),
    ))
    &&& !peer ==> plan.listen_endpoint is None
    &&& plan.connect_endpoints@.map_values(|e: String| e@) == spec_connect_endpoints(locators)
}

/// Plans a session's link (see `is_link_plan`).
fn plan_link(locators: &str, port: &str, mode: &str, default_port: u16, peer_scouting: bool) -> (res: LinkPlan)
    ensures
        is_link_plan(res, locators@, port@, mode@, default_port, peer_scouting),
{
    let protocol = protocol_of(locators);
    let batch_size = batch_size_for(protocol.as_str());
    proof {
        reveal_strlit("peer");
    }
    let peer_mode = same_text(mode, "peer");
    let listen = if peer_mode {
        Some(listen_endpoint(protocol.as_str(), port_or(port, default_port)))
    } else {
        None
    };
    let mut endpoints: Vec<String> = Vec::new();
    if locators.unicode_len() > 0 {
        let parts = split_on(locators, ',');
        let ghost views = parts@.map_values(|p: String| p@);
        let mut i: usize = 0;
        while i < parts.len()
            invariant
                i <= parts@.len(),
                views == parts@.map_values(|p: String| p@),
                views == split_all(locators@, ','),
                endpoints@.map_values(|e: String| e@) == views.take(i as int).map_values(
                    |l: Seq<char>| spec_trim(l),
                ),
            decreases parts.len() - i,
        {
            let t = trim(parts[i].as_str());
            let ghost before = endpoints@;
            endpoints.push(t);
            proof {
                assert(views[i as int] == parts@[i as int]@);
                assert(views.take(i + 1) =~= views.take(i as int).push(views[i as int]));
                assert(views.take(i + 1).map_values(|l: Seq<char>| spec_trim(l)) =~= views.take(i as int).map_values(
                    |l: Seq<char>| spec_trim(l),
                ).push(spec_trim(views[i as int])));
                assert(endpoints@.map_values(|e: String| e@) =~= before.map_values(|e: String| e@).push(t@));
                assert(endpoints@.map_values(|e: String| e@) =~= views.take(i + 1).map_values(
                    |l: Seq<char>| spec_trim(l),
                ));
            }
            i = i + 1;
        }
        proof {
            assert(views.take(parts@.len() as int) =~= views);
        }
    } else {
        proof {
            assert(endpoints@.map_values(|e: String| e@) =~= Seq::<Seq<char>>::empty());
        }
    }
    LinkPlan { protocol, batch_size, peer_mode, scouting: peer_mode && peer_scouting, listen_endpoint: listen, connect_endpoints: endpoints }
}

/// The publishing session's link: listening on the listen port (7447 when
/// it does not parse) and scouting for peers in peer mode.
pub fn plan_publishing_link(locators: &str, listen_port: &str, mode: &str) -> (res: LinkPlan)
    ensures
        is_link_plan(res, locators@, listen_port@, mode@, DEFAULT_LISTEN_PORT, true),
{
    plan_link(locators, listen_port, mode, DEFAULT_LISTEN_PORT, true)
}

/// The monitor session's link: listening on its own port (8447 when it does
/// not parse), never scouting, so that it does not take part in discovery.
pub fn plan_monitor_link(locators: &str, monitor_port: &str, mode: &str) -> (res: LinkPlan)
    ensures
        is_link_plan(res, locators@, monitor_port@, mode@, DEFAULT_MONITOR_PORT, false),
{
    plan_link(locators, monitor_port, mode, DEFAULT_MONITOR_PORT, false)
}

/// Whether the additional configuration text replaces the built
/// configuration: when it is neither empty nor `{}`.
pub fn applies_config_json(config_json: &str) -> (res: bool)
    ensures
        res == (config_json@.len() > 0 && config_json@ != "{}"@),
{
    proof {
        reveal_strlit("{}");
    }
    config_json.unicode_len() > 0 && !same_text(config_json, "{}")
}

/// Decimal rendering of a signed number.
pub open spec fn signed_digits(n: int) -> Seq<char> {
    if n < 0 {
        seq!['-'] + dec_digits((-n) as nat)
    } else {
        dec_digits(n as nat)
    }
}

/// The identifier of a new subscription: `sub_{millis}_{count}`, from the
/// time in milliseconds and the number of active subscriptions.
pub fn subscription_id(millis: i64, count: usize) -> (res: String)
    ensures
        res@ == "sub_"@ + signed_digits(millis as int) + "_"@ + dec_digits(count as nat),
{
    let mut id = String::from_str("sub_");
    if millis < 0 {
        id.append("-");
        let m: i128 = millis as i128;
        push_decimal(&mut id, (-m) as u128);
    } else {
        push_decimal(&mut id, millis as u128);
    }
    id.append("_");
    push_decimal(&mut id, count as u128);
    proof {
        reveal_strlit("-");
    }
    id
}

/// The locator previewed in the connection panel and sent on connect:
/// `{transport}/{address}:{port}`, or nothing when no address is given
/// (multicast discovery).
pub fn locator_for(transport: &str, address: &str, port: &str) -> (res: String)
    ensures
        address@.len() == 0 ==> res@.len() == 0,
        address@.len() > 0 ==> res@ == transport@ + "/"@ + address@ + ":"@ + port@,
{
    if address.unicode_len() == 0 {
        return String::new();
    }
    let mut l = String::from_str(transport);
    l.append("/");
    l.append(address);
    l.append(":");
    l.append(port);
    l
}

/// Largest message a session receives: 100 GiB, so that single payloads
/// of up to 4 GiB and their chunks always fit.
pub const MAX_MESSAGE_SIZE: u64 = 107374182400;

/// Receive buffer of a session: 16 MiB, for large fragmented messages.
pub const RX_BUFFER_SIZE: usize = 16777216;

/// Transmit queue size of the publishing session for data of each
/// priority, so that large transfers queue rather than stall.
pub const TX_QUEUE_SIZE: usize = 16;

/// How long a publication blocked by congestion waits before the link is
/// closed, in Zenoh's configuration units (microseconds): 300 seconds.
pub const BLOCK_WAIT_BEFORE_CLOSE: u64 = 300000000;

/// The transport settings of a session beside its link plan.
pub struct SessionSettings {
    /// Largest message received, in bytes.
    pub max_message_size: u64,
    /// Receive buffer, in bytes.
    pub rx_buffer_size: usize,
    /// Transmit queue size for data of each priority, if not Zenoh's.
    pub tx_queue_size: Option<usize>,
    /// Whether transmitted messages are batched, if not as Zenoh's default.
    pub tx_batching: Option<bool>,
    /// Wait before a blocked link closes, if not Zenoh's.
    pub block_wait_before_close: Option<u64>,
}

/// The publishing session's settings: very large messages, a 16 MiB
/// receive buffer, queues of 16 batches, no batching (send at once) and a
/// 300 s wait for blocked publications.
pub fn publishing_session_settings() -> (res: SessionSettings)
    ensures
        res == (SessionSettings {
            max_message_size: MAX_MESSAGE_SIZE,
            rx_buffer_size: RX_BUFFER_SIZE,
            tx_queue_size: Some(TX_QUEUE_SIZE),
            tx_batching: Some(false),
            block_wait_before_close: Some(BLOCK_WAIT_BEFORE_CLOSE),
        }),
{
    SessionSettings {
        max_message_size: MAX_MESSAGE_SIZE,
        rx_buffer_size: RX_BUFFER_SIZE,
        tx_queue_size: Some(TX_QUEUE_SIZE),
        tx_batching: Some(false),
        block_wait_before_close: Some(BLOCK_WAIT_BEFORE_CLOSE),
    }
}

/// The monitor session's settings: very large messages and a 16 MiB
/// receive buffer; its queues are Zenoh's.
pub fn monitor_session_settings() -> (res: SessionSettings)
    ensures
        res == (SessionSettings {
            max_message_size: MAX_MESSAGE_SIZE,
            rx_buffer_size: RX_BUFFER_SIZE,
            tx_queue_size: None,
            tx_batching: None,
            block_wait_before_close: None,
        }),
{
    SessionSettings {
        max_message_size: MAX_MESSAGE_SIZE,
        rx_buffer_size: RX_BUFFER_SIZE,
        tx_queue_size: None,
        tx_batching: None,
        block_wait_before_close: None,
    }
}

/// The key expression the monitor session subscribes to: `**`, every key.
pub fn monitor_key_expr() -> (res: &'static str)
    ensures
        res@ == "**"@,
{
    "**"
}

/// The multicast address peers scout on: `224.0.0.224:7446`.
pub fn multicast_scouting_address() -> (res: &'static str)
    ensures
        res@ == "224.0.0.224:7446"@,
{
    "224.0.0.224:7446"
}

} // verus!

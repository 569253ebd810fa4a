use vstd::prelude::*;
use vstd::string::StringSliceAdditionalSpecFns;
use crate::EngineError;
use crate::bencode::BValue;
use crate::bencode::dec_bytes;
use crate::bencode::dict_first;
use crate::bencode::dict_get;
use crate::bencode::enc;
use crate::bencode::enc_pairs;
use crate::bencode::is_digit;
use crate::bencode::lemma_dec_bytes_shape;
use crate::bencode::lemma_number_at_unique;
use crate::bencode::no_value_at;
use crate::bencode::parse_number;
use crate::bencode::parse_value;
use vstd::arithmetic::div_mod::lemma_fundamental_div_mod_converse;
use vstd::arithmetic::div_mod::lemma_mod_multiples_vanish;
use crate::state::PeerAddr;

verus! {

/// The announce event reported to a tracker. `Started` is sent until the
/// first successful announce; afterwards no event is sent.
#[derive(Clone, Copy, Debug, PartialEq, Eq, Structural)]
pub enum TrackerEvent {
    /// First announce of this download.
    Started,
    /// The download is shutting down.
    Stopped,
    /// The download just finished.
    Completed,
}

/// Seconds slept after a failed announce before retrying.
pub const TRACKER_FALLBACK_SLEEP_SECS: u64 = 60;

/// Bytes that travel unescaped in a query string: ASCII letters, digits,
/// and `-`, `_`, `.`, `~`.
pub open spec fn is_unreserved(b: u8) -> bool {
    ||| 48 <= b <= 57
    ||| 65 <= b <= 90
    ||| 97 <= b <= 122
    ||| b == 45
    ||| b == 95
    ||| b == 46
    ||| b == 126
}

/// The upper-case hex digit of a value below 16.
pub open spec fn hex_digit(v: u8) -> u8 {
    if v < 10 {
        (48 + v) as u8
    } else {
        (55 + v) as u8
    }
}

/// The percent-encoding of one byte.
pub open spec fn percent_byte(b: u8) -> Seq<u8> {
    if is_unreserved(b) {
        seq![b]
    } else {
        seq![37u8, hex_digit(b / 16), hex_digit(b % 16)]
    }
}

/// The percent-encoding of a byte string.
pub open spec fn percent_enc(s: Seq<u8>) -> Seq<u8>
    decreases s.len(),
{
    if s.len() == 0 {
        Seq::empty()
    } else {
        percent_enc(s.drop_last()) + percent_byte(s.last())
    }
}

/// The query-string text of an announce event.
pub open spec fn event_bytes(e: TrackerEvent) -> Seq<u8> {
    match e {
        TrackerEvent::Started => "started".spec_bytes(),
        TrackerEvent::Stopped => "stopped".spec_bytes(),
        TrackerEvent::Completed => "completed".spec_bytes(),
    }
}

/// Append a literal's bytes.
fn append_str(out: &mut Vec<u8>, s: &str)
    ensures
        final(out)@ == old(out)@ + s.spec_bytes(),
{
    let bytes = s.as_bytes();
    let n = bytes.len();
    let mut i: usize = 0;
    while i < n
        invariant
            n == bytes@.len(),
            bytes@ == s.spec_bytes(),
            0 <= i <= n,
            out@ == old(out)@ + bytes@.take(i as int),
        decreases n - i,
    {
        let b = bytes[i];
        out.push(b);
        proof {
            assert(old(out)@ + bytes@.take(i as int) + seq![b] =~= old(out)@ + bytes@.take(i + 1));
        }
        i = i + 1;
    }
    proof {
        assert(bytes@.take(n as int) =~= bytes@);
    }
}

/// Append the decimal digits of `n`.
fn append_dec(out: &mut Vec<u8>, n: u64)
    ensures
        final(out)@ == old(out)@ + dec_bytes(n as int),
    decreases n,
{
    if n < 10 {
        out.push(48 + n as u8);
        proof {
            assert(old(out)@ + dec_bytes(n as int) =~= old(out)@.push((48 + n) as u8));
        }
    } else {
        assert(n / 10 < n) by (nonlinear_arith)
            requires n >= 10;
        append_dec(out, n / 10);
        out.push(48 + (n % 10) as u8);
        proof {
            assert(old(out)@ + dec_bytes(n as int)
                =~= old(out)@ + dec_bytes(n as int / 10) + seq![(48 + n as int % 10) as u8]);
        }
    }
}

/// The upper-case hex digit of a value below 16, as a run-time value.
fn hex_digit_rt(v: u8) -> (r: u8)
    requires
        v < 16,
    ensures
        r == hex_digit(v),
{
    if v < 10 {
        48 + v
    } else {
        55 + v
    }
}

/// Append the percent-encoding of `s`.
fn append_percent(out: &mut Vec<u8>, s: &Vec<u8>)
    ensures
        final(out)@ == old(out)@ + percent_enc(s@),
{
    let n = s.len();
    let mut i: usize = 0;
    while i < n
        invariant
            n == s@.len(),
            0 <= i <= n,
            out@ == old(out)@ + percent_enc(s@.take(i as int)),
        decreases n - i,
    {
        let b = s[i];
        proof {
            assert(s@.take(i + 1).drop_last() =~= s@.take(i as int));
            assert(s@.take(i + 1).last() == s@[i as int]);
        }
        if 48 <= b && b <= 57 || 65 <= b && b <= 90 || 97 <= b && b <= 122
            || b == 45 || b == 95 || b == 46 || b == 126 {
            out.push(b);
            proof {
                assert(old(out)@ + percent_enc(s@.take(i as int)) + seq![b]
                    =~= old(out)@ + percent_enc(s@.take(i + 1)));
            }
        } else {
            out.push(37);
            out.push(hex_digit_rt(b / 16));
            out.push(hex_digit_rt(b % 16));
            proof {
                assert(old(out)@ + percent_enc(s@.take(i as int))
                        + seq![37u8, hex_digit(b / 16), hex_digit(b % 16)]
                    =~= old(out)@ + percent_enc(s@.take(i + 1)));
            }
        }
        i = i + 1;
    }
    proof {
        assert(s@.take(n as int) =~= s@);
    }
}

/// An announce request: the counters and identifiers reported to a
/// tracker, rendered as a query string.
#[derive(Debug)]
pub struct TrackerRequest {
    /// The descriptor's 20-byte info hash.
    pub info_hash: Vec<u8>,
    /// This client's 20-byte peer id.
    pub peer_id: Vec<u8>,
    /// The port this client listens on.
    pub port: u16,
    /// Bytes served to other peers.
    pub uploaded: u64,
    /// Raw bytes fetched, duplicates included.
    pub downloaded: u64,
    /// Bytes still to download.
    pub left: u64,
    /// Ask for the compact peer format.
    pub compact: bool,
    /// Ask the tracker to omit peer ids.
    pub no_peer_id: bool,
    /// The event of this announce, if any.
    pub event: Option<TrackerEvent>,
}

impl TrackerRequest {
    /// The exact query string of this request.
    pub open spec fn spec_querystring(self) -> Seq<u8> {
        "info_hash=".spec_bytes() + percent_enc(self.info_hash@)
            + "&peer_id=".spec_bytes() + percent_enc(self.peer_id@)
            + "&port=".spec_bytes() + dec_bytes(self.port as int)
            + "&uploaded=".spec_bytes() + dec_bytes(self.uploaded as int)
            + "&downloaded=".spec_bytes() + dec_bytes(self.downloaded as int)
            + "&left=".spec_bytes() + dec_bytes(self.left as int)
            + "&compact=".spec_bytes() + (if self.compact { "1" } else { "0" }).spec_bytes()
            + "&no_peer_id=".spec_bytes() + (if self.no_peer_id { "1" } else { "0" }).spec_bytes()
            + match self.event {
                Some(e) => "&event=".spec_bytes() + event_bytes(e),
                None => Seq::empty(),
            }
    }

    /// Render the request as the announce URL's query string: raw byte
    /// identifiers percent-encoded, counters in decimal, the event's
    /// name appended only when one is set.
    pub fn as_querystring(&self) -> (r: Vec<u8>)
        ensures
            r@ == self.spec_querystring(),
    {
        let mut out: Vec<u8> = Vec::new();
        proof {
            assert(out@ + "info_hash=".spec_bytes() =~= "info_hash=".spec_bytes());
        }
        append_str(&mut out, "info_hash=");
        append_percent(&mut out, &self.info_hash);
        append_str(&mut out, "&peer_id=");
        append_percent(&mut out, &self.peer_id);
        append_str(&mut out, "&port=");
        append_dec(&mut out, self.port as u64);
        append_str(&mut out, "&uploaded=");
        append_dec(&mut out, self.uploaded);
        append_str(&mut out, "&downloaded=");
        append_dec(&mut out, self.downloaded);
        append_str(&mut out, "&left=");
        append_dec(&mut out, self.left);
        append_str(&mut out, "&compact=");
        append_str(&mut out, if self.compact { "1" } else { "0" });
        append_str(&mut out, "&no_peer_id=");
        append_str(&mut out, if self.no_peer_id { "1" } else { "0" });
        match self.event {
            Some(e) => {
                append_str(&mut out, "&event=");
                match e {
                    TrackerEvent::Started => append_str(&mut out, "started"),
                    TrackerEvent::Stopped => append_str(&mut out, "stopped"),
                    TrackerEvent::Completed => append_str(&mut out, "completed"),
                }
            },
            None => {
                proof {
                    assert(out@ + Seq::<u8>::empty() =~= out@);
                }
            },
        }
        out
    }
}

/// A successful announce: the seconds to wait before the next announce,
/// and the peers the tracker handed out.
#[derive(Debug)]
pub struct TrackerResponse {
    /// Seconds until the next announce.
    pub interval: u64,
    /// The peers offered by the tracker.
    pub peers: Vec<PeerAddr>,
}

/// Why an announce failed. Every variant is retried after the fallback
/// sleep without changing the stored event.
#[derive(Debug)]
pub enum TrackerFault {
    /// The transport failed or the HTTP status was not a success.
    HttpStatus,
    /// The tracker answered with an explicit failure payload; the reason
    /// bytes are surfaced.
    Failure(Vec<u8>),
    /// The payload could not be decoded as an announce response.
    Decode,
}

/// The address at position `i` of a compact peer block: 4 address bytes
/// then 2 port bytes, network order.
pub open spec fn compact_peer_at(bytes: Seq<u8>, i: int) -> PeerAddr {
    PeerAddr {
        ip: (((bytes[6 * i] as int) * 16777216 + (bytes[6 * i + 1] as int) * 65536
            + (bytes[6 * i + 2] as int) * 256 + (bytes[6 * i + 3] as int)) as u32),
        port: (((bytes[6 * i + 4] as int) * 256 + (bytes[6 * i + 5] as int)) as u16),
    }
}

/// Decode a compact peer block: six bytes per peer, 4-byte address and
/// 2-byte port in network order. Fails exactly when the block's length
/// is not a multiple of six.
pub fn parse_compact_peers(bytes: &Vec<u8>) -> (r: Result<Vec<PeerAddr>, EngineError>)
    ensures
        match r {
            Ok(ps) => {
                &&& bytes@.len() % 6 == 0
                &&& ps@.len() == bytes@.len() / 6
                &&& forall|i: int| 0 <= i < ps@.len() ==> #[trigger] ps@[i] == compact_peer_at(bytes@, i)
            },
            Err(e) => {
                &&& e == EngineError::DecodeError
                &&& bytes@.len() % 6 != 0
            },
        },
{
    let n = bytes.len();
    if n % 6 != 0 {
        return Err(EngineError::DecodeError);
    }
    let count = n / 6;
    let mut peers: Vec<PeerAddr> = Vec::new();
    let mut i: usize = 0;
    while i < count
        invariant
            n == bytes@.len(),
            n % 6 == 0,
            count == n / 6,
            0 <= i <= count,
            peers@.len() == i,
            forall|k: int| 0 <= k < i ==> #[trigger] peers@[k] == compact_peer_at(bytes@, k),
        decreases count - i,
    {
        let base = 6 * i;
        assert(base + 5 < n) by (nonlinear_arith)
            requires i < count, count == n / 6, n % 6 == 0, base == 6 * i, n == bytes@.len();
        let b0 = bytes[base] as u32;
        let b1 = bytes[base + 1] as u32;
        let b2 = bytes[base + 2] as u32;
        let b3 = bytes[base + 3] as u32;
        let p0 = bytes[base + 4] as u16;
        let p1 = bytes[base + 5] as u16;
        let addr = PeerAddr {
            ip: b0 * 16777216 + b1 * 65536 + b2 * 256 + b3,
            port: p0 * 256 + p1,
        };
        peers.push(addr);
        i = i + 1;
    }
    Ok(peers)
}

/// The canonical dotted-decimal text of a v4 address.
pub open spec fn dotted_quad(ip: u32) -> Seq<u8> {
    dec_bytes(ip as int / 16777216)
        + seq![46u8] + dec_bytes((ip as int % 16777216) / 65536)
        + seq![46u8] + dec_bytes((ip as int % 65536) / 256)
        + seq![46u8] + dec_bytes(ip as int % 256)
}

/// What a dotted-decimal rendering pins down: the four components are
/// in range, and their texts and the separating dots stand at fixed
/// positions of the rendering.
proof fn lemma_dotted_layout(bytes: Seq<u8>, ip: u32)
    requires
        bytes == dotted_quad(ip),
    ensures
        ({
            let c1 = ip as int / 16777216;
            let c2 = (ip as int % 16777216) / 65536;
            let c3 = (ip as int % 65536) / 256;
            let c4 = ip as int % 256;
            let l1 = dec_bytes(c1).len() as int;
            let l2 = dec_bytes(c2).len() as int;
            let l3 = dec_bytes(c3).len() as int;
            let l4 = dec_bytes(c4).len() as int;
            &&& 0 <= c1 <= 255
            &&& 0 <= c2 <= 255
            &&& 0 <= c3 <= 255
            &&& 0 <= c4 <= 255
            &&& l1 >= 1 && l2 >= 1 && l3 >= 1 && l4 >= 1
            &&& bytes.len() == l1 + l2 + l3 + l4 + 3
            &&& bytes.subrange(0, l1) == dec_bytes(c1)
            &&& bytes[l1] == 46
            &&& bytes.subrange(l1 + 1, l1 + 1 + l2) == dec_bytes(c2)
            &&& bytes[l1 + 1 + l2] == 46
            &&& bytes.subrange(l1 + l2 + 2, l1 + l2 + 2 + l3) == dec_bytes(c3)
            &&& bytes[l1 + l2 + 2 + l3] == 46
            &&& bytes.subrange(l1 + l2 + l3 + 3, bytes.len() as int) == dec_bytes(c4)
        }),
{
    let c1 = ip as int / 16777216;
    let c2 = (ip as int % 16777216) / 65536;
    let c3 = (ip as int % 65536) / 256;
    let c4 = ip as int % 256;
    assert(0 <= ip as int / 16777216 <= 255) by (nonlinear_arith)
        requires 0 <= ip as int && (ip as int) < 4294967296;
    assert(0 <= (ip as int % 16777216) / 65536 <= 255) by (nonlinear_arith)
        requires 0 <= ip as int % 16777216 && (ip as int % 16777216) < 16777216;
    assert(0 <= (ip as int % 65536) / 256 <= 255) by (nonlinear_arith)
        requires 0 <= ip as int % 65536 && (ip as int % 65536) < 65536;
    lemma_dec_bytes_shape(c1);
    lemma_dec_bytes_shape(c2);
    lemma_dec_bytes_shape(c3);
    lemma_dec_bytes_shape(c4);
    let l1 = dec_bytes(c1).len() as int;
    let l2 = dec_bytes(c2).len() as int;
    let l3 = dec_bytes(c3).len() as int;
    let l4 = dec_bytes(c4).len() as int;
    assert(bytes.subrange(0, l1) =~= dec_bytes(c1));
    assert(bytes.subrange(l1 + 1, l1 + 1 + l2) =~= dec_bytes(c2));
    assert(bytes.subrange(l1 + l2 + 2, l1 + l2 + 2 + l3) =~= dec_bytes(c3));
    assert(bytes.subrange(l1 + l2 + l3 + 3, bytes.len() as int) =~= dec_bytes(c4));
}

/// When a dotted rendering's first component has been parsed, its value
/// and boundary are pinned, and the second component's text follows the
/// dot.
proof fn lemma_dotted_chain1(bytes: Seq<u8>, ip: u32, a: int, p1: int)
    requires
        bytes == dotted_quad(ip),
        0 <= a,
        0 < p1 <= bytes.len(),
        bytes.subrange(0, p1) == dec_bytes(a),
        bytes[0] == 48 ==> p1 == 1,
        bytes[0] != 48 ==> (p1 == bytes.len() || !is_digit(bytes[p1])),
    ensures
        ({
            let c2 = (ip as int % 16777216) / 65536;
            let l2 = dec_bytes(c2).len() as int;
            &&& 0 <= a <= 255
            &&& a == ip as int / 16777216
            &&& p1 == dec_bytes(ip as int / 16777216).len()
            &&& p1 < bytes.len()
            &&& bytes[p1] == 46
            &&& 0 <= c2 <= 255
            &&& p1 + 1 < p1 + 1 + l2 <= bytes.len()
            &&& bytes.subrange(p1 + 1, p1 + 1 + l2) == dec_bytes(c2)
            &&& !is_digit(bytes[p1 + 1 + l2])
        }),
{
    lemma_dotted_layout(bytes, ip);
    let c1 = ip as int / 16777216;
    let l1 = dec_bytes(c1).len() as int;
    assert(!is_digit(bytes[l1]));
    lemma_number_at_unique(bytes, 0, a, p1, c1, l1);
    let c2 = (ip as int % 16777216) / 65536;
    let l2 = dec_bytes(c2).len() as int;
    assert(bytes[l1 + 1 + l2] == 46);
}

/// With the first boundary pinned, a parsed second component is pinned
/// too, and the third component's text follows the next dot.
proof fn lemma_dotted_chain2(bytes: Seq<u8>, ip: u32, b: int, p1: int, p2: int)
    requires
        bytes == dotted_quad(ip),
        p1 == dec_bytes(ip as int / 16777216).len(),
        0 <= b,
        p1 + 1 < p2 <= bytes.len(),
        bytes.subrange(p1 + 1, p2) == dec_bytes(b),
        bytes[p1 + 1] == 48 ==> p2 == p1 + 2,
        bytes[p1 + 1] != 48 ==> (p2 == bytes.len() || !is_digit(bytes[p2])),
    ensures
        ({
            let c3 = (ip as int % 65536) / 256;
            let l3 = dec_bytes(c3).len() as int;
            &&& 0 <= b <= 255
            &&& b == (ip as int % 16777216) / 65536
            &&& p2 == p1 + 1 + dec_bytes((ip as int % 16777216) / 65536).len()
            &&& p2 < bytes.len()
            &&& bytes[p2] == 46
            &&& 0 <= c3 <= 255
            &&& p2 + 1 < p2 + 1 + l3 <= bytes.len()
            &&& bytes.subrange(p2 + 1, p2 + 1 + l3) == dec_bytes(c3)
            &&& !is_digit(bytes[p2 + 1 + l3])
        }),
{
    lemma_dotted_layout(bytes, ip);
    let c2 = (ip as int % 16777216) / 65536;
    let l2 = dec_bytes(c2).len() as int;
    assert(bytes.subrange(p1 + 1, p1 + 1 + l2) == dec_bytes(c2));
    assert(!is_digit(bytes[p1 + 1 + l2]));
    lemma_number_at_unique(bytes, p1 + 1, b, p2, c2, p1 + 1 + l2);
    let c3 = (ip as int % 65536) / 256;
    let l3 = dec_bytes(c3).len() as int;
    assert(bytes[p2 + 1 + l3] == 46);
}

/// With the second boundary pinned, a parsed third component is pinned
/// too, and the final component's text runs to the end of the rendering.
proof fn lemma_dotted_chain3(bytes: Seq<u8>, ip: u32, c: int, p2: int, p3: int)
    requires
        bytes == dotted_quad(ip),
        p2 == dec_bytes(ip as int / 16777216).len() + 1
            + dec_bytes((ip as int % 16777216) / 65536).len(),
        0 <= c,
        p2 + 1 < p3 <= bytes.len(),
        bytes.subrange(p2 + 1, p3) == dec_bytes(c),
        bytes[p2 + 1] == 48 ==> p3 == p2 + 2,
        bytes[p2 + 1] != 48 ==> (p3 == bytes.len() || !is_digit(bytes[p3])),
    ensures
        ({
            let c4 = ip as int % 256;
            &&& 0 <= c <= 255
            &&& c == (ip as int % 65536) / 256
            &&& p3 < bytes.len()
            &&& bytes[p3] == 46
            &&& 0 <= c4 <= 255
            &&& p3 + 1 < bytes.len()
            &&& bytes.subrange(p3 + 1, bytes.len() as int) == dec_bytes(c4)
        }),
{
    lemma_dotted_layout(bytes, ip);
    let c3 = (ip as int % 65536) / 256;
    let l3 = dec_bytes(c3).len() as int;
    assert(bytes.subrange(p2 + 1, p2 + 1 + l3) == dec_bytes(c3));
    assert(!is_digit(bytes[p2 + 1 + l3]));
    lemma_number_at_unique(bytes, p2 + 1, c, p3, c3, p2 + 1 + l3);
}

/// No address renders to an input whose head is not a number's text.
proof fn lemma_not_dotted_no_first_number(bytes: Seq<u8>)
    requires
        forall|m: int, e2: int|
            (0 <= m <= u64::MAX && 0 < e2 <= bytes.len()
                && (e2 == bytes.len() || !is_digit(bytes[e2]))
                && #[trigger] bytes.subrange(0, e2) == #[trigger] dec_bytes(m))
            ==> false,
    ensures
        forall|ip: u32| bytes != dotted_quad(ip),
{
    assert forall|ip: u32| bytes != dotted_quad(ip) by {
        if bytes == dotted_quad(ip) {
            lemma_dotted_layout(bytes, ip);
            let c1 = ip as int / 16777216;
            let l1 = dec_bytes(c1).len() as int;
            assert(!is_digit(bytes[l1]));
            assert(bytes.subrange(0, l1) == dec_bytes(c1));
            assert(false);
        }
    }
}

/// No address renders to an input whose first number is out of range or
/// not followed by a dot.
proof fn lemma_not_dotted_first_component(bytes: Seq<u8>, a: int, p1: int)
    requires
        0 <= a,
        0 < p1 <= bytes.len(),
        bytes.subrange(0, p1) == dec_bytes(a),
        bytes[0] == 48 ==> p1 == 1,
        bytes[0] != 48 ==> (p1 == bytes.len() || !is_digit(bytes[p1])),
        a > 255 || p1 >= bytes.len() || bytes[p1] != 46,
    ensures
        forall|ip: u32| bytes != dotted_quad(ip),
{
    assert forall|ip: u32| bytes != dotted_quad(ip) by {
        if bytes == dotted_quad(ip) {
            lemma_dotted_chain1(bytes, ip, a, p1);
            assert(false);
        }
    }
}

/// No address renders to an input whose second field is not a number's
/// text.
proof fn lemma_not_dotted_no_second_number(bytes: Seq<u8>, a: int, p1: int)
    requires
        0 <= a,
        0 < p1 <= bytes.len(),
        bytes.subrange(0, p1) == dec_bytes(a),
        bytes[0] == 48 ==> p1 == 1,
        bytes[0] != 48 ==> (p1 == bytes.len() || !is_digit(bytes[p1])),
        forall|m: int, e2: int|
            (0 <= m <= u64::MAX && p1 + 1 < e2 <= bytes.len()
                && (e2 == bytes.len() || !is_digit(bytes[e2]))
                && #[trigger] bytes.subrange(p1 + 1, e2) == #[trigger] dec_bytes(m))
            ==> false,
    ensures
        forall|ip: u32| bytes != dotted_quad(ip),
{
    assert forall|ip: u32| bytes != dotted_quad(ip) by {
        if bytes == dotted_quad(ip) {
            lemma_dotted_chain1(bytes, ip, a, p1);
            let c2 = (ip as int % 16777216) / 65536;
            let l2 = dec_bytes(c2).len() as int;
            assert(bytes.subrange(p1 + 1, p1 + 1 + l2) == dec_bytes(c2));
            assert(false);
        }
    }
}

/// No address renders to an input whose second number is out of range or
/// not followed by a dot.
proof fn lemma_not_dotted_second_component(bytes: Seq<u8>, a: int, p1: int, b: int, p2: int)
    requires
        0 <= a,
        0 < p1 <= bytes.len(),
        bytes.subrange(0, p1) == dec_bytes(a),
        bytes[0] == 48 ==> p1 == 1,
        bytes[0] != 48 ==> (p1 == bytes.len() || !is_digit(bytes[p1])),
        0 <= b,
        p1 + 1 < p2 <= bytes.len(),
        bytes.subrange(p1 + 1, p2) == dec_bytes(b),
        bytes[p1 + 1] == 48 ==> p2 == p1 + 2,
        bytes[p1 + 1] != 48 ==> (p2 == bytes.len() || !is_digit(bytes[p2])),
        b > 255 || p2 >= bytes.len() || bytes[p2] != 46,
    ensures
        forall|ip: u32| bytes != dotted_quad(ip),
{
    assert forall|ip: u32| bytes != dotted_quad(ip) by {
        if bytes == dotted_quad(ip) {
            lemma_dotted_chain1(bytes, ip, a, p1);
            lemma_dotted_chain2(bytes, ip, b, p1, p2);
            assert(false);
        }
    }
}

/// No address renders to an input whose third field is not a number's
/// text.
proof fn lemma_not_dotted_no_third_number(bytes: Seq<u8>, a: int, p1: int, b: int, p2: int)
    requires
        0 <= a,
        0 < p1 <= bytes.len(),
        bytes.subrange(0, p1) == dec_bytes(a),
        bytes[0] == 48 ==> p1 == 1,
        bytes[0] != 48 ==> (p1 == bytes.len() || !is_digit(bytes[p1])),
        0 <= b,
        p1 + 1 < p2 <= bytes.len(),
        bytes.subrange(p1 + 1, p2) == dec_bytes(b),
        bytes[p1 + 1] == 48 ==> p2 == p1 + 2,
        bytes[p1 + 1] != 48 ==> (p2 == bytes.len() || !is_digit(bytes[p2])),
        forall|m: int, e2: int|
            (0 <= m <= u64::MAX && p2 + 1 < e2 <= bytes.len()
                && (e2 == bytes.len() || !is_digit(bytes[e2]))
                && #[trigger] bytes.subrange(p2 + 1, e2) == #[trigger] dec_bytes(m))
            ==> false,
    ensures
        forall|ip: u32| bytes != dotted_quad(ip),
{
    assert forall|ip: u32| bytes != dotted_quad(ip) by {
        if bytes == dotted_quad(ip) {
            lemma_dotted_chain1(bytes, ip, a, p1);
            lemma_dotted_chain2(bytes, ip, b, p1, p2);
            let c3 = (ip as int % 65536) / 256;
            let l3 = dec_bytes(c3).len() as int;
            assert(bytes.subrange(p2 + 1, p2 + 1 + l3) == dec_bytes(c3));
            assert(false);
        }
    }
}

/// No address renders to an input whose third number is out of range or
/// not followed by a dot.
proof fn lemma_not_dotted_third_component(bytes: Seq<u8>, a: int, p1: int, b: int, p2: int, c: int, p3: int)
    requires
        0 <= a,
        0 < p1 <= bytes.len(),
        bytes.subrange(0, p1) == dec_bytes(a),
        bytes[0] == 48 ==> p1 == 1,
        bytes[0] != 48 ==> (p1 == bytes.len() || !is_digit(bytes[p1])),
        0 <= b,
        p1 + 1 < p2 <= bytes.len(),
        bytes.subrange(p1 + 1, p2) == dec_bytes(b),
        bytes[p1 + 1] == 48 ==> p2 == p1 + 2,
        bytes[p1 + 1] != 48 ==> (p2 == bytes.len() || !is_digit(bytes[p2])),
        0 <= c,
        p2 + 1 < p3 <= bytes.len(),
        bytes.subrange(p2 + 1, p3) == dec_bytes(c),
        bytes[p2 + 1] == 48 ==> p3 == p2 + 2,
        bytes[p2 + 1] != 48 ==> (p3 == bytes.len() || !is_digit(bytes[p3])),
        c > 255 || p3 >= bytes.len() || bytes[p3] != 46,
    ensures
        forall|ip: u32| bytes != dotted_quad(ip),
{
    assert forall|ip: u32| bytes != dotted_quad(ip) by {
        if bytes == dotted_quad(ip) {
            lemma_dotted_chain1(bytes, ip, a, p1);
            lemma_dotted_chain2(bytes, ip, b, p1, p2);
            lemma_dotted_chain3(bytes, ip, c, p2, p3);
            assert(false);
        }
    }
}

/// No address renders to an input whose fourth field is not a number's
/// text.
proof fn lemma_not_dotted_no_fourth_number(bytes: Seq<u8>, a: int, p1: int, b: int, p2: int, c: int, p3: int)
    requires
        0 <= a,
        0 < p1 <= bytes.len(),
        bytes.subrange(0, p1) == dec_bytes(a),
        bytes[0] == 48 ==> p1 == 1,
        bytes[0] != 48 ==> (p1 == bytes.len() || !is_digit(bytes[p1])),
        0 <= b,
        p1 + 1 < p2 <= bytes.len(),
        bytes.subrange(p1 + 1, p2) == dec_bytes(b),
        bytes[p1 + 1] == 48 ==> p2 == p1 + 2,
        bytes[p1 + 1] != 48 ==> (p2 == bytes.len() || !is_digit(bytes[p2])),
        0 <= c,
        p2 + 1 < p3 <= bytes.len(),
        bytes.subrange(p2 + 1, p3) == dec_bytes(c),
        bytes[p2 + 1] == 48 ==> p3 == p2 + 2,
        bytes[p2 + 1] != 48 ==> (p3 == bytes.len() || !is_digit(bytes[p3])),
        forall|m: int, e2: int|
            (0 <= m <= u64::MAX && p3 + 1 < e2 <= bytes.len()
                && (e2 == bytes.len() || !is_digit(bytes[e2]))
                && #[trigger] bytes.subrange(p3 + 1, e2) == #[trigger] dec_bytes(m))
            ==> false,
    ensures
        forall|ip: u32| bytes != dotted_quad(ip),
{
    assert forall|ip: u32| bytes != dotted_quad(ip) by {
        if bytes == dotted_quad(ip) {
            lemma_dotted_chain1(bytes, ip, a, p1);
            lemma_dotted_chain2(bytes, ip, b, p1, p2);
            lemma_dotted_chain3(bytes, ip, c, p2, p3);
            let c4 = ip as int % 256;
            assert(bytes.subrange(p3 + 1, bytes.len() as int) == dec_bytes(c4));
            assert(false);
        }
    }
}

/// No address renders to an input whose fourth number is out of range or
/// does not end the input.
proof fn lemma_not_dotted_fourth_component(bytes: Seq<u8>, a: int, p1: int, b: int, p2: int, c: int, p3: int, d: int, p4: int)
    requires
        0 <= a,
        0 < p1 <= bytes.len(),
        bytes.subrange(0, p1) == dec_bytes(a),
        bytes[0] == 48 ==> p1 == 1,
        bytes[0] != 48 ==> (p1 == bytes.len() || !is_digit(bytes[p1])),
        0 <= b,
        p1 + 1 < p2 <= bytes.len(),
        bytes.subrange(p1 + 1, p2) == dec_bytes(b),
        bytes[p1 + 1] == 48 ==> p2 == p1 + 2,
        bytes[p1 + 1] != 48 ==> (p2 == bytes.len() || !is_digit(bytes[p2])),
        0 <= c,
        p2 + 1 < p3 <= bytes.len(),
        bytes.subrange(p2 + 1, p3) == dec_bytes(c),
        bytes[p2 + 1] == 48 ==> p3 == p2 + 2,
        bytes[p2 + 1] != 48 ==> (p3 == bytes.len() || !is_digit(bytes[p3])),
        0 <= d,
        p3 + 1 < p4 <= bytes.len(),
        bytes.subrange(p3 + 1, p4) == dec_bytes(d),
        bytes[p3 + 1] == 48 ==> p4 == p3 + 2,
        bytes[p3 + 1] != 48 ==> (p4 == bytes.len() || !is_digit(bytes[p4])),
        d > 255 || p4 != bytes.len(),
    ensures
        forall|ip: u32| bytes != dotted_quad(ip),
{
    assert forall|ip: u32| bytes != dotted_quad(ip) by {
        if bytes == dotted_quad(ip) {
            lemma_dotted_chain1(bytes, ip, a, p1);
            lemma_dotted_chain2(bytes, ip, b, p1, p2);
            lemma_dotted_chain3(bytes, ip, c, p2, p3);
            let c4 = ip as int % 256;
            lemma_number_at_unique(bytes, p3 + 1, d, p4, c4, bytes.len() as int);
            assert(false);
        }
    }
}

/// Four in-range numbers written out with dots between them, spanning
/// the whole input, are the dotted rendering of the address they
/// compose.
proof fn lemma_dotted_compose(bytes: Seq<u8>, a: int, p1: int, b: int, p2: int, c: int, p3: int, d: int, p4: int, ip: u32)
    requires
        0 <= a <= 255,
        0 <= b <= 255,
        0 <= c <= 255,
        0 <= d <= 255,
        ip as int == a * 16777216 + b * 65536 + c * 256 + d,
        0 < p1,
        p1 + 1 < p2,
        p2 + 1 < p3,
        p3 + 1 < p4,
        p4 == bytes.len(),
        bytes.subrange(0, p1) == dec_bytes(a),
        bytes[p1] == 46,
        bytes.subrange(p1 + 1, p2) == dec_bytes(b),
        bytes[p2] == 46,
        bytes.subrange(p2 + 1, p3) == dec_bytes(c),
        bytes[p3] == 46,
        bytes.subrange(p3 + 1, p4) == dec_bytes(d),
    ensures
        bytes == dotted_quad(ip),
{
    let i = ip as int;
    lemma_fundamental_div_mod_converse(
        i, 16777216, a, b * 65536 + c * 256 + d);
    lemma_mod_multiples_vanish(a * 256, b * 65536 + c * 256 + d, 65536);
    lemma_fundamental_div_mod_converse(
        b * 65536 + c * 256 + d, 65536, b, c * 256 + d);
    lemma_mod_multiples_vanish(a * 65536 + b * 256 + c, d, 256);
    lemma_fundamental_div_mod_converse(c * 256 + d, 256, c, d);
    assert(bytes =~= bytes.subrange(0, p1) + seq![bytes[p1]]
        + bytes.subrange(p1 + 1, p2) + seq![bytes[p2]]
        + bytes.subrange(p2 + 1, p3) + seq![bytes[p3]]
        + bytes.subrange(p3 + 1, p4));
    assert(bytes =~= dotted_quad(ip));
}

/// Parse a dotted-decimal v4 address: four canonical decimal runs below
/// 256, separated by dots, spanning the whole input. A parsed address
/// renders back to exactly the input text, and a rejected input is the
/// rendering of no address at all.
#[verifier::rlimit(100)]
pub fn parse_ipv4_text(bytes: &Vec<u8>) -> (r: Option<u32>)
    ensures
        r matches Some(ip) ==> bytes@ == dotted_quad(ip),
        r is None ==> forall|ip: u32| bytes@ != dotted_quad(ip),
{
    let n = bytes.len();
    let (a, p1) = match parse_number(bytes, 0) {
        Ok(v) => v,
        Err(_) => {
            proof {
                lemma_not_dotted_no_first_number(bytes@);
            }
            return None;
        },
    };
    if a > 255 || p1 >= n || bytes[p1] != 46 {
        proof {
            lemma_not_dotted_first_component(bytes@, a as int, p1 as int);
        }
        return None;
    }
    let (b, p2) = match parse_number(bytes, p1 + 1) {
        Ok(v) => v,
        Err(_) => {
            proof {
                lemma_not_dotted_no_second_number(bytes@, a as int, p1 as int);
            }
            return None;
        },
    };
    if b > 255 || p2 >= n || bytes[p2] != 46 {
        proof {
            lemma_not_dotted_second_component(bytes@, a as int, p1 as int, b as int, p2 as int);
        }
        return None;
    }
    let (c, p3) = match parse_number(bytes, p2 + 1) {
        Ok(v) => v,
        Err(_) => {
            proof {
                lemma_not_dotted_no_third_number(bytes@, a as int, p1 as int, b as int, p2 as int);
            }
            return None;
        },
    };
    if c > 255 || p3 >= n || bytes[p3] != 46 {
        proof {
            lemma_not_dotted_third_component(bytes@, a as int, p1 as int, b as int, p2 as int, c as int, p3 as int);
        }
        return None;
    }
    let (d, p4) = match parse_number(bytes, p3 + 1) {
        Ok(v) => v,
        Err(_) => {
            proof {
                lemma_not_dotted_no_fourth_number(bytes@, a as int, p1 as int, b as int, p2 as int, c as int, p3 as int);
            }
            return None;
        },
    };
    if d > 255 || p4 != n {
        proof {
            lemma_not_dotted_fourth_component(bytes@, a as int, p1 as int, b as int, p2 as int, c as int, p3 as int, d as int, p4 as int);
        }
        return None;
    }
    let ip: u32 = (a as u32) * 16777216 + (b as u32) * 65536 + (c as u32) * 256 + (d as u32);
    proof {
        lemma_dotted_compose(
            bytes@, a as int, p1 as int, b as int, p2 as int,
            c as int, p3 as int, d as int, p4 as int, ip);
    }
    Some(ip)
}

/// A peer dictionary decodes to `p`: its `ip` byte string is the
/// dotted-decimal rendering of `p`'s address, and its `port` integer is
/// `p`'s port.
pub open spec fn dict_peer_decodes(v: BValue, p: PeerAddr) -> bool {
    match v {
        BValue::Dict(pairs) => {
            &&& match dict_first(pairs@, "ip".spec_bytes()) {
                Some(iv) => iv matches BValue::Bytes(b) && b@ == dotted_quad(p.ip),
                None => false,
            }
            &&& dict_first(pairs@, "port".spec_bytes()) == Some(BValue::Integer(p.port as i64))
        },
        _ => false,
    }
}

/// A `peers` value decodes to exactly these peers: a compact block of
/// six bytes per peer, or a list of peer dictionaries, in order.
pub open spec fn peers_value_decodes(v: BValue, peers: Seq<PeerAddr>) -> bool {
    match v {
        BValue::Bytes(b) => {
            &&& b@.len() % 6 == 0
            &&& peers.len() == b@.len() / 6
            &&& forall|i: int| 0 <= i < peers.len() ==> #[trigger] peers[i] == compact_peer_at(b@, i)
        },
        BValue::List(items) => {
            &&& peers.len() == items@.len()
            &&& forall|i: int| 0 <= i < items@.len() ==> dict_peer_decodes(#[trigger] items@[i], peers[i])
        },
        _ => false,
    }
}

/// Decode the peers of a response dictionary: either a compact byte
/// block, or a list of dictionaries each holding a dotted-decimal
/// address string under `ip` and an integer under `port`. On success the
/// returned peers are exactly what the value spells out; on failure the
/// value spells out no peers at all.
fn decode_peers(v: &BValue) -> (r: Result<Vec<PeerAddr>, EngineError>)
    ensures
        r matches Ok(ps) ==> peers_value_decodes(*v, ps@),
        r is Err ==> (r matches Err(e) && e == EngineError::DecodeError),
        r is Err ==> forall|ps: Seq<PeerAddr>| !peers_value_decodes(*v, ps),
{
    match v {
        BValue::Bytes(b) => {
            match parse_compact_peers(b) {
                Ok(ps) => Ok(ps),
                Err(e) => {
                    proof {
                        assert forall|ps: Seq<PeerAddr>| !peers_value_decodes(*v, ps) by {}
                    }
                    Err(e)
                },
            }
        },
        BValue::List(items) => {
            let mut peers: Vec<PeerAddr> = Vec::new();
            let n = items.len();
            let mut i: usize = 0;
            while i < n
                invariant
                    n == items@.len(),
                    0 <= i <= n,
                    *v == BValue::List(*items),
                    peers@.len() == i,
                    forall|k: int| 0 <= k < i ==> dict_peer_decodes(#[trigger] items@[k], peers@[k]),
                decreases n - i,
            {
                match &items[i] {
                    BValue::Dict(pairs) => {
                        let ip: u32 = match dict_get(pairs, "ip".as_bytes()) {
                            Some(BValue::Bytes(b)) => {
                                match parse_ipv4_text(b) {
                                    Some(ip) => ip,
                                    None => {
                                        proof {
                                            assert forall|ps: Seq<PeerAddr>| !peers_value_decodes(*v, ps) by {
                                                if peers_value_decodes(*v, ps) {
                                                    assert(dict_peer_decodes(items@[i as int], ps[i as int]));
                                                }
                                            }
                                        }
                                        return Err(EngineError::DecodeError);
                                    },
                                }
                            },
                            _ => {
                                proof {
                                    assert forall|ps: Seq<PeerAddr>| !peers_value_decodes(*v, ps) by {
                                        if peers_value_decodes(*v, ps) {
                                            assert(dict_peer_decodes(items@[i as int], ps[i as int]));
                                        }
                                    }
                                }
                                return Err(EngineError::DecodeError);
                            },
                        };
                        let port: u16 = match dict_get(pairs, "port".as_bytes()) {
                            Some(BValue::Integer(p)) => {
                                let pv = *p;
                                if 0 <= pv && pv <= 65535 {
                                    pv as u16
                                } else {
                                    proof {
                                        assert forall|ps: Seq<PeerAddr>| !peers_value_decodes(*v, ps) by {
                                            if peers_value_decodes(*v, ps) {
                                                assert(dict_peer_decodes(items@[i as int], ps[i as int]));
                                            }
                                        }
                                    }
                                    return Err(EngineError::DecodeError);
                                }
                            },
                            _ => {
                                proof {
                                    assert forall|ps: Seq<PeerAddr>| !peers_value_decodes(*v, ps) by {
                                        if peers_value_decodes(*v, ps) {
                                            assert(dict_peer_decodes(items@[i as int], ps[i as int]));
                                        }
                                    }
                                }
                                return Err(EngineError::DecodeError);
                            },
                        };
                        proof {
                            assert(dict_peer_decodes(items@[i as int], PeerAddr { ip, port }));
                        }
                        peers.push(PeerAddr { ip, port });
                    },
                    _ => {
                        proof {
                            assert forall|ps: Seq<PeerAddr>| !peers_value_decodes(*v, ps) by {
                                if peers_value_decodes(*v, ps) {
                                    assert(dict_peer_decodes(items@[i as int], ps[i as int]));
                                }
                            }
                        }
                        return Err(EngineError::DecodeError);
                    },
                }
                i = i + 1;
            }
            Ok(peers)
        },
        _ => {
            proof {
                assert forall|ps: Seq<PeerAddr>| !peers_value_decodes(*v, ps) by {}
            }
            Err(EngineError::DecodeError)
        },
    }
}

/// Classify a tracker's answer. A failed transport or non-success status
/// is a `HttpStatus` fault, exactly then. With a success status, a body
/// that decodes as a dictionary with a `failure reason` byte string is
/// an explicit tracker failure surfacing exactly those bytes; a body
/// that decodes as a dictionary without one but with a non-negative
/// `interval` integer and a well-formed `peers` field yields `Ok` with
/// exactly that interval and exactly those peers; any other body is a
/// `Decode` fault.
pub fn process_tracker_response(status_success: bool, body: &Vec<u8>) -> (r: Result<TrackerResponse, TrackerFault>)
    ensures
        (r matches Err(f) && f is HttpStatus) <==> !status_success,
        match r {
            Err(TrackerFault::Failure(reason)) => exists|pairs: Seq<(Vec<u8>, BValue)>, end: int|
                0 < end <= body@.len()
                && seq![100u8] + enc_pairs(pairs) + seq![101u8] == #[trigger] body@.subrange(0, end)
                && (match #[trigger] dict_first(pairs, "failure reason".spec_bytes()) {
                    Some(fv) => fv matches BValue::Bytes(fb) && fb@ == reason@,
                    None => false,
                }),
            _ => true,
        },
        match r {
            Err(TrackerFault::Decode) => status_success && (
                no_value_at(body@, 0)
                || (exists|v: BValue, end: int|
                        0 < end <= body@.len()
                        && #[trigger] enc(v) == #[trigger] body@.subrange(0, end)
                        && !(v is Dict))
                || (exists|pairs: Seq<(Vec<u8>, BValue)>, end: int|
                        0 < end <= body@.len()
                        && seq![100u8] + enc_pairs(pairs) + seq![101u8] == #[trigger] body@.subrange(0, end)
                        && (match #[trigger] dict_first(pairs, "failure reason".spec_bytes()) {
                            Some(fv) => !(fv is Bytes),
                            None => true,
                        })
                        && (!(match dict_first(pairs, "interval".spec_bytes()) {
                                Some(iv) => iv matches BValue::Integer(ii) && 0 <= ii,
                                None => false,
                            })
                            || (match dict_first(pairs, "peers".spec_bytes()) {
                                Some(pv) => (forall|ps: Seq<PeerAddr>| !peers_value_decodes(pv, ps)),
                                None => true,
                            })))
            ),
            _ => true,
        },
        r matches Ok(resp) ==>
            exists|pairs: Seq<(Vec<u8>, BValue)>, end: int|
                0 < end <= body@.len()
                && seq![100u8] + enc_pairs(pairs) + seq![101u8] == #[trigger] body@.subrange(0, end)
                && (match #[trigger] dict_first(pairs, "failure reason".spec_bytes()) {
                    Some(fv) => !(fv is Bytes),
                    None => true,
                })
                && resp.interval <= i64::MAX
                && dict_first(pairs, "interval".spec_bytes()) == Some(BValue::Integer(resp.interval as i64))
                && (match dict_first(pairs, "peers".spec_bytes()) {
                    Some(pv) => peers_value_decodes(pv, resp.peers@),
                    None => false,
                }),
{
    if !status_success {
        return Err(TrackerFault::HttpStatus);
    }
    let (parsed, consumed) = match parse_value(body, 0) {
        Ok(vp) => vp,
        Err(_) => {
            return Err(TrackerFault::Decode);
        },
    };
    let pairs = match &parsed {
        BValue::Dict(pairs) => pairs,
        _ => {
            proof {
                assert(enc(parsed) == body@.subrange(0, consumed as int));
                assert(!(parsed is Dict));
            }
            return Err(TrackerFault::Decode);
        },
    };
    proof {
        assert(seq![100u8] + enc_pairs(pairs@) + seq![101u8] == body@.subrange(0, consumed as int));
    }
    if let Some(fv) = dict_get(pairs, "failure reason".as_bytes()) {
        if let BValue::Bytes(reason) = fv {
            let mut copy: Vec<u8> = Vec::new();
            let n = reason.len();
            let mut i: usize = 0;
            while i < n
                invariant
                    n == reason@.len(),
                    0 <= i <= n,
                    copy@ == reason@.take(i as int),
                decreases n - i,
            {
                copy.push(reason[i]);
                proof {
                    assert(reason@.take(i as int).push(reason@[i as int]) =~= reason@.take(i + 1));
                }
                i = i + 1;
            }
            proof {
                assert(copy@ == reason@) by {
                    assert(reason@.take(n as int) =~= reason@);
                }
                assert(match dict_first(pairs@, "failure reason".spec_bytes()) {
                    Some(fv2) => fv2 matches BValue::Bytes(fb) && fb@ == copy@,
                    None => false,
                });
            }
            return Err(TrackerFault::Failure(copy));
        }
    }
    proof {
        assert(match dict_first(pairs@, "failure reason".spec_bytes()) {
            Some(fv) => !(fv is Bytes),
            None => true,
        });
    }
    let interval: u64 = match dict_get(pairs, "interval".as_bytes()) {
        Some(BValue::Integer(iv)) => {
            let v = *iv;
            if v < 0 {
                proof {
                    assert(!(match dict_first(pairs@, "interval".spec_bytes()) {
                        Some(iv2) => iv2 matches BValue::Integer(ii) && 0 <= ii,
                        None => false,
                    }));
                }
                return Err(TrackerFault::Decode);
            }
            v as u64
        },
        _ => {
            proof {
                assert(!(match dict_first(pairs@, "interval".spec_bytes()) {
                    Some(iv2) => iv2 matches BValue::Integer(ii) && 0 <= ii,
                    None => false,
                }));
            }
            return Err(TrackerFault::Decode);
        },
    };
    let peers = match dict_get(pairs, "peers".as_bytes()) {
        Some(v) => match decode_peers(v) {
            Ok(ps) => ps,
            Err(_) => {
                proof {
                    assert(match dict_first(pairs@, "peers".spec_bytes()) {
                        Some(pv) => forall|ps2: Seq<PeerAddr>| !peers_value_decodes(pv, ps2),
                        None => true,
                    });
                }
                return Err(TrackerFault::Decode);
            },
        },
        None => {
            proof {
                assert(dict_first(pairs@, "peers".spec_bytes()) is None);
            }
            return Err(TrackerFault::Decode);
        },
    };
    proof {
        assert(dict_first(pairs@, "interval".spec_bytes()) == Some(BValue::Integer(interval as i64)));
        assert(match dict_first(pairs@, "peers".spec_bytes()) {
            Some(pv) => peers_value_decodes(pv, peers@),
            None => false,
        });
    }
    Ok(TrackerResponse { interval, peers })
}

/// One step of the announce loop's retry policy, a pure function of the
/// stored event and the announce outcome. A success clears the event and
/// sleeps for the forced interval when one is configured, else for the
/// tracker's interval floored at the configured minimum. Any failure
/// keeps the stored event unchanged (so `Started` is retried as
/// `Started`) and sleeps the fixed fallback interval.
pub fn announce_step(
    event: Option<TrackerEvent>,
    outcome: &Result<TrackerResponse, TrackerFault>,
    force_interval: Option<u64>,
    min_interval: u64,
) -> (r: (Option<TrackerEvent>, u64))
    ensures
        match outcome {
            Ok(resp) => {
                &&& r.0 is None
                &&& r.1 == match force_interval {
                    Some(f) => f,
                    None => if resp.interval >= min_interval { resp.interval } else { min_interval },
                }
            },
            Err(_) => r.0 == event && r.1 == TRACKER_FALLBACK_SLEEP_SECS,
        },
{
    match outcome {
        Ok(resp) => {
            let sleep = match force_interval {
                Some(f) => f,
                None => {
                    if resp.interval >= min_interval {
                        resp.interval
                    } else {
                        min_interval
                    }
                },
            };
            (None, sleep)
        },
        Err(_) => (event, TRACKER_FALLBACK_SLEEP_SECS),
    }
}

} // verus!

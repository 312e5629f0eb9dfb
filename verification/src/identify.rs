//! The role-driven exchange: what the listener sends, what the dialer reads.
//!
//! A single entry point performs the one transition the negotiated role
//! calls for.  The listener renders its announcement as one frame to write
//! and produces no information; the dialer consumes the bytes the stream
//! carried until it closed, and produces either the peer's information, or
//! nothing when the stream closed before any frame, or an error.

use crate::address::{
    addr_wf, decode_address, encode_address, lemma_address_round_trip, spec_encode_address,
    spec_parse_address, Address, Segment,
};
use crate::errors::{AddressField, IdentifyError};
use crate::frame::{lemma_frame_round_trip, read_frame, spec_frame, spec_parse_frame, write_frame};
use crate::message::{
    lemma_fold_listen, lemma_fold_protocols, lemma_fold_snoc, lemma_parse_field_cons,
    lemma_parse_rep_cons, parse_fields, push_field, spec_apply_field, spec_empty_raw, spec_field,
    spec_encode_fields, spec_fold_fields, spec_parse_fields, spec_rep_fields, RawMessage,
    RawMessageV,
};
use vstd::prelude::*;
use vstd::utf8::{decode_utf8, encode_utf8, encode_utf8_decode_utf8, encode_utf8_valid_utf8,
    valid_utf8};

verus! {

/// What a node announces about itself when it is the listener.
#[derive(Debug, Clone)]
pub struct IdentifyProtocol {
    /// Our public key to report to the remote, an opaque byte blob.
    pub public_key: Vec<u8>,
    /// Version of the wire protocol family, e.g. `ipfs/1.0.0`.
    pub protocol_version: String,
    /// Name and version of the client implementation.
    pub agent_version: String,
    /// Addresses that we are listening on.
    pub listen_addrs: Vec<Address>,
    /// Protocols supported by us.
    pub protocols: Vec<String>,
}

/// Information received by the dialer from the listener.
#[derive(Debug, Clone)]
pub struct IdentifyInfo {
    /// Public key of the remote node.
    pub public_key: Vec<u8>,
    /// Version of the wire protocol family the remote speaks.
    pub protocol_version: String,
    /// Name and version of the remote client implementation.
    pub agent_version: String,
    /// Addresses the remote is listening on, in the order it sent them.
    pub listen_addrs: Vec<Address>,
    /// Our own address, as observed by the remote.
    pub observed_addr: Address,
    /// Protocols supported by the remote, in the order it sent them.
    pub protocols: Vec<String>,
}

/// The negotiated role of this side of the connection.
#[derive(Clone, Copy, Debug, PartialEq, Eq, Structural)]
pub enum Endpoint {
    /// We dialed: we receive one message.
    Dialer,
    /// We accepted: we send one message.
    Listener,
}

/// The terminal result of one exchange: the information received, if any,
/// and the bytes that must still be written to the stream, if any.
#[derive(Debug)]
pub struct UpgradeResult {
    /// The peer's information (dialer role, when a frame arrived).
    pub info: Option<IdentifyInfo>,
    /// The single frame to write (listener role), else empty.
    pub output: Vec<u8>,
}

/// The mathematical content of an announcement.
pub struct IdentifyProtocolV {
    pub public_key: Seq<u8>,
    pub protocol_version: Seq<char>,
    pub agent_version: Seq<char>,
    pub listen_addrs: Seq<Seq<Segment>>,
    pub protocols: Seq<Seq<char>>,
}

/// The mathematical content of received information.
pub struct IdentifyInfoV {
    pub public_key: Seq<u8>,
    pub protocol_version: Seq<char>,
    pub agent_version: Seq<char>,
    pub listen_addrs: Seq<Seq<Segment>>,
    pub observed_addr: Seq<Segment>,
    pub protocols: Seq<Seq<char>>,
}

impl View for IdentifyProtocol {
    type V = IdentifyProtocolV;

    open spec fn view(&self) -> IdentifyProtocolV {
        IdentifyProtocolV {
            public_key: self.public_key@,
            protocol_version: self.protocol_version@,
            agent_version: self.agent_version@,
            listen_addrs: self.listen_addrs.deep_view(),
            protocols: self.protocols.deep_view(),
        }
    }
}

impl View for IdentifyInfo {
    type V = IdentifyInfoV;

    open spec fn view(&self) -> IdentifyInfoV {
        IdentifyInfoV {
            public_key: self.public_key@,
            protocol_version: self.protocol_version@,
            agent_version: self.agent_version@,
            listen_addrs: self.listen_addrs.deep_view(),
            observed_addr: self.observed_addr@,
            protocols: self.protocols.deep_view(),
        }
    }
}

impl IdentifyProtocolV {
    /// Every announced listen address is well formed.
    pub open spec fn wf(self) -> bool {
        forall|i: int| 0 <= i < self.listen_addrs.len() ==> addr_wf(#[trigger] self.listen_addrs[i])
    }
}

/// The raw wire fields that announce `p` with `observed` filled in.
pub open spec fn spec_raw_of(p: IdentifyProtocolV, observed: Seq<Segment>) -> RawMessageV {
    RawMessageV {
        public_key: p.public_key,
        listen_addrs: p.listen_addrs.map_values(|a: Seq<Segment>| spec_encode_address(a)),
        protocols: p.protocols.map_values(|c: Seq<char>| encode_utf8(c)),
        observed_addr: spec_encode_address(observed),
        protocol_version: encode_utf8(p.protocol_version),
        agent_version: encode_utf8(p.agent_version),
    }
}

/// The message body the listener sends for `p` and `observed`.
pub open spec fn spec_message_bytes(p: IdentifyProtocolV, observed: Seq<Segment>) -> Seq<u8> {
    spec_encode_fields(spec_raw_of(p, observed))
}

/// Whether every byte string in `items` is valid UTF-8.
pub open spec fn all_valid_utf8(items: Seq<Seq<u8>>) -> bool {
    forall|i: int| 0 <= i < items.len() ==> valid_utf8(#[trigger] items[i])
}

/// Whether every byte string in `items` parses as an address.
pub open spec fn all_parse_addrs(items: Seq<Seq<u8>>) -> bool {
    forall|i: int| 0 <= i < items.len() ==> spec_parse_address(#[trigger] items[i]) is Some
}

/// The information read off well-formed raw fields.
pub open spec fn spec_info_of_raw(m: RawMessageV) -> IdentifyInfoV {
    IdentifyInfoV {
        public_key: m.public_key,
        protocol_version: decode_utf8(m.protocol_version),
        agent_version: decode_utf8(m.agent_version),
        listen_addrs: m.listen_addrs.map_values(
            |b: Seq<u8>| spec_parse_address(b).unwrap(),
        ),
        observed_addr: spec_parse_address(m.observed_addr).unwrap(),
        protocols: m.protocols.map_values(|b: Seq<u8>| decode_utf8(b)),
    }
}

/// What decoding one message body yields: the information, or the first
/// failure in order — corrupt field structure or a non-UTF-8 string field,
/// then an unparseable listen address, then an unparseable observed address.
pub open spec fn spec_decode_message(s: Seq<u8>) -> Result<IdentifyInfoV, IdentifyError> {
    match spec_parse_fields(s) {
        None => Err(IdentifyError::MalformedMessage),
        Some(fields) => {
            let m = spec_fold_fields(fields);
            if !(valid_utf8(m.protocol_version) && valid_utf8(m.agent_version) && all_valid_utf8(
                m.protocols,
            )) {
                Err(IdentifyError::MalformedMessage)
            } else if !all_parse_addrs(m.listen_addrs) {
                Err(IdentifyError::InvalidAddress(AddressField::ListenAddrs))
            } else if spec_parse_address(m.observed_addr) is None {
                Err(IdentifyError::InvalidAddress(AddressField::ObservedAddr))
            } else {
                Ok(spec_info_of_raw(m))
            }
        },
    }
}

/// Relies on `String::from_utf8`: it succeeds exactly on valid UTF-8 input
/// and yields the characters that input decodes to, stated over vstd's
/// model of UTF-8 (`valid_utf8`, `decode_utf8`).
#[verifier::external_body]
fn bytes_to_string(b: &[u8]) -> (r: Option<String>)
    ensures
        match r {
            Some(s) => valid_utf8(b@) && s@ == decode_utf8(b@),
            None => !valid_utf8(b@),
        },
{
    match String::from_utf8(b.to_vec()) {
        Ok(s) => Some(s),
        Err(_) => None,
    }
}

/// Renders the message body announcing `p`, with `observed_addr` as the
/// address the peer was seen dialing from.
pub fn encode_message(p: &IdentifyProtocol, observed_addr: &Address) -> (r: Vec<u8>)
    ensures
        r@ == spec_message_bytes(p@, observed_addr@),
{
    let ghost raw = spec_raw_of(p@, observed_addr@);
    let mut out: Vec<u8> = Vec::new();
    push_field(&mut out, 1, p.public_key.as_slice());
    let ghost base1 = spec_field(1, raw.public_key);
    proof {
        assert(Seq::<u8>::empty() + base1 =~= base1);
    }
    let n2 = p.listen_addrs.len();
    let mut i: usize = 0;
    while i < n2
        invariant
            i <= n2,
            n2 == p.listen_addrs@.len(),
            raw == spec_raw_of(p@, observed_addr@),
            base1 == spec_field(1, raw.public_key),
            raw.listen_addrs.len() == n2,
            out@ == base1 + spec_rep_fields(2, raw.listen_addrs.take(i as int)),
        decreases n2 - i,
    {
        let ab = encode_address(&p.listen_addrs[i]);
        push_field(&mut out, 2, ab.as_slice());
        proof {
            assert(p.listen_addrs@[i as int].deep_view() == p@.listen_addrs[i as int]);
            assert(raw.listen_addrs[i as int] == spec_encode_address(p@.listen_addrs[i as int]));
            assert(ab@ == raw.listen_addrs[i as int]);
            lemma_rep_snoc(2, raw.listen_addrs.take(i as int), raw.listen_addrs[i as int]);
            assert(raw.listen_addrs.take(i as int).push(raw.listen_addrs[i as int])
                =~= raw.listen_addrs.take(i as int + 1));
            assert(base1 + spec_rep_fields(2, raw.listen_addrs.take(i as int)) + spec_field(
                2,
                raw.listen_addrs[i as int],
            ) =~= base1 + (spec_rep_fields(2, raw.listen_addrs.take(i as int)) + spec_field(
                2,
                raw.listen_addrs[i as int],
            )));
        }
        i = i + 1;
    }
    let ghost base2 = base1 + spec_rep_fields(2, raw.listen_addrs);
    proof {
        assert(raw.listen_addrs.take(n2 as int) =~= raw.listen_addrs);
    }
    let n3 = p.protocols.len();
    let mut j: usize = 0;
    while j < n3
        invariant
            j <= n3,
            n3 == p.protocols@.len(),
            raw == spec_raw_of(p@, observed_addr@),
            base2 == base1 + spec_rep_fields(2, raw.listen_addrs),
            raw.protocols.len() == n3,
            out@ == base2 + spec_rep_fields(3, raw.protocols.take(j as int)),
        decreases n3 - j,
    {
        push_field(&mut out, 3, p.protocols[j].as_str().as_bytes());
        proof {
            assert(p.protocols@[j as int].deep_view() == p@.protocols[j as int]);
            assert(raw.protocols[j as int] == encode_utf8(p@.protocols[j as int]));
            lemma_rep_snoc(3, raw.protocols.take(j as int), raw.protocols[j as int]);
            assert(raw.protocols.take(j as int).push(raw.protocols[j as int])
                =~= raw.protocols.take(j as int + 1));
            assert(base2 + spec_rep_fields(3, raw.protocols.take(j as int)) + spec_field(
                3,
                raw.protocols[j as int],
            ) =~= base2 + (spec_rep_fields(3, raw.protocols.take(j as int)) + spec_field(
                3,
                raw.protocols[j as int],
            )));
        }
        j = j + 1;
    }
    proof {
        assert(raw.protocols.take(n3 as int) =~= raw.protocols);
    }
    let ob = encode_address(observed_addr);
    push_field(&mut out, 4, ob.as_slice());
    push_field(&mut out, 5, p.protocol_version.as_str().as_bytes());
    push_field(&mut out, 6, p.agent_version.as_str().as_bytes());
    proof {
        assert(out@ =~= spec_encode_fields(raw));
    }
    out
}

/// Appending one more item to a repeated field appends its encoding.
proof fn lemma_rep_snoc(num: nat, items: Seq<Seq<u8>>, x: Seq<u8>)
    ensures
        spec_rep_fields(num, items.push(x)) == spec_rep_fields(num, items) + spec_field(num, x),
    decreases items.len(),
{
    if items.len() == 0 {
        assert(items.push(x).drop_first() =~= Seq::<Seq<u8>>::empty());
        assert(items.push(x)[0] == x);
        assert(spec_rep_fields(num, items.push(x)) == spec_field(num, x) + spec_rep_fields(
            num,
            items.push(x).drop_first(),
        ));
        assert(spec_rep_fields(num, items.push(x).drop_first()) == Seq::<u8>::empty());
        assert(spec_rep_fields(num, items) == Seq::<u8>::empty());
        assert(spec_field(num, x) + Seq::<u8>::empty() =~= Seq::<u8>::empty() + spec_field(
            num,
            x,
        ));
    } else {
        assert(items.push(x)[0] == items[0]);
        assert(items.push(x).drop_first() =~= items.drop_first().push(x));
        lemma_rep_snoc(num, items.drop_first(), x);
        assert(spec_field(num, items[0]) + (spec_rep_fields(num, items.drop_first()) + spec_field(
            num,
            x,
        )) =~= (spec_field(num, items[0]) + spec_rep_fields(num, items.drop_first()))
            + spec_field(num, x));
    }
}

/// Decodes one message body into the information it carries.
pub fn decode_message(s: &[u8]) -> (r: Result<IdentifyInfo, IdentifyError>)
    ensures
        match spec_decode_message(s@) {
            Ok(v) => r matches Ok(info) && info@ == v,
            Err(e) => r matches Err(e2) && e2 == e,
        },
{
    let m = match parse_fields(s) {
        Some(m) => m,
        None => {
            return Err(IdentifyError::MalformedMessage);
        },
    };
    let ghost mv = m@;
    let RawMessage {
        public_key,
        listen_addrs,
        protocols,
        observed_addr,
        protocol_version,
        agent_version,
    } = m;
    let protocol_version_s = match bytes_to_string(protocol_version.as_slice()) {
        Some(x) => x,
        None => {
            return Err(IdentifyError::MalformedMessage);
        },
    };
    let agent_version_s = match bytes_to_string(agent_version.as_slice()) {
        Some(x) => x,
        None => {
            return Err(IdentifyError::MalformedMessage);
        },
    };
    let np = protocols.len();
    let mut protos: Vec<String> = Vec::new();
    let mut i: usize = 0;
    proof {
        assert(protos.deep_view() =~= mv.protocols.take(0).map_values(
            |b: Seq<u8>| decode_utf8(b),
        ));
    }
    while i < np
        invariant
            i <= np,
            np == protocols@.len(),
            protocols.deep_view() == mv.protocols,
            spec_parse_fields(s@) is Some,
            spec_fold_fields(spec_parse_fields(s@).unwrap()) == mv,
            valid_utf8(mv.protocol_version),
            valid_utf8(mv.agent_version),
            forall|k: int| 0 <= k < i ==> valid_utf8(#[trigger] mv.protocols[k]),
            protos.deep_view() == mv.protocols.take(i as int).map_values(
                |b: Seq<u8>| decode_utf8(b),
            ),
        decreases np - i,
    {
        proof {
            assert(protocols@[i as int].deep_view() == mv.protocols[i as int]);
            assert(protocols@[i as int].deep_view() =~= protocols@[i as int]@);
        }
        match bytes_to_string(protocols[i].as_slice()) {
            Some(x) => {
                let ghost prev = protos.deep_view();
                protos.push(x);
                proof {
                    assert(protos.deep_view() =~~= prev.push(x@));
                    assert(prev.push(x@) =~~= mv.protocols.take(i as int + 1).map_values(
                        |b: Seq<u8>| decode_utf8(b),
                    ));
                }
            },
            None => {
                return Err(IdentifyError::MalformedMessage);
            },
        }
        i = i + 1;
    }
    proof {
        assert(np == mv.protocols.len());
        assert(all_valid_utf8(mv.protocols));
    }
    let na = listen_addrs.len();
    let mut addrs: Vec<Address> = Vec::new();
    let mut j: usize = 0;
    proof {
        assert(addrs.deep_view() =~= mv.listen_addrs.take(0).map_values(
            |b: Seq<u8>| spec_parse_address(b).unwrap(),
        ));
    }
    while j < na
        invariant
            j <= na,
            na == listen_addrs@.len(),
            listen_addrs.deep_view() == mv.listen_addrs,
            spec_parse_fields(s@) is Some,
            spec_fold_fields(spec_parse_fields(s@).unwrap()) == mv,
            valid_utf8(mv.protocol_version),
            valid_utf8(mv.agent_version),
            all_valid_utf8(mv.protocols),
            forall|k: int|
                0 <= k < j ==> spec_parse_address(#[trigger] mv.listen_addrs[k]) is Some,
            addrs.deep_view() == mv.listen_addrs.take(j as int).map_values(
                |b: Seq<u8>| spec_parse_address(b).unwrap(),
            ),
        decreases na - j,
    {
        proof {
            assert(listen_addrs@[j as int].deep_view() == mv.listen_addrs[j as int]);
            assert(listen_addrs@[j as int].deep_view() =~= listen_addrs@[j as int]@);
        }
        match decode_address(listen_addrs[j].as_slice()) {
            Ok(a) => {
                let ghost prev = addrs.deep_view();
                addrs.push(a);
                proof {
                    assert(addrs.deep_view() =~~= prev.push(a@));
                    assert(prev.push(a@) =~~= mv.listen_addrs.take(j as int + 1).map_values(
                        |b: Seq<u8>| spec_parse_address(b).unwrap(),
                    ));
                }
            },
            Err(_) => {
                return Err(IdentifyError::InvalidAddress(AddressField::ListenAddrs));
            },
        }
        j = j + 1;
    }
    let observed = match decode_address(observed_addr.as_slice()) {
        Ok(a) => a,
        Err(_) => {
            return Err(IdentifyError::InvalidAddress(AddressField::ObservedAddr));
        },
    };
    let info = IdentifyInfo {
        public_key,
        protocol_version: protocol_version_s,
        agent_version: agent_version_s,
        listen_addrs: addrs,
        observed_addr: observed,
        protocols: protos,
    };
    proof {
        assert(mv.protocols.take(np as int) =~= mv.protocols);
        assert(mv.listen_addrs.take(na as int) =~= mv.listen_addrs);
        assert(info@.listen_addrs =~~= spec_info_of_raw(mv).listen_addrs);
        assert(info@.protocols =~~= spec_info_of_raw(mv).protocols);
        assert(info@ == spec_info_of_raw(mv));
    }
    Ok(info)
}

/// The ASCII token `/ipfs/id/1.0.0` this protocol answers to during
/// upgrade negotiation.
pub open spec fn spec_protocol_token() -> Seq<u8> {
    seq![47u8, 105u8, 112u8, 102u8, 115u8, 47u8, 105u8, 100u8, 47u8, 49u8, 46u8, 48u8, 46u8, 48u8]
}

impl IdentifyProtocol {
    /// The protocol tokens this upgrade answers to: exactly one.
    pub fn protocol_names(&self) -> (r: Vec<Vec<u8>>)
        ensures
            r@.len() == 1,
            r@[0]@ == spec_protocol_token(),
    {
        let mut t: Vec<u8> = Vec::new();
        t.push(47);
        t.push(105);
        t.push(112);
        t.push(102);
        t.push(115);
        t.push(47);
        t.push(105);
        t.push(100);
        t.push(47);
        t.push(49);
        t.push(46);
        t.push(48);
        t.push(46);
        t.push(48);
        proof {
            assert(t@ =~= spec_protocol_token());
        }
        let mut r: Vec<Vec<u8>> = Vec::new();
        r.push(t);
        r
    }

    /// Performs the one transition of the exchange for the negotiated role.
    ///
    /// As the listener, the result carries the single frame to write and no
    /// information: the listener never reads, so `received` plays no part in
    /// its result.  As the dialer, `received` is everything the stream
    /// carried until it closed: nothing at all is the clean "no information
    /// received" outcome; otherwise the first frame is decoded and anything
    /// after it is ignored.
    pub fn upgrade(self, ty: Endpoint, remote_addr: &Address, received: &[u8]) -> (r: Result<
        UpgradeResult,
        IdentifyError,
    >)
        ensures
            match ty {
                Endpoint::Listener => r matches Ok(u) && u.info is None && u.output@
                    == spec_frame(spec_message_bytes(self@, remote_addr@)),
                Endpoint::Dialer => {
                    if received@.len() == 0 {
                        r matches Ok(u) && u.info is None && u.output@.len() == 0
                    } else {
                        match spec_parse_frame(received@) {
                            None => r matches Err(e) && e == IdentifyError::MalformedFrame,
                            Some((payload, c)) => match spec_decode_message(payload) {
                                Ok(v) => r matches Ok(u) && u.info matches Some(info) && info@
                                    == v && u.output@.len() == 0,
                                Err(e) => r matches Err(e2) && e2 == e,
                            },
                        }
                    }
                },
            },
    {
        match ty {
            Endpoint::Listener => {
                let msg = encode_message(&self, remote_addr);
                let framed = write_frame(msg.as_slice());
                Ok(UpgradeResult { info: None, output: framed })
            },
            Endpoint::Dialer => {
                if received.len() == 0 {
                    return Ok(UpgradeResult { info: None, output: Vec::new() });
                }
                let payload = match read_frame(received) {
                    Ok(Some(p)) => p,
                    Ok(None) => {
                        proof {
                            assert(false);
                        }
                        return Err(IdentifyError::MalformedFrame);
                    },
                    Err(e) => {
                        return Err(e);
                    },
                };
                match decode_message(payload.as_slice()) {
                    Ok(info) => Ok(UpgradeResult { info: Some(info), output: Vec::new() }),
                    Err(e) => Err(e),
                }
            },
        }
    }
}

/// The information that announcing `p` with `observed` should produce.
pub open spec fn spec_info_of(p: IdentifyProtocolV, observed: Seq<Segment>) -> IdentifyInfoV {
    IdentifyInfoV {
        public_key: p.public_key,
        protocol_version: p.protocol_version,
        agent_version: p.agent_version,
        listen_addrs: p.listen_addrs,
        observed_addr: observed,
        protocols: p.protocols,
    }
}

/// Message round trip: decoding the message body that announces any
/// well-formed announcement yields exactly its fields, in order — the
/// public key and version strings unchanged, the listen addresses and
/// supported protocols in their original order, and the observed address.
pub proof fn lemma_identify_round_trip(p: IdentifyProtocolV, observed: Seq<Segment>)
    requires
        p.wf(),
        addr_wf(observed),
    ensures
        spec_decode_message(spec_message_bytes(p, observed)) == Ok::<IdentifyInfoV, IdentifyError>(
            spec_info_of(p, observed),
        ),
{
    let raw = spec_raw_of(p, observed);
    let f1 = spec_field(1, raw.public_key);
    let r2 = spec_rep_fields(2, raw.listen_addrs);
    let r3 = spec_rep_fields(3, raw.protocols);
    let f4 = spec_field(4, raw.observed_addr);
    let f5 = spec_field(5, raw.protocol_version);
    let f6 = spec_field(6, raw.agent_version);
    let s = spec_encode_fields(raw);
    // Parse the concatenation, field group by field group, from the right.
    let t6 = f6;
    let t5 = f5 + t6;
    let t4 = f4 + t5;
    let t3 = r3 + t4;
    let t2 = r2 + t3;
    assert(f6 + Seq::<u8>::empty() =~= t6);
    assert(spec_parse_fields(Seq::<u8>::empty()) == Some(Seq::<(nat, Seq<u8>)>::empty()));
    lemma_parse_field_cons(6, raw.agent_version, Seq::empty());
    lemma_parse_field_cons(5, raw.protocol_version, t6);
    lemma_parse_field_cons(4, raw.observed_addr, t5);
    lemma_parse_rep_cons(3, raw.protocols, t4);
    lemma_parse_rep_cons(2, raw.listen_addrs, t3);
    lemma_parse_field_cons(1, raw.public_key, t2);
    assert(s =~= f1 + t2);
    let m2 = raw.listen_addrs.map_values(|d: Seq<u8>| (2nat, d));
    let m3 = raw.protocols.map_values(|d: Seq<u8>| (3nat, d));
    let tail6 = seq![(6nat, raw.agent_version)] + Seq::<(nat, Seq<u8>)>::empty();
    let tail5 = seq![(5nat, raw.protocol_version)] + tail6;
    let tail4 = seq![(4nat, raw.observed_addr)] + tail5;
    let tail3 = m3 + tail4;
    let tail2 = m2 + tail3;
    let fields = seq![(1nat, raw.public_key)] + tail2;
    assert(spec_parse_fields(s) == Some(fields));
    // Fold the occurrence list back into the raw fields.
    let a1 = seq![(1nat, raw.public_key)];
    assert(a1.drop_last() =~= Seq::<(nat, Seq<u8>)>::empty());
    assert(a1.last() == (1nat, raw.public_key));
    assert(spec_fold_fields(a1.drop_last()) == spec_empty_raw());
    assert(spec_fold_fields(a1) == spec_apply_field(
        spec_empty_raw(),
        1,
        raw.public_key,
    ));
    lemma_fold_listen(a1, raw.listen_addrs);
    let m_after2 = spec_fold_fields(a1 + m2);
    assert(m_after2.listen_addrs =~= raw.listen_addrs);
    lemma_fold_protocols(a1 + m2, raw.protocols);
    assert((a1 + m2) + m3 =~= a1 + (m2 + m3));
    let m_after3 = spec_fold_fields((a1 + m2) + m3);
    assert(m_after3.protocols =~= raw.protocols);
    let b4 = ((a1 + m2) + m3).push((4nat, raw.observed_addr));
    let b5 = b4.push((5nat, raw.protocol_version));
    let b6 = b5.push((6nat, raw.agent_version));
    lemma_fold_snoc((a1 + m2) + m3, (4nat, raw.observed_addr));
    lemma_fold_snoc(b4, (5nat, raw.protocol_version));
    lemma_fold_snoc(b5, (6nat, raw.agent_version));
    assert(fields =~= b6);
    let m = spec_fold_fields(fields);
    assert(m.public_key == raw.public_key);
    assert(m.listen_addrs =~= raw.listen_addrs);
    assert(m.protocols =~= raw.protocols);
    assert(m.observed_addr == raw.observed_addr);
    assert(m.protocol_version == raw.protocol_version);
    assert(m.agent_version == raw.agent_version);
    // The string fields are valid UTF-8 and decode back to their characters.
    encode_utf8_valid_utf8(p.protocol_version);
    encode_utf8_valid_utf8(p.agent_version);
    encode_utf8_decode_utf8(p.protocol_version);
    encode_utf8_decode_utf8(p.agent_version);
    assert forall|i: int| 0 <= i < m.protocols.len() implies valid_utf8(
        #[trigger] m.protocols[i],
    ) by {
        assert(m.protocols[i] == encode_utf8(p.protocols[i]));
        encode_utf8_valid_utf8(p.protocols[i]);
    }
    // The address fields parse back to their segments.
    assert forall|i: int| 0 <= i < m.listen_addrs.len() implies spec_parse_address(
        #[trigger] m.listen_addrs[i],
    ) is Some by {
        assert(m.listen_addrs[i] == spec_encode_address(p.listen_addrs[i]));
        lemma_address_round_trip(p.listen_addrs[i]);
    }
    lemma_address_round_trip(observed);
    // Field for field, the information is the announcement.
    let v = spec_info_of_raw(m);
    assert forall|i: int| 0 <= i < v.listen_addrs.len() implies #[trigger] v.listen_addrs[i]
        == p.listen_addrs[i] by {
        assert(m.listen_addrs[i] == spec_encode_address(p.listen_addrs[i]));
        lemma_address_round_trip(p.listen_addrs[i]);
    }
    assert(v.listen_addrs =~= p.listen_addrs);
    assert forall|i: int| 0 <= i < v.protocols.len() implies #[trigger] v.protocols[i]
        == p.protocols[i] by {
        assert(m.protocols[i] == encode_utf8(p.protocols[i]));
        encode_utf8_decode_utf8(p.protocols[i]);
    }
    assert(v.protocols =~= p.protocols);
    assert(v == spec_info_of(p, observed));
}

/// End-to-end round trip: the bytes a listener announcing `p` writes are
/// one frame whose payload decodes, on the dialer side, to exactly the
/// information `p` announced.
pub proof fn lemma_exchange_round_trip(p: IdentifyProtocolV, observed: Seq<Segment>)
    requires
        p.wf(),
        addr_wf(observed),
    ensures
        ({
            let sent = spec_frame(spec_message_bytes(p, observed));
            &&& sent.len() > 0
            &&& match spec_parse_frame(sent) {
                Some((payload, c)) => spec_decode_message(payload) == Ok::<
                    IdentifyInfoV,
                    IdentifyError,
                >(spec_info_of(p, observed)),
                None => false,
            }
        }),
{
    lemma_frame_round_trip(spec_message_bytes(p, observed));
    lemma_identify_round_trip(p, observed);
}

} // verus!

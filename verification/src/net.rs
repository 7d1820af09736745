//! The query wire protocol: a versioned, fixed-header binary framing for the
//! one-shot status exchange with a single server, and the master-list
//! payload format.
//!
//! Every datagram starts with a two-byte magic, a version byte and a type
//! byte. Integers are little-endian and fixed-width; text fields are
//! length-prefixed ASCII (one length byte, at most 255 bytes). A status
//! request carries a correlation token which the response must echo, so that
//! spoofed or stale datagrams can be rejected. A status response is at most
//! 532 bytes, well under a 1200-byte datagram budget.

use vstd::bytes::{
    lemma_auto_spec_u16_to_from_le_bytes, lemma_auto_spec_u32_to_from_le_bytes,
    lemma_auto_spec_u64_to_from_le_bytes, spec_u16_from_le_bytes, spec_u16_to_le_bytes,
    spec_u32_from_le_bytes, spec_u32_to_le_bytes, spec_u64_to_le_bytes, u16_from_le_bytes,
    u16_to_le_bytes, u32_from_le_bytes, u32_to_le_bytes, u64_from_le_bytes, u64_to_le_bytes,
};
use vstd::prelude::*;
use vstd::slice::{slice_subrange, slice_to_vec};
use vstd::utf8::is_ascii_chars;

use crate::model::{Kind, Ownership, Region, Server, ServerAddress};

verus! {

pub const WIRE_MAGIC_0: u8 = 0x53;

pub const WIRE_MAGIC_1: u8 = 0x44;

pub const WIRE_VERSION: u8 = 1;

/// Type byte of a status request datagram.
pub const MSG_QUERY: u8 = 1;

/// Type byte of a status response datagram.
pub const MSG_STATUS: u8 = 2;

/// Type byte of a master-list payload.
pub const MSG_MASTER: u8 = 3;

/// A text field fits its one-byte length prefix and is ASCII.
pub open spec fn wire_string_ok(s: Seq<char>) -> bool {
    s.len() <= 255 && is_ascii_chars(s)
}

/// The bytes of an ASCII character sequence.
pub open spec fn ascii_bytes(s: Seq<char>) -> Seq<u8> {
    s.map(|_i: int, c: char| c as u8)
}

pub open spec fn kind_byte(k: Kind) -> u8 {
    match k {
        Kind::Official => 0,
        Kind::Private => 1,
    }
}

pub open spec fn kind_from_byte(b: u8) -> Option<Kind> {
    if b == 0 {
        Some(Kind::Official)
    } else if b == 1 {
        Some(Kind::Private)
    } else {
        None
    }
}

pub open spec fn ownership_byte(o: Ownership) -> u8 {
    match o {
        Ownership::Dedicated => 0,
        Ownership::SelfHosted => 1,
    }
}

pub open spec fn ownership_from_byte(b: u8) -> Option<Ownership> {
    if b == 0 {
        Some(Ownership::Dedicated)
    } else if b == 1 {
        Some(Ownership::SelfHosted)
    } else {
        None
    }
}

pub open spec fn region_byte(r: Region) -> u8 {
    match r {
        Region::Americas => 0,
        Region::Europe => 1,
        Region::Asia => 2,
        Region::Oceania => 3,
    }
}

pub open spec fn region_from_byte(b: u8) -> Option<Region> {
    if b == 0 {
        Some(Region::Americas)
    } else if b == 1 {
        Some(Region::Europe)
    } else if b == 2 {
        Some(Region::Asia)
    } else if b == 3 {
        Some(Region::Oceania)
    } else {
        None
    }
}

pub open spec fn bool_byte(b: bool) -> u8 {
    if b {
        1
    } else {
        0
    }
}

fn kind_byte_exec(k: Kind) -> (b: u8)
    ensures
        b == kind_byte(k),
{
    match k {
        Kind::Official => 0,
        Kind::Private => 1,
    }
}

fn kind_from_byte_exec(b: u8) -> (k: Option<Kind>)
    ensures
        k == kind_from_byte(b),
{
    if b == 0 {
        Some(Kind::Official)
    } else if b == 1 {
        Some(Kind::Private)
    } else {
        None
    }
}

fn ownership_byte_exec(o: Ownership) -> (b: u8)
    ensures
        b == ownership_byte(o),
{
    match o {
        Ownership::Dedicated => 0,
        Ownership::SelfHosted => 1,
    }
}

fn ownership_from_byte_exec(b: u8) -> (o: Option<Ownership>)
    ensures
        o == ownership_from_byte(b),
{
    if b == 0 {
        Some(Ownership::Dedicated)
    } else if b == 1 {
        Some(Ownership::SelfHosted)
    } else {
        None
    }
}

fn region_byte_exec(r: Region) -> (b: u8)
    ensures
        b == region_byte(r),
{
    match r {
        Region::Americas => 0,
        Region::Europe => 1,
        Region::Asia => 2,
        Region::Oceania => 3,
    }
}

fn region_from_byte_exec(b: u8) -> (r: Option<Region>)
    ensures
        r == region_from_byte(b),
{
    if b == 0 {
        Some(Region::Americas)
    } else if b == 1 {
        Some(Region::Europe)
    } else if b == 2 {
        Some(Region::Asia)
    } else if b == 3 {
        Some(Region::Oceania)
    } else {
        None
    }
}

/// Relies on `String::from_utf8`: ASCII bytes decode to exactly one character
/// per byte, each with the same code point; on ASCII input the call cannot
/// fail.
#[verifier::external_body]
fn string_from_ascii(bytes: Vec<u8>) -> (r: String)
    requires
        forall|i: int| 0 <= i < bytes@.len() ==> bytes@[i] < 128,
    ensures
        r@ == bytes@.map(|_i: int, b: u8| b as char),
{
    String::from_utf8(bytes).unwrap()
}

/// A one-shot status request: the type byte plus a correlation token that
/// the response must echo.
pub struct ServerQueryRequest {
    pub token: u32,
}

/// The encoding of a status request: 8 bytes.
pub open spec fn spec_encode_request(token: u32) -> Seq<u8> {
    seq![WIRE_MAGIC_0, WIRE_MAGIC_1, WIRE_VERSION, MSG_QUERY] + spec_u32_to_le_bytes(token)
}

impl ServerQueryRequest {
    pub fn encode(&self) -> (out: Vec<u8>)
        ensures
            out@ == spec_encode_request(self.token),
    {
        let mut out: Vec<u8> = Vec::new();
        out.push(WIRE_MAGIC_0);
        out.push(WIRE_MAGIC_1);
        out.push(WIRE_VERSION);
        out.push(MSG_QUERY);
        let mut tok = u32_to_le_bytes(self.token);
        out.append(&mut tok);
        proof {
            assert(out@ =~= spec_encode_request(self.token));
        }
        out
    }

    /// Decodes a request datagram; returns `None` exactly when the bytes are
    /// not the encoding of any request.
    pub fn decode(bytes: &[u8]) -> (r: Option<ServerQueryRequest>)
        ensures
            r matches Some(req) ==> bytes@ == spec_encode_request(req.token),
            r is None ==> forall|t: u32| bytes@ != spec_encode_request(t),
    {
        proof {
            lemma_auto_spec_u32_to_from_le_bytes();
        }
        if bytes.len() != 8 {
            return None;
        }
        if !(bytes[0] == WIRE_MAGIC_0 && bytes[1] == WIRE_MAGIC_1 && bytes[2] == WIRE_VERSION
            && bytes[3] == MSG_QUERY) {
            proof {
                assert forall|t: u32| bytes@ != spec_encode_request(t) by {
                    assert(spec_encode_request(t)[0] == WIRE_MAGIC_0);
                    assert(spec_encode_request(t)[1] == WIRE_MAGIC_1);
                    assert(spec_encode_request(t)[2] == WIRE_VERSION);
                    assert(spec_encode_request(t)[3] == MSG_QUERY);
                }
            }
            return None;
        }
        let token = u32_from_le_bytes(slice_subrange(bytes, 4, 8));
        proof {
            assert(bytes@ =~= spec_encode_request(token)) by {
                assert(spec_u32_to_le_bytes(token) =~= bytes@.subrange(4, 8));
                assert(spec_encode_request(token).len() == 8);
            }
        }
        Some(ServerQueryRequest { token })
    }
}

/// A decoded status response: the echoed token plus the server's live
/// status fields.
pub struct ServerQueryResponse {
    pub token: u32,
    pub name: String,
    pub map: String,
    pub kind: Kind,
    pub ownership: Ownership,
    pub region: Region,
    pub build_id: u32,
    pub password_protected: bool,
    pub current_players: u16,
    pub max_players: u16,
}

/// The encoding of a status response: a 21-byte fixed part, then the two
/// length-prefixed ASCII text fields.
pub open spec fn spec_encode_response(r: ServerQueryResponse) -> Seq<u8> {
    seq![WIRE_MAGIC_0, WIRE_MAGIC_1, WIRE_VERSION, MSG_STATUS] + spec_u32_to_le_bytes(r.token)
        + spec_u32_to_le_bytes(r.build_id) + spec_u16_to_le_bytes(r.current_players)
        + spec_u16_to_le_bytes(r.max_players) + seq![
        kind_byte(r.kind),
        ownership_byte(r.ownership),
        region_byte(r.region),
        bool_byte(r.password_protected),
        r.name@.len() as u8,
    ] + ascii_bytes(r.name@) + seq![r.map@.len() as u8] + ascii_bytes(r.map@)
}

/// The echoed correlation token carried by response bytes.
pub open spec fn resp_token(b: Seq<u8>) -> u32 {
    spec_u32_from_le_bytes(b.subrange(4, 8))
}

pub open spec fn resp_build_id(b: Seq<u8>) -> u32 {
    spec_u32_from_le_bytes(b.subrange(8, 12))
}

pub open spec fn resp_current_players(b: Seq<u8>) -> u16 {
    spec_u16_from_le_bytes(b.subrange(12, 14))
}

pub open spec fn resp_max_players(b: Seq<u8>) -> u16 {
    spec_u16_from_le_bytes(b.subrange(14, 16))
}

pub open spec fn resp_name_chars(b: Seq<u8>) -> Seq<char> {
    b.subrange(21, 21 + b[20] as int).map(|_i: int, c: u8| c as char)
}

pub open spec fn resp_map_chars(b: Seq<u8>) -> Seq<char> {
    b.subrange(22 + b[20] as int, b.len() as int).map(|_i: int, c: u8| c as char)
}

/// Structurally well-formed status response bytes: exactly the encodings.
pub open spec fn valid_response_bytes(b: Seq<u8>) -> bool {
    &&& b.len() >= 22
    &&& b[0] == WIRE_MAGIC_0
    &&& b[1] == WIRE_MAGIC_1
    &&& b[2] == WIRE_VERSION
    &&& b[3] == MSG_STATUS
    &&& kind_from_byte(b[16]) is Some
    &&& ownership_from_byte(b[17]) is Some
    &&& region_from_byte(b[18]) is Some
    &&& b[19] <= 1
    &&& b.len() >= 22 + b[20]
    &&& (forall|i: int| 21 <= i < 21 + b[20] ==> b[i] < 128)
    &&& b.len() == 22 + b[20] + b[21 + b[20]]
    &&& (forall|i: int| 22 + b[20] <= i < b.len() ==> b[i] < 128)
}

impl ServerQueryResponse {
    pub fn encode(&self) -> (out: Vec<u8>)
        requires
            wire_string_ok(self.name@),
            wire_string_ok(self.map@),
        ensures
            out@ == spec_encode_response(*self),
            out@.len() <= 1200,
    {
        broadcast use vstd::string::is_ascii_spec_bytes;

        let mut out: Vec<u8> = Vec::new();
        out.push(WIRE_MAGIC_0);
        out.push(WIRE_MAGIC_1);
        out.push(WIRE_VERSION);
        out.push(MSG_STATUS);
        let mut tok = u32_to_le_bytes(self.token);
        out.append(&mut tok);
        let mut build = u32_to_le_bytes(self.build_id);
        out.append(&mut build);
        let mut cur = u16_to_le_bytes(self.current_players);
        out.append(&mut cur);
        let mut maxp = u16_to_le_bytes(self.max_players);
        out.append(&mut maxp);
        out.push(kind_byte_exec(self.kind));
        out.push(ownership_byte_exec(self.ownership));
        out.push(region_byte_exec(self.region));
        out.push(if self.password_protected {
            1
        } else {
            0
        });
        let name_str = self.name.as_str();
        let map_str = self.map.as_str();
        let name_bytes = name_str.as_bytes();
        let map_bytes = map_str.as_bytes();
        proof {
            assert(vstd::string::is_ascii(name_str));
            assert(vstd::string::is_ascii(map_str));
            assert(name_bytes@ =~= ascii_bytes(self.name@));
            assert(map_bytes@ =~= ascii_bytes(self.map@));
        }
        out.push(name_bytes.len() as u8);
        out.extend_from_slice(name_bytes);
        out.push(map_bytes.len() as u8);
        out.extend_from_slice(map_bytes);
        proof {
            assert(out@ =~= spec_encode_response(*self));
        }
        out
    }

    /// Decodes a status response datagram; returns `None` exactly when the
    /// bytes are not well-formed, in which case the caller treats the
    /// datagram like a timeout.
    pub fn decode(bytes: &[u8]) -> (r: Option<ServerQueryResponse>)
        ensures
            r matches Some(resp) ==> bytes@ == spec_encode_response(resp) && wire_string_ok(
                resp.name@,
            ) && wire_string_ok(resp.map@),
            r matches Some(resp) ==> {
                &&& valid_response_bytes(bytes@)
                &&& resp.token == resp_token(bytes@)
                &&& resp.build_id == resp_build_id(bytes@)
                &&& resp.current_players == resp_current_players(bytes@)
                &&& resp.max_players == resp_max_players(bytes@)
                &&& Some(resp.kind) == kind_from_byte(bytes@[16])
                &&& Some(resp.ownership) == ownership_from_byte(bytes@[17])
                &&& Some(resp.region) == region_from_byte(bytes@[18])
                &&& resp.password_protected == (bytes@[19] == 1)
                &&& resp.name@ == resp_name_chars(bytes@)
                &&& resp.map@ == resp_map_chars(bytes@)
            },
            r is None ==> !valid_response_bytes(bytes@),
    {
        if bytes.len() < 22 {
            return None;
        }
        if !(bytes[0] == WIRE_MAGIC_0 && bytes[1] == WIRE_MAGIC_1 && bytes[2] == WIRE_VERSION
            && bytes[3] == MSG_STATUS) {
            return None;
        }
        let kind = match kind_from_byte_exec(bytes[16]) {
            Some(k) => k,
            None => {
                return None;
            },
        };
        let ownership = match ownership_from_byte_exec(bytes[17]) {
            Some(o) => o,
            None => {
                return None;
            },
        };
        let region = match region_from_byte_exec(bytes[18]) {
            Some(rg) => rg,
            None => {
                return None;
            },
        };
        if bytes[19] > 1 {
            return None;
        }
        let password_protected = bytes[19] == 1;
        let nl = bytes[20] as usize;
        if bytes.len() < 22 + nl {
            return None;
        }
        let mut i: usize = 21;
        while i < 21 + nl
            invariant
                21 <= i <= 21 + nl,
                nl == bytes@[20] as usize,
                bytes@.len() >= 22 + nl,
                forall|k: int| 21 <= k < i ==> bytes@[k] < 128,
            decreases 21 + nl - i,
        {
            if bytes[i] >= 128 {
                return None;
            }
            i += 1;
        }
        let ml = bytes[21 + nl] as usize;
        if bytes.len() != 22 + nl + ml {
            return None;
        }
        let mut j: usize = 22 + nl;
        while j < 22 + nl + ml
            invariant
                22 + nl <= j <= 22 + nl + ml,
                nl == bytes@[20] as usize,
                ml == bytes@[21 + nl] as usize,
                bytes@.len() == 22 + nl + ml,
                forall|k: int| 22 + nl <= k < j ==> bytes@[k] < 128,
            decreases 22 + nl + ml - j,
        {
            if bytes[j] >= 128 {
                return None;
            }
            j += 1;
        }
        let token = u32_from_le_bytes(slice_subrange(bytes, 4, 8));
        let build_id = u32_from_le_bytes(slice_subrange(bytes, 8, 12));
        let current_players = u16_from_le_bytes(slice_subrange(bytes, 12, 14));
        let max_players = u16_from_le_bytes(slice_subrange(bytes, 14, 16));
        let name = string_from_ascii(slice_to_vec(slice_subrange(bytes, 21, 21 + nl)));
        let map = string_from_ascii(slice_to_vec(slice_subrange(bytes, 22 + nl, 22 + nl + ml)));
        let resp = ServerQueryResponse {
            token,
            name,
            map,
            kind,
            ownership,
            region,
            build_id,
            password_protected,
            current_players,
            max_players,
        };
        proof {
            lemma_auto_spec_u32_to_from_le_bytes();
            lemma_auto_spec_u16_to_from_le_bytes();
            assert(resp.name@.len() == nl);
            assert(resp.map@.len() == ml);
            assert forall|k: int| 0 <= k < nl implies ascii_bytes(resp.name@)[k] == bytes@[21 + k] by {
                assert(resp.name@[k] == (bytes@[21 + k] as char));
                assert(bytes@[21 + k] < 128);
            }
            assert forall|k: int| 0 <= k < ml implies ascii_bytes(resp.map@)[k] == bytes@[22 + nl
                + k] by {
                assert(resp.map@[k] == (bytes@[22 + nl + k] as char));
                assert(bytes@[22 + nl + k] < 128);
            }
            assert(spec_u32_to_le_bytes(token) =~= bytes@.subrange(4, 8));
            assert(spec_u32_to_le_bytes(build_id) =~= bytes@.subrange(8, 12));
            assert(spec_u16_to_le_bytes(current_players) =~= bytes@.subrange(12, 14));
            assert(spec_u16_to_le_bytes(max_players) =~= bytes@.subrange(14, 16));
            assert(bytes@ =~= spec_encode_response(resp));
            assert(is_ascii_chars(resp.name@)) by {
                assert forall|k: int| 0 <= k < resp.name@.len() implies '\0' <= #[trigger] resp.name@[k]
                    <= '\u{7f}' by {
                    assert(resp.name@[k] == (bytes@[21 + k] as char));
                    assert(bytes@[21 + k] < 128);
                }
            }
            assert(is_ascii_chars(resp.map@)) by {
                assert forall|k: int| 0 <= k < resp.map@.len() implies '\0' <= #[trigger] resp.map@[k]
                    <= '\u{7f}' by {
                    assert(resp.map@[k] == (bytes@[22 + nl + k] as char));
                    assert(bytes@[22 + nl + k] < 128);
                }
            }
            assert(resp.name@ =~= resp_name_chars(bytes@));
            assert(resp.map@ =~= resp_map_chars(bytes@));
            assert(valid_response_bytes(bytes@));
        }
        Some(resp)
    }
}

/// Errors of a whole master-list refresh: the refresh fails atomically, no
/// partial master list is ever produced.
#[derive(Clone, Copy, Debug, PartialEq, Eq, Structural)]
pub enum FetchError {
    /// The directory service could not be reached (reported by the caller
    /// that performs the network exchange).
    Unreachable,
    /// The payload is not a well-formed master-list message.
    MalformedPayload,
    /// The directory service itself reported an error.
    ServiceError,
}

/// One master-list entry: a server's stable identity and its endpoint.
#[derive(Clone, Copy, Debug, PartialEq, Eq, Structural)]
pub struct MasterEntry {
    pub id: u64,
    pub addr: ServerAddress,
}

/// The encoding of one master-list entry: 14 bytes.
pub open spec fn spec_encode_entry(e: MasterEntry) -> Seq<u8> {
    spec_u64_to_le_bytes(e.id) + spec_u32_to_le_bytes(e.addr.ip) + spec_u16_to_le_bytes(
        e.addr.port,
    )
}

pub open spec fn spec_encode_entries(es: Seq<MasterEntry>) -> Seq<u8>
    decreases es.len(),
{
    if es.len() == 0 {
        Seq::<u8>::empty()
    } else {
        spec_encode_entry(es[0]) + spec_encode_entries(es.drop_first())
    }
}

/// The encoding of a successful master-list payload: header, a zero status
/// byte, an entry count, then the entries.
pub open spec fn spec_encode_master(es: Seq<MasterEntry>) -> Seq<u8> {
    seq![WIRE_MAGIC_0, WIRE_MAGIC_1, WIRE_VERSION, MSG_MASTER, 0u8] + spec_u16_to_le_bytes(
        es.len() as u16,
    ) + spec_encode_entries(es)
}

/// Well-formed master-list bytes with a zero (success) status.
pub open spec fn valid_master_bytes(b: Seq<u8>) -> bool {
    &&& b.len() >= 7
    &&& b[0] == WIRE_MAGIC_0
    &&& b[1] == WIRE_MAGIC_1
    &&& b[2] == WIRE_VERSION
    &&& b[3] == MSG_MASTER
    &&& b[4] == 0
    &&& b.len() == 7 + 14 * (spec_u16_from_le_bytes(b.subrange(5, 7)) as int)
}

/// A master-list payload whose status byte reports a service-side error.
pub open spec fn service_error_bytes(b: Seq<u8>) -> bool {
    &&& b.len() >= 7
    &&& b[0] == WIRE_MAGIC_0
    &&& b[1] == WIRE_MAGIC_1
    &&& b[2] == WIRE_VERSION
    &&& b[3] == MSG_MASTER
    &&& b[4] != 0
}

pub open spec fn entries_of(v: Seq<Server>) -> Seq<MasterEntry> {
    v.map(|_i: int, s: Server| MasterEntry { id: s.id, addr: s.addr })
}

proof fn lemma_encode_entries_len(es: Seq<MasterEntry>)
    ensures
        spec_encode_entries(es).len() == 14 * es.len(),
    decreases es.len(),
{
    if es.len() > 0 {
        lemma_auto_spec_u64_to_from_le_bytes();
        lemma_auto_spec_u32_to_from_le_bytes();
        lemma_auto_spec_u16_to_from_le_bytes();
        lemma_encode_entries_len(es.drop_first());
        assert(spec_encode_entry(es[0]).len() == 14);
    }
}

proof fn lemma_encode_entries_push(es: Seq<MasterEntry>, e: MasterEntry)
    ensures
        spec_encode_entries(es.push(e)) == spec_encode_entries(es) + spec_encode_entry(e),
    decreases es.len(),
{
    if es.len() == 0 {
        assert(es.push(e).len() == 1);
        assert(es.push(e)[0] == e);
        assert(spec_encode_entries(es) =~= Seq::<u8>::empty());
        let rest = es.push(e).drop_first();
        assert(rest =~= Seq::<MasterEntry>::empty());
        assert(spec_encode_entries(rest) =~= Seq::<u8>::empty());
        assert(spec_encode_entries(es.push(e)) =~= spec_encode_entry(e) + spec_encode_entries(
            rest,
        ));
        assert(spec_encode_entry(e) + Seq::<u8>::empty() =~= spec_encode_entry(e));
        assert(spec_encode_entries(es) + spec_encode_entry(e) =~= spec_encode_entry(e));
    } else {
        lemma_encode_entries_push(es.drop_first(), e);
        assert(es.push(e).drop_first() =~= es.drop_first().push(e));
        assert(es.push(e)[0] == es[0]);
        assert(spec_encode_entries(es.push(e)) =~= spec_encode_entries(es) + spec_encode_entry(
            e,
        ));
    }
}

/// Encodes a master-list payload; the directory side of `parse_master_list`.
pub fn encode_master_list(entries: &Vec<MasterEntry>) -> (out: Vec<u8>)
    requires
        entries@.len() <= 65535,
    ensures
        out@ == spec_encode_master(entries@),
{
    let mut out: Vec<u8> = Vec::new();
    out.push(WIRE_MAGIC_0);
    out.push(WIRE_MAGIC_1);
    out.push(WIRE_VERSION);
    out.push(MSG_MASTER);
    out.push(0);
    let mut cnt = u16_to_le_bytes(entries.len() as u16);
    out.append(&mut cnt);
    let ghost header = out@;
    let n = entries.len();
    let mut k: usize = 0;
    proof {
        assert(entries@.subrange(0, 0) =~= Seq::<MasterEntry>::empty());
    }
    while k < n
        invariant
            k <= n,
            n == entries@.len(),
            out@ == header + spec_encode_entries(entries@.subrange(0, k as int)),
        decreases n - k,
    {
        let e = entries[k];
        let mut id = u64_to_le_bytes(e.id);
        out.append(&mut id);
        let mut ip = u32_to_le_bytes(e.addr.ip);
        out.append(&mut ip);
        let mut port = u16_to_le_bytes(e.addr.port);
        out.append(&mut port);
        proof {
            lemma_encode_entries_push(entries@.subrange(0, k as int), e);
            assert(entries@.subrange(0, (k + 1) as int) =~= entries@.subrange(0, k as int).push(
                e,
            ));
            assert(out@ =~= header + spec_encode_entries(entries@.subrange(0, (k + 1) as int)));
        }
        k += 1;
    }
    proof {
        assert(entries@.subrange(0, n as int) =~= entries@);
        assert(out@ =~= spec_encode_master(entries@));
    }
    out
}

/// Parses a fetched master-list payload into fresh, unqueried server
/// records: exactly one per entry, identity and address set, no live status.
/// The refresh is atomic: a malformed or service-rejected payload yields an
/// error and no records at all.
pub fn parse_master_list(bytes: &[u8]) -> (r: Result<Vec<Server>, FetchError>)
    ensures
        r is Ok <==> valid_master_bytes(bytes@),
        r matches Ok(v) ==> {
            &&& bytes@ == spec_encode_master(entries_of(v@))
            &&& v@.len() <= 65535
            &&& forall|i: int|
                0 <= i < v@.len() ==> {
                    &&& (#[trigger] v@[i]).name@ == Seq::<char>::empty()
                    &&& v@[i].map@ == Seq::<char>::empty()
                    &&& v@[i].players is None
                    &&& v@[i].validity == crate::model::Validity::Invalid
                }
        },
        (r matches Err(e) && e == FetchError::ServiceError) <==> service_error_bytes(bytes@),
        (r matches Err(e) && e == FetchError::MalformedPayload) <==> (!valid_master_bytes(
            bytes@,
        ) && !service_error_bytes(bytes@)),
{
    proof {
        lemma_auto_spec_u16_to_from_le_bytes();
    }
    if bytes.len() < 7 {
        return Err(FetchError::MalformedPayload);
    }
    if !(bytes[0] == WIRE_MAGIC_0 && bytes[1] == WIRE_MAGIC_1 && bytes[2] == WIRE_VERSION
        && bytes[3] == MSG_MASTER) {
        return Err(FetchError::MalformedPayload);
    }
    if bytes[4] != 0 {
        return Err(FetchError::ServiceError);
    }
    let count = u16_from_le_bytes(slice_subrange(bytes, 5, 7)) as usize;
    if bytes.len() != 7 + 14 * count {
        return Err(FetchError::MalformedPayload);
    }
    let ghost header = bytes@.subrange(0, 7);
    let mut v: Vec<Server> = Vec::new();
    let mut k: usize = 0;
    proof {
        assert(entries_of(v@) =~= Seq::<MasterEntry>::empty());
        lemma_encode_entries_len(entries_of(v@));
    }
    while k < count
        invariant
            k <= count,
            count <= 65535,
            bytes@.len() == 7 + 14 * count,
            v@.len() == k,
            spec_encode_entries(entries_of(v@)) =~= bytes@.subrange(7, 7 + 14 * (k as int)),
            forall|i: int|
                0 <= i < v@.len() ==> {
                    &&& (#[trigger] v@[i]).name@ == Seq::<char>::empty()
                    &&& v@[i].map@ == Seq::<char>::empty()
                    &&& v@[i].players is None
                    &&& v@[i].validity == crate::model::Validity::Invalid
                },
        decreases count - k,
    {
        let off = 7 + 14 * k;
        let id = u64_from_le_bytes(slice_subrange(bytes, off, off + 8));
        let ip = u32_from_le_bytes(slice_subrange(bytes, off + 8, off + 12));
        let port = u16_from_le_bytes(slice_subrange(bytes, off + 12, off + 14));
        let ghost old_entries = entries_of(v@);
        let rec = Server::unqueried(id, ServerAddress { ip, port });
        let ghost e = MasterEntry { id: rec.id, addr: rec.addr };
        v.push(rec);
        proof {
            lemma_auto_spec_u64_to_from_le_bytes();
            lemma_auto_spec_u32_to_from_le_bytes();
            lemma_auto_spec_u16_to_from_le_bytes();
            assert(entries_of(v@) =~= old_entries.push(e));
            lemma_encode_entries_push(old_entries, e);
            assert(spec_encode_entry(e) =~= bytes@.subrange(off as int, off as int + 14)) by {
                assert(spec_u64_to_le_bytes(id) =~= bytes@.subrange(off as int, off as int + 8));
                assert(spec_u32_to_le_bytes(ip) =~= bytes@.subrange(
                    off as int + 8,
                    off as int + 12,
                ));
                assert(spec_u16_to_le_bytes(port) =~= bytes@.subrange(
                    off as int + 12,
                    off as int + 14,
                ));
            }
            assert(spec_encode_entries(entries_of(v@)) =~= bytes@.subrange(
                7,
                7 + 14 * ((k + 1) as int),
            ));
        }
        k += 1;
    }
    proof {
        assert(entries_of(v@).len() == count);
        assert(spec_u16_to_le_bytes(count as u16) =~= bytes@.subrange(5, 7));
        assert(bytes@ =~= spec_encode_master(entries_of(v@)));
    }
    Ok(v)
}

} // verus!

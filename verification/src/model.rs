//! The server record model: immutable values describing one remote server's
//! identity and last-known live status.

use vstd::prelude::*;

verus! {

/// Server category: operated by the game's publisher or run privately.
#[derive(Clone, Copy, Debug, PartialEq, Eq, Structural)]
pub enum Kind {
    Official,
    Private,
}

/// Who hosts a private server: a rented dedicated machine or a self-hosted one.
#[derive(Clone, Copy, Debug, PartialEq, Eq, Structural)]
pub enum Ownership {
    Dedicated,
    SelfHosted,
}

/// A single comparable value derived from `Kind` and `Ownership`.
#[derive(Clone, Copy, Debug, PartialEq, Eq, Structural)]
pub enum Mode {
    Official,
    PrivateDedicated,
    PrivateSelfHosted,
}

/// Enumerated geography of a server.
#[derive(Clone, Copy, Debug, PartialEq, Eq, Structural)]
pub enum Region {
    Americas,
    Europe,
    Asia,
    Oceania,
}

/// Classification of a record's trustworthiness: `Valid` after a successful
/// query against a matching build, `Outdated` when the reported build differs
/// from the local one, `Invalid` when the entry was never (or could not be)
/// queried successfully.
#[derive(Clone, Copy, Debug, PartialEq, Eq, Structural)]
pub enum Validity {
    Valid,
    Outdated,
    Invalid,
}

/// A network endpoint, kept as plain values (an IPv4 address and a port).
#[derive(Clone, Copy, Debug, PartialEq, Eq, Structural)]
pub struct ServerAddress {
    pub ip: u32,
    pub port: u16,
}

/// Live player counters, populated only after a successful query.
#[derive(Clone, Copy, Debug, PartialEq, Eq, Structural)]
pub struct PlayerCounts {
    pub current: u16,
    pub max: u16,
}

/// One server's identity (`id`, `addr`) and last-known status. The identity
/// fields never change across a status update; `validity` is recomputed
/// whenever `build_id` changes.
pub struct Server {
    /// Stable, source-assigned identity; the deterministic sort tie-break.
    pub id: u64,
    /// The network endpoint this record can always be queried at.
    pub addr: ServerAddress,
    pub name: String,
    pub map: String,
    pub kind: Kind,
    pub ownership: Ownership,
    pub region: Region,
    /// Integer game-version fingerprint reported by the server.
    pub build_id: u32,
    pub password_protected: bool,
    pub players: Option<PlayerCounts>,
    pub validity: Validity,
}

/// The mode a server plays in, derived from its category and hosting.
pub open spec fn spec_mode_of(kind: Kind, ownership: Ownership) -> Mode {
    match kind {
        Kind::Official => Mode::Official,
        Kind::Private => match ownership {
            Ownership::Dedicated => Mode::PrivateDedicated,
            Ownership::SelfHosted => Mode::PrivateSelfHosted,
        },
    }
}

/// Validity of a record that reported `build_id`, judged against the local
/// installation's `local_build`.
pub open spec fn spec_validity_for(build_id: u32, local_build: u32) -> Validity {
    if build_id == local_build {
        Validity::Valid
    } else {
        Validity::Outdated
    }
}

/// The engine revision pair encoded in a build id.
pub open spec fn spec_revision(build_id: u32) -> (u32, u16) {
    let maj = (build_id | 0x8000_0000) >> 13;
    let min = (build_id & 0x1fff) as u16;
    let mask: u16 = if min > 0x1000 {
        0x7000
    } else {
        0x8000
    };
    (maj, min | mask)
}

impl Server {
    pub open spec fn spec_mode(self) -> Mode {
        spec_mode_of(self.kind, self.ownership)
    }

    pub fn mode(&self) -> (m: Mode)
        ensures
            m == self.spec_mode(),
    {
        mode_of(self.kind, self.ownership)
    }

    /// A fresh record as the master list fetcher creates it: address and
    /// identity only, no live status yet.
    pub fn unqueried(id: u64, addr: ServerAddress) -> (s: Server)
        ensures
            s.id == id,
            s.addr == addr,
            s.name@ == Seq::<char>::empty(),
            s.map@ == Seq::<char>::empty(),
            s.players is None,
            s.validity == Validity::Invalid,
    {
        Server {
            id,
            addr,
            name: String::new(),
            map: String::new(),
            kind: Kind::Private,
            ownership: Ownership::Dedicated,
            region: Region::Americas,
            build_id: 0,
            password_protected: false,
            players: None,
            validity: Validity::Invalid,
        }
    }
}

pub fn mode_of(kind: Kind, ownership: Ownership) -> (m: Mode)
    ensures
        m == spec_mode_of(kind, ownership),
{
    match kind {
        Kind::Official => Mode::Official,
        Kind::Private => match ownership {
            Ownership::Dedicated => Mode::PrivateDedicated,
            Ownership::SelfHosted => Mode::PrivateSelfHosted,
        },
    }
}

pub fn validity_for(build_id: u32, local_build: u32) -> (v: Validity)
    ensures
        v == spec_validity_for(build_id, local_build),
{
    if build_id == local_build {
        Validity::Valid
    } else {
        Validity::Outdated
    }
}

/// The engine revision pair (major, minor) that a build id encodes.
pub fn revision(build_id: u32) -> (r: (u32, u16))
    ensures
        r == spec_revision(build_id),
{
    let maj = (build_id | 0x8000_0000) >> 13;
    let min = (build_id & 0x1fff) as u16;
    assert(build_id & 0x1fff < 0x2000) by (bit_vector);
    let mask: u16 = if min > 0x1000 {
        0x7000
    } else {
        0x8000
    };
    (maj, min | mask)
}

} // verus!

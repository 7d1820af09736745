//! Favorite servers: a separate identity-by-address list, persisted outside
//! this core. The core's contract with it is small: an address can be tested
//! for membership, and favorite entries can be merged into the address set
//! handed to the query client even when the master list does not carry them.

use vstd::prelude::*;

use crate::model::{Server, ServerAddress, Validity};

verus! {

/// One favorite: an address, and the server's last known name if any.
pub struct FavoriteServer {
    pub addr: ServerAddress,
    pub name: Option<String>,
}

/// A list of favorites, at most one entry per address.
pub struct FavoriteServers {
    entries: Vec<FavoriteServer>,
}

/// Some entry carries this address.
pub open spec fn spec_has_fav_addr(s: Seq<FavoriteServer>, addr: ServerAddress) -> bool {
    exists|i: int| 0 <= i < s.len() && (#[trigger] s[i]).addr == addr
}

/// Some record carries this address.
pub open spec fn spec_has_addr(s: Seq<Server>, addr: ServerAddress) -> bool {
    exists|i: int| 0 <= i < s.len() && (#[trigger] s[i]).addr == addr
}

/// The synthetic stable id of a record that enters the list from the
/// favorites rather than from the master list: derived from the address, so
/// it is deterministic and distinct per address.
pub open spec fn spec_addr_id(addr: ServerAddress) -> u64 {
    (addr.ip as u64 * 65536 + addr.port as u64) as u64
}

impl FavoriteServers {
    pub closed spec fn spec_entries(&self) -> Seq<FavoriteServer> {
        self.entries@
    }

    pub fn new() -> (r: Self)
        ensures
            r.spec_entries() == Seq::<FavoriteServer>::empty(),
    {
        FavoriteServers { entries: Vec::new() }
    }

    pub fn len(&self) -> (n: usize)
        ensures
            n == self.spec_entries().len(),
    {
        self.entries.len()
    }

    pub fn at(&self, i: usize) -> (r: &FavoriteServer)
        requires
            i < self.spec_entries().len(),
        ensures
            *r == self.spec_entries()[i as int],
    {
        &self.entries[i]
    }

    /// Whether some favorite carries this address.
    pub fn contains_addr(&self, addr: &ServerAddress) -> (r: bool)
        ensures
            r == spec_has_fav_addr(self.spec_entries(), *addr),
    {
        let n = self.entries.len();
        let mut i: usize = 0;
        while i < n
            invariant
                i <= n,
                n == self.spec_entries().len(),
                forall|k: int| 0 <= k < i ==> (#[trigger] self.spec_entries()[k]).addr != *addr,
            decreases n - i,
        {
            if self.entries[i].addr == *addr {
                return true;
            }
            i += 1;
        }
        false
    }

    /// Adds a favorite; an entry that already carries the address is
    /// replaced, so addresses stay unique.
    pub fn insert(&mut self, favorite: FavoriteServer)
        ensures
            spec_has_fav_addr(final(self).spec_entries(), favorite.addr),
            forall|a: ServerAddress|
                spec_has_fav_addr(final(self).spec_entries(), a) <==> (spec_has_fav_addr(
                    old(self).spec_entries(),
                    a,
                ) || a == favorite.addr),
    {
        let n = self.entries.len();
        let mut i: usize = 0;
        while i < n
            invariant
                i <= n,
                n == self.spec_entries().len(),
                self.spec_entries() == old(self).spec_entries(),
                forall|k: int|
                    0 <= k < i ==> (#[trigger] self.spec_entries()[k]).addr != favorite.addr,
            decreases n - i,
        {
            if self.entries[i].addr == favorite.addr {
                let ghost before = self.entries@;
                self.entries.set(i, favorite);
                proof {
                    assert(self.entries@[i as int].addr == favorite.addr);
                    assert forall|a: ServerAddress|
                        spec_has_fav_addr(self.entries@, a) <==> (spec_has_fav_addr(before, a) || a
                            == favorite.addr) by {
                        if spec_has_fav_addr(before, a) {
                            let w = choose|w: int|
                                0 <= w < before.len() && (#[trigger] before[w]).addr == a;
                            if w == i {
                                assert(before[w].addr == favorite.addr);
                                assert(self.entries@[i as int].addr == a);
                            } else {
                                assert(self.entries@[w].addr == a);
                            }
                        }
                        if spec_has_fav_addr(self.entries@, a) {
                            let w = choose|w: int|
                                0 <= w < self.entries@.len() && (#[trigger] self.entries@[w]).addr
                                    == a;
                            if w != i {
                                assert(before[w].addr == a);
                            }
                        }
                    }
                }
                return ;
            }
            i += 1;
        }
        let ghost before = self.entries@;
        self.entries.push(favorite);
        proof {
            assert(self.entries@[before.len() as int].addr == favorite.addr);
            assert forall|a: ServerAddress|
                spec_has_fav_addr(self.entries@, a) <==> (spec_has_fav_addr(before, a) || a
                    == favorite.addr) by {
                if spec_has_fav_addr(before, a) {
                    let w = choose|w: int| 0 <= w < before.len() && (#[trigger] before[w]).addr == a;
                    assert(self.entries@[w].addr == a);
                }
                if spec_has_fav_addr(self.entries@, a) {
                    let w = choose|w: int|
                        0 <= w < self.entries@.len() && (#[trigger] self.entries@[w]).addr == a;
                    if w < before.len() {
                        assert(before[w].addr == a);
                    }
                }
            }
        }
    }
}

fn records_have_addr(records: &Vec<Server>, addr: &ServerAddress) -> (r: bool)
    ensures
        r == spec_has_addr(records@, *addr),
{
    let n = records.len();
    let mut i: usize = 0;
    while i < n
        invariant
            i <= n,
            n == records@.len(),
            forall|k: int| 0 <= k < i ==> (#[trigger] records@[k]).addr != *addr,
        decreases n - i,
    {
        if records[i].addr == *addr {
            return true;
        }
        i += 1;
    }
    false
}

/// Merges favorite entries into the record set handed to the query client:
/// every favorite's address ends up present, records from the master list
/// are kept unchanged and in front, and each appended record is a fresh,
/// unqueried entry under its synthetic address-derived id, carrying the
/// favorite's last known name.
pub fn merge_favorites(records: Vec<Server>, favorites: &FavoriteServers) -> (out: Vec<Server>)
    ensures
        out@.len() >= records@.len(),
        out@.subrange(0, records@.len() as int) == records@,
        forall|i: int|
            0 <= i < favorites.spec_entries().len() ==> spec_has_addr(
                out@,
                (#[trigger] favorites.spec_entries()[i]).addr,
            ),
        forall|j: int|
            records@.len() <= j < out@.len() ==> {
                &&& !spec_has_addr(records@, (#[trigger] out@[j]).addr)
                &&& out@[j].id == spec_addr_id(out@[j].addr)
                &&& out@[j].validity == Validity::Invalid
                &&& out@[j].players is None
                &&& spec_has_fav_addr(favorites.spec_entries(), out@[j].addr)
            },
{
    let ghost original = records@;
    let mut out = records;
    let n = favorites.len();
    let mut i: usize = 0;
    while i < n
        invariant
            i <= n,
            n == favorites.spec_entries().len(),
            out@.len() >= original.len(),
            out@.subrange(0, original.len() as int) == original,
            forall|k: int|
                0 <= k < i ==> spec_has_addr(
                    out@,
                    (#[trigger] favorites.spec_entries()[k]).addr,
                ),
            forall|j: int|
                original.len() <= j < out@.len() ==> {
                    &&& !spec_has_addr(original, (#[trigger] out@[j]).addr)
                    &&& out@[j].id == spec_addr_id(out@[j].addr)
                    &&& out@[j].validity == Validity::Invalid
                    &&& out@[j].players is None
                    &&& spec_has_fav_addr(favorites.spec_entries(), out@[j].addr)
                },
        decreases n - i,
    {
        let fav = favorites.at(i);
        let ghost before = out@;
        if !records_have_addr(&out, &fav.addr) {
            proof {
                assert forall|j: int| 0 <= j < original.len() implies (#[trigger] original[j]).addr
                    != fav.addr by {
                    assert(before[j] == original[j]);
                }
            }
            let id: u64 = (fav.addr.ip as u64) * 65536 + (fav.addr.port as u64);
            let name: String = match &fav.name {
                Some(nm) => nm.clone(),
                None => String::new(),
            };
            let rec = Server {
                id,
                addr: fav.addr,
                name,
                map: String::new(),
                kind: crate::model::Kind::Private,
                ownership: crate::model::Ownership::Dedicated,
                region: crate::model::Region::Americas,
                build_id: 0,
                password_protected: false,
                players: None,
                validity: Validity::Invalid,
            };
            out.push(rec);
            proof {
                assert(out@.subrange(0, original.len() as int) =~= before.subrange(
                    0,
                    original.len() as int,
                ));
                assert(out@[out@.len() - 1].addr == fav.addr);
                assert forall|j: int| original.len() <= j < out@.len() - 1 implies out@[j]
                    == before[j] by {}
            }
        }
        proof {
            assert(spec_has_addr(out@, favorites.spec_entries()[i as int].addr)) by {
                if spec_has_addr(before, fav.addr) {
                    let w = choose|w: int|
                        0 <= w < before.len() && (#[trigger] before[w]).addr == fav.addr;
                    assert(out@[w].addr == fav.addr);
                }
            }
            assert forall|k: int| 0 <= k < i + 1 implies spec_has_addr(
                out@,
                (#[trigger] favorites.spec_entries()[k]).addr,
            ) by {
                if k < i {
                    let a = favorites.spec_entries()[k].addr;
                    let w = choose|w: int| 0 <= w < before.len() && (#[trigger] before[w]).addr == a;
                    assert(out@[w].addr == a);
                }
            }
        }
        i += 1;
    }
    out
}

} // verus!

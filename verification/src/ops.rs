//! Filtering and ordering of server records: the filter predicate, the sort
//! criteria, and the total order (with its deterministic tie-break) that
//! sorted views are built from.

use vstd::prelude::*;
use vstd::relations::{sorted_by, total_ordering};
use vstd::multiset::Multiset;
use vstd::seq_lib::lemma_sorted_unique;
use vstd::string::StrSliceExecFns;

use crate::model::{Mode, Region, Server, Validity};

verus! {

/// The primary sort key of a server list view.
#[derive(Clone, Copy, Debug, PartialEq, Eq, Structural)]
pub enum SortKey {
    Name,
    MapName,
    Mode,
    Region,
}

/// A total order over server records: a primary key plus a direction. The
/// order is made total by a mandatory tie-break on the record `id`, and
/// `ascending = false` reverses the final order, tie-break included.
#[derive(Clone, Copy, Debug, PartialEq, Eq, Structural)]
pub struct SortCriteria {
    pub key: SortKey,
    pub ascending: bool,
}

impl SortCriteria {
    pub fn reversed(&self) -> (r: Self)
        ensures
            r.key == self.key,
            r.ascending == !self.ascending,
    {
        Self { key: self.key, ascending: !self.ascending }
    }
}

impl SortCriteria {
    /// Three-way comparison of two records under these criteria: negative
    /// when `a` orders before `b`, zero only when primary key and id tie.
    pub fn compare(&self, a: &Server, b: &Server) -> (r: i8)
        ensures
            r as int == spec_cmp(*self, *a, *b),
            -1 <= r as int <= 1,
    {
        let k: i8 = match self.key {
            SortKey::Name => cmp_chars_exec(a.name.as_str(), b.name.as_str()),
            SortKey::MapName => cmp_chars_exec(a.map.as_str(), b.map.as_str()),
            SortKey::Mode => {
                let ra = rank_of_mode_exec(a.mode());
                let rb = rank_of_mode_exec(b.mode());
                if ra < rb {
                    -1
                } else if rb < ra {
                    1
                } else {
                    0
                }
            },
            SortKey::Region => {
                let ra = rank_of_region_exec(a.region);
                let rb = rank_of_region_exec(b.region);
                if ra < rb {
                    -1
                } else if rb < ra {
                    1
                } else {
                    0
                }
            },
        };
        let full: i8 = if k != 0 {
            k
        } else if a.id < b.id {
            -1
        } else if b.id < a.id {
            1
        } else {
            0
        };
        if self.ascending {
            full
        } else {
            -full
        }
    }
}

impl Default for SortCriteria {
    fn default() -> (r: Self)
        ensures
            r.key == SortKey::Name,
            r.ascending,
    {
        Self { key: SortKey::Name, ascending: true }
    }
}

/// Three-way comparison of two integers.
pub open spec fn int_cmp(a: int, b: int) -> int {
    if a < b {
        -1
    } else if b < a {
        1
    } else {
        0
    }
}

/// Three-way lexicographic comparison of two character sequences, by code
/// point.
pub open spec fn chars_cmp(a: Seq<char>, b: Seq<char>) -> int
    decreases a.len(),
{
    if a.len() == 0 && b.len() == 0 {
        0
    } else if a.len() == 0 {
        -1
    } else if b.len() == 0 {
        1
    } else if (a[0] as u32) < (b[0] as u32) {
        -1
    } else if (b[0] as u32) < (a[0] as u32) {
        1
    } else {
        chars_cmp(a.drop_first(), b.drop_first())
    }
}

pub proof fn lemma_chars_cmp_refl(a: Seq<char>)
    ensures
        chars_cmp(a, a) == 0,
    decreases a.len(),
{
    if a.len() > 0 {
        lemma_chars_cmp_refl(a.drop_first());
    }
}

pub proof fn lemma_chars_cmp_antisym(a: Seq<char>, b: Seq<char>)
    ensures
        chars_cmp(b, a) == -chars_cmp(a, b),
    decreases a.len(),
{
    if a.len() > 0 && b.len() > 0 && (a[0] as u32) == (b[0] as u32) {
        lemma_chars_cmp_antisym(a.drop_first(), b.drop_first());
    }
}

pub proof fn lemma_chars_cmp_trans(a: Seq<char>, b: Seq<char>, c: Seq<char>)
    requires
        chars_cmp(a, b) <= 0,
        chars_cmp(b, c) <= 0,
    ensures
        chars_cmp(a, c) <= 0,
        chars_cmp(a, c) == 0 ==> chars_cmp(a, b) == 0 && chars_cmp(b, c) == 0,
    decreases a.len() + b.len() + c.len(),
{
    if a.len() == 0 || b.len() == 0 || c.len() == 0 {
        // At least one comparison bottoms out on an empty sequence; the
        // definition settles every such case directly.
    } else if (a[0] as u32) == (b[0] as u32) && (b[0] as u32) == (c[0] as u32) {
        lemma_chars_cmp_trans(a.drop_first(), b.drop_first(), c.drop_first());
    }
}

pub open spec fn rank_of_mode(m: Mode) -> int {
    match m {
        Mode::Official => 0,
        Mode::PrivateDedicated => 1,
        Mode::PrivateSelfHosted => 2,
    }
}

pub open spec fn rank_of_region(r: Region) -> int {
    match r {
        Region::Americas => 0,
        Region::Europe => 1,
        Region::Asia => 2,
        Region::Oceania => 3,
    }
}

/// Three-way comparison of the primary key alone.
pub open spec fn key_cmp(key: SortKey, a: Server, b: Server) -> int {
    match key {
        SortKey::Name => chars_cmp(a.name@, b.name@),
        SortKey::MapName => chars_cmp(a.map@, b.map@),
        SortKey::Mode => int_cmp(rank_of_mode(a.spec_mode()), rank_of_mode(b.spec_mode())),
        SortKey::Region => int_cmp(rank_of_region(a.region), rank_of_region(b.region)),
    }
}

/// Primary key comparison with the mandatory `id` tie-break, ascending.
pub open spec fn base_cmp(key: SortKey, a: Server, b: Server) -> int {
    if key_cmp(key, a, b) != 0 {
        key_cmp(key, a, b)
    } else {
        int_cmp(a.id as int, b.id as int)
    }
}

/// The full three-way record comparison for the given criteria: reversing the
/// direction reverses the final order, tie-break included.
pub open spec fn spec_cmp(c: SortCriteria, a: Server, b: Server) -> int {
    if c.ascending {
        base_cmp(c.key, a, b)
    } else {
        -base_cmp(c.key, a, b)
    }
}

pub proof fn lemma_cmp_refl(c: SortCriteria, a: Server)
    ensures
        spec_cmp(c, a, a) == 0,
{
    match c.key {
        SortKey::Name => lemma_chars_cmp_refl(a.name@),
        SortKey::MapName => lemma_chars_cmp_refl(a.map@),
        _ => (),
    }
}

pub proof fn lemma_cmp_antisym(c: SortCriteria, a: Server, b: Server)
    ensures
        spec_cmp(c, b, a) == -spec_cmp(c, a, b),
{
    match c.key {
        SortKey::Name => lemma_chars_cmp_antisym(a.name@, b.name@),
        SortKey::MapName => lemma_chars_cmp_antisym(a.map@, b.map@),
        _ => (),
    }
}

proof fn lemma_base_cmp_trans(key: SortKey, a: Server, b: Server, c: Server)
    requires
        base_cmp(key, a, b) <= 0,
        base_cmp(key, b, c) <= 0,
    ensures
        base_cmp(key, a, c) <= 0,
        base_cmp(key, a, c) == 0 ==> base_cmp(key, a, b) == 0 && base_cmp(key, b, c) == 0,
{
    match key {
        SortKey::Name => {
            lemma_chars_cmp_antisym(a.name@, b.name@);
            lemma_chars_cmp_antisym(b.name@, c.name@);
            lemma_chars_cmp_antisym(a.name@, c.name@);
            if chars_cmp(a.name@, b.name@) <= 0 && chars_cmp(b.name@, c.name@) <= 0 {
                lemma_chars_cmp_trans(a.name@, b.name@, c.name@);
            }
        },
        SortKey::MapName => {
            lemma_chars_cmp_antisym(a.map@, b.map@);
            lemma_chars_cmp_antisym(b.map@, c.map@);
            lemma_chars_cmp_antisym(a.map@, c.map@);
            if chars_cmp(a.map@, b.map@) <= 0 && chars_cmp(b.map@, c.map@) <= 0 {
                lemma_chars_cmp_trans(a.map@, b.map@, c.map@);
            }
        },
        _ => (),
    }
}

pub proof fn lemma_cmp_trans(c: SortCriteria, a: Server, b: Server, d: Server)
    requires
        spec_cmp(c, a, b) <= 0,
        spec_cmp(c, b, d) <= 0,
    ensures
        spec_cmp(c, a, d) <= 0,
        spec_cmp(c, a, d) == 0 ==> spec_cmp(c, a, b) == 0 && spec_cmp(c, b, d) == 0,
{
    if c.ascending {
        lemma_base_cmp_trans(c.key, a, b, d);
    } else {
        let ca = SortCriteria { key: c.key, ascending: true };
        lemma_cmp_antisym(ca, a, b);
        lemma_cmp_antisym(ca, b, d);
        lemma_cmp_antisym(ca, a, d);
        lemma_base_cmp_trans(c.key, d, b, a);
    }
}

/// The record sequence a view presents: the backing records picked out by an
/// index sequence, in index order.
pub open spec fn view_of(s: Seq<Server>, idx: Seq<usize>) -> Seq<Server> {
    idx.map(|_i: int, p: usize| s[p as int])
}

/// The order sorted views are built from: positions are ordered by the record
/// comparison, with equal records kept in their current relative order, which
/// makes the sort stable and this relation a total order on positions.
pub open spec fn pos_le(c: SortCriteria, s: Seq<Server>, p: usize, q: usize) -> bool {
    spec_cmp(c, s[p as int], s[q as int]) < 0 || (spec_cmp(c, s[p as int], s[q as int]) == 0 && p
        <= q)
}

pub open spec fn pos_order(c: SortCriteria, s: Seq<Server>) -> spec_fn(usize, usize) -> bool {
    |p: usize, q: usize| pos_le(c, s, p, q)
}

pub proof fn lemma_pos_order_total(c: SortCriteria, s: Seq<Server>)
    ensures
        total_ordering(pos_order(c, s)),
{
    let r = pos_order(c, s);
    assert forall|p: usize| #[trigger] r(p, p) by {
        lemma_cmp_refl(c, s[p as int]);
    }
    assert forall|p: usize, q: usize| #[trigger] r(p, q) && #[trigger] r(q, p) implies p == q by {
        lemma_cmp_antisym(c, s[p as int], s[q as int]);
    }
    assert forall|p: usize, q: usize, t: usize| #[trigger] r(p, q) && #[trigger] r(q, t) implies r(
        p,
        t,
    ) by {
        lemma_cmp_trans(c, s[p as int], s[q as int], s[t as int]);
    }
    assert forall|p: usize, q: usize| !(#[trigger] r(p, q)) implies r(q, p) by {
        lemma_cmp_antisym(c, s[p as int], s[q as int]);
    }
}

/// The positions `0 .. n`, in order.
pub open spec fn identity_positions(n: nat) -> Seq<usize> {
    Seq::new(n, |i: int| i as usize)
}

/// The unique permutation of a sequence's positions that is sorted by
/// `pos_le`: what sorting presents, as positions.
pub open spec fn perm_of(c: SortCriteria, s: Seq<Server>) -> Seq<usize> {
    identity_positions(s.len()).sort_by(pos_order(c, s))
}

/// The record sequence that sorting by `c` presents.
pub open spec fn sorted_records(c: SortCriteria, s: Seq<Server>) -> Seq<Server> {
    view_of(s, perm_of(c, s))
}

fn rank_of_mode_exec(m: Mode) -> (r: u8)
    ensures
        r as int == rank_of_mode(m),
{
    match m {
        Mode::Official => 0,
        Mode::PrivateDedicated => 1,
        Mode::PrivateSelfHosted => 2,
    }
}

fn rank_of_region_exec(r: Region) -> (rank: u8)
    ensures
        rank as int == rank_of_region(r),
{
    match r {
        Region::Americas => 0,
        Region::Europe => 1,
        Region::Asia => 2,
        Region::Oceania => 3,
    }
}

/// Lexicographic three-way comparison of two strings by code point.
fn cmp_chars_exec(a: &str, b: &str) -> (r: i8)
    ensures
        r as int == chars_cmp(a@, b@),
        -1 <= r as int <= 1,
{
    let n1 = a.unicode_len();
    let n2 = b.unicode_len();
    let min = if n1 < n2 {
        n1
    } else {
        n2
    };
    let mut i: usize = 0;
    proof {
        assert(a@.skip(0) =~= a@);
        assert(b@.skip(0) =~= b@);
    }
    while i < min
        invariant
            i <= min,
            n1 == a@.len(),
            n2 == b@.len(),
            min == if n1 < n2 {
                n1
            } else {
                n2
            },
            chars_cmp(a@, b@) == chars_cmp(a@.skip(i as int), b@.skip(i as int)),
        decreases min - i,
    {
        let ca = a.get_char(i);
        let cb = b.get_char(i);
        proof {
            assert(a@.skip(i as int)[0] == a@[i as int]);
            assert(b@.skip(i as int)[0] == b@[i as int]);
        }
        if (ca as u32) < (cb as u32) {
            return -1;
        }
        if (cb as u32) < (ca as u32) {
            return 1;
        }
        proof {
            assert(a@.skip(i as int).drop_first() =~= a@.skip(i + 1));
            assert(b@.skip(i as int).drop_first() =~= b@.skip(i + 1));
        }
        i += 1;
    }
    proof {
        assert(a@.skip(i as int).len() == n1 - i);
        assert(b@.skip(i as int).len() == n2 - i);
    }
    if n1 == n2 {
        0
    } else if n1 < n2 {
        -1
    } else {
        1
    }
}

/// ASCII-case-folded code point of a character: letters `A` through `Z` fold
/// to their lower-case counterparts, every other character to itself.
pub open spec fn fold_char(ch: char) -> u32 {
    let c = ch as u32;
    if 65 <= c && c <= 90 {
        (c + 32) as u32
    } else {
        c
    }
}

/// The pattern matches the text at offset `off`, ignoring ASCII case.
pub open spec fn ci_match_at(text: Seq<char>, pat: Seq<char>, off: int) -> bool {
    forall|j: int| 0 <= j < pat.len() ==> fold_char(text[off + j]) == fold_char(pat[j])
}

/// Case-insensitive substring containment; the empty pattern matches every
/// text.
pub open spec fn contains_ci(text: Seq<char>, pat: Seq<char>) -> bool {
    exists|off: int| 0 <= off && off + pat.len() <= text.len() && ci_match_at(text, pat, off)
}

pub fn fold_char_exec(ch: char) -> (r: u32)
    ensures
        r == fold_char(ch),
{
    let c = ch as u32;
    if 65 <= c && c <= 90 {
        c + 32
    } else {
        c
    }
}

fn ci_match_at_exec(text: &str, pat: &str, off: usize) -> (r: bool)
    requires
        off + pat@.len() <= text@.len(),
    ensures
        r == ci_match_at(text@, pat@, off as int),
{
    let tn = text.unicode_len();
    let pn = pat.unicode_len();
    let mut j: usize = 0;
    while j < pn
        invariant
            j <= pn,
            tn == text@.len(),
            pn == pat@.len(),
            off + pn <= tn,
            forall|k: int| 0 <= k < j ==> fold_char(text@[off + k]) == fold_char(pat@[k]),
        decreases pn - j,
    {
        if fold_char_exec(text.get_char(off + j)) != fold_char_exec(pat.get_char(j)) {
            return false;
        }
        j += 1;
    }
    true
}

/// Whether `text` contains `pat` as a substring, ignoring ASCII case.
pub fn contains_ci_exec(text: &str, pat: &str) -> (r: bool)
    ensures
        r == contains_ci(text@, pat@),
{
    let tn = text.unicode_len();
    let pn = pat.unicode_len();
    if pn > tn {
        return false;
    }
    let mut off: usize = 0;
    while off <= tn - pn
        invariant
            pn <= tn,
            tn == text@.len(),
            pn == pat@.len(),
            off <= tn - pn + 1,
            forall|o: int| 0 <= o < off ==> !ci_match_at(text@, pat@, o),
        decreases tn + 1 - pn - off,
    {
        if ci_match_at_exec(text, pat, off) {
            return true;
        }
        off += 1;
    }
    false
}

/// Which category of servers a browser session shows.
#[derive(Clone, Copy, Debug, PartialEq, Eq, Structural)]
pub enum TypeFilter {
    All,
    Official,
    Private,
    Favorites,
}

impl Default for TypeFilter {
    fn default() -> (r: Self)
        ensures
            r == TypeFilter::All,
    {
        TypeFilter::All
    }
}

/// A conjunctive predicate over server records. An absent (`None`) or empty
/// criterion matches every record: "no opinion" is the neutral element.
pub struct Filter {
    /// Case-insensitive substring pattern on the server name.
    pub name: String,
    /// Case-insensitive substring pattern on the map name.
    pub map: String,
    pub mode: Option<Mode>,
    pub region: Option<Region>,
    pub build_id: Option<u32>,
    /// `true` admits password-protected servers alongside open ones; `false`
    /// admits only open ones. The flag can only add servers back, it never
    /// excludes an open server.
    pub password_protected: bool,
    /// `false` admits only records whose validity is `Valid`; `Outdated` is
    /// treated as a sub-case of invalid for filtering purposes.
    pub include_invalid: bool,
}

/// What the filter admits.
pub open spec fn spec_matches(f: Filter, s: Server) -> bool {
    &&& contains_ci(s.name@, f.name@)
    &&& contains_ci(s.map@, f.map@)
    &&& match f.mode {
        Option::Some(m) => s.spec_mode() == m,
        Option::None => true,
    }
    &&& match f.region {
        Option::Some(r) => s.region == r,
        Option::None => true,
    }
    &&& match f.build_id {
        Option::Some(b) => s.build_id == b,
        Option::None => true,
    }
    &&& (f.password_protected || !s.password_protected)
    &&& (f.include_invalid || s.validity == Validity::Valid)
}

impl Default for Filter {
    /// The neutral filter: it matches every record.
    fn default() -> (r: Self)
        ensures
            r.name@ == Seq::<char>::empty(),
            r.map@ == Seq::<char>::empty(),
            r.mode is None,
            r.region is None,
            r.build_id is None,
            !r.password_protected,
            r.include_invalid,
    {
        Filter {
            name: String::new(),
            map: String::new(),
            mode: None,
            region: None,
            build_id: None,
            password_protected: false,
            include_invalid: true,
        }
    }
}

impl Filter {
    pub fn set_name(&mut self, name: String)
        ensures
            *final(self) == (Filter { name, ..*old(self) }),
    {
        self.name = name;
    }

    pub fn set_map(&mut self, map: String)
        ensures
            *final(self) == (Filter { map, ..*old(self) }),
    {
        self.map = map;
    }

    pub fn set_mode(&mut self, mode: Option<Mode>)
        ensures
            *final(self) == (Filter { mode, ..*old(self) }),
    {
        self.mode = mode;
    }

    pub fn set_region(&mut self, region: Option<Region>)
        ensures
            *final(self) == (Filter { region, ..*old(self) }),
    {
        self.region = region;
    }

    pub fn set_build_id(&mut self, build_id: Option<u32>)
        ensures
            *final(self) == (Filter { build_id, ..*old(self) }),
    {
        self.build_id = build_id;
    }

    pub fn set_password_protected(&mut self, password_protected: bool)
        ensures
            *final(self) == (Filter { password_protected, ..*old(self) }),
    {
        self.password_protected = password_protected;
    }

    pub fn set_include_invalid(&mut self, include_invalid: bool)
        ensures
            *final(self) == (Filter { include_invalid, ..*old(self) }),
    {
        self.include_invalid = include_invalid;
    }

    /// Whether this filter admits the given record.
    pub fn matches(&self, server: &Server) -> (r: bool)
        ensures
            r == spec_matches(*self, *server),
    {
        contains_ci_exec(server.name.as_str(), self.name.as_str())
            && contains_ci_exec(server.map.as_str(), self.map.as_str())
            && match self.mode {
                Some(m) => server.mode() == m,
                None => true,
            }
            && match self.region {
                Some(r) => server.region == r,
                None => true,
            }
            && match self.build_id {
                Some(b) => server.build_id == b,
                None => true,
            }
            && (self.password_protected || !server.password_protected)
            && (self.include_invalid || matches!(server.validity, Validity::Valid))
    }
}

/// Password policy law: the flag never excludes an open server, a protected
/// record is never admitted when the flag is off, and turning the flag on can
/// only add records back.
pub proof fn lemma_password_policy(f: Filter, s: Server)
    ensures
        !s.password_protected ==> (spec_matches((Filter { password_protected: true, ..f }), s)
            <==> spec_matches((Filter { password_protected: false, ..f }), s)),
        s.password_protected ==> !spec_matches((Filter { password_protected: false, ..f }), s),
        spec_matches((Filter { password_protected: false, ..f }), s) ==> spec_matches(
            (Filter { password_protected: true, ..f }),
            s,
        ),
{
}

pub proof fn lemma_perm_of_ensures(c: SortCriteria, s: Seq<Server>)
    ensures
        perm_of(c, s).to_multiset() == identity_positions(s.len()).to_multiset(),
        sorted_by(perm_of(c, s), pos_order(c, s)),
        perm_of(c, s).len() == s.len(),
        forall|k: int|
            0 <= k < perm_of(c, s).len() ==> (#[trigger] perm_of(c, s)[k] as int) < s.len(),
{
    broadcast use vstd::seq_lib::group_to_multiset_ensures;

    lemma_pos_order_total(c, s);
    let idn = identity_positions(s.len());
    idn.lemma_sort_by_ensures(pos_order(c, s));
    let p = perm_of(c, s);
    assert(idn.len() == s.len());
    assert(p.to_multiset().len() == idn.to_multiset().len());
    assert(p.len() == s.len());
    assert forall|k: int| 0 <= k < p.len() implies (#[trigger] p[k] as int) < s.len() by {
        assert(p.to_multiset().contains(p[k]));
        assert(idn.to_multiset().contains(p[k]));
        assert(idn.contains(p[k]));
        let j = choose|j: int| 0 <= j < idn.len() && idn[j] == p[k];
        assert(idn[j] == j as usize);
    }
}

pub proof fn lemma_view_of_identity(s: Seq<Server>)
    requires
        s.len() <= usize::MAX,
    ensures
        view_of(s, identity_positions(s.len())) =~= s,
{
    assert forall|i: int| 0 <= i < s.len() implies view_of(s, identity_positions(s.len()))[i]
        == s[i] by {
        assert(identity_positions(s.len())[i] == i as usize);
    }
}

proof fn lemma_view_of_remove(s: Seq<Server>, idx: Seq<usize>, j: int)
    requires
        0 <= j < idx.len(),
    ensures
        view_of(s, idx.remove(j)) =~= view_of(s, idx).remove(j),
{
    idx.remove_ensures(j);
    view_of(s, idx).remove_ensures(j);
}

proof fn lemma_view_of_multiset(s: Seq<Server>, idx1: Seq<usize>, idx2: Seq<usize>)
    requires
        idx1.to_multiset() == idx2.to_multiset(),
    ensures
        view_of(s, idx1).to_multiset() == view_of(s, idx2).to_multiset(),
    decreases idx1.len(),
{
    broadcast use vstd::seq_lib::group_to_multiset_ensures;
    broadcast use vstd::multiset::group_multiset_axioms;

    if idx1.len() == 0 {
        assert(idx2.to_multiset().len() == 0);
        assert(view_of(s, idx1) =~= Seq::<Server>::empty());
        assert(view_of(s, idx2) =~= Seq::<Server>::empty());
    } else {
        let i1 = idx1.len() - 1;
        let v = idx1[i1];
        assert(idx1.contains(v));
        assert(idx2.to_multiset().contains(v));
        assert(idx2.contains(v));
        let j = choose|j: int| 0 <= j < idx2.len() && idx2[j] == v;
        let r1 = idx1.remove(i1);
        let r2 = idx2.remove(j);
        assert(r1.to_multiset() =~= idx1.to_multiset().remove(v));
        assert(r2.to_multiset() =~= idx2.to_multiset().remove(v));
        lemma_view_of_multiset(s, r1, r2);
        lemma_view_of_remove(s, idx1, i1);
        lemma_view_of_remove(s, idx2, j);
        let a = view_of(s, idx1).to_multiset();
        let b = view_of(s, idx2).to_multiset();
        let x = s[v as int];
        assert(view_of(s, idx1)[i1] == x);
        assert(view_of(s, idx2)[j] == x);
        assert(view_of(s, idx1).remove(i1).to_multiset() =~= a.remove(x));
        assert(view_of(s, idx2).remove(j).to_multiset() =~= b.remove(x));
        assert(a.remove(x) == b.remove(x));
        assert(a.contains(x));
        assert(b.contains(x));
        assert(a =~= a.remove(x).insert(x));
        assert(b =~= b.remove(x).insert(x));
        assert(a == b);
    }
}

/// Sorting presents the same records: the sorted view is a permutation of
/// the source (the multiset of records is unchanged).
pub proof fn lemma_sorted_permutation(c: SortCriteria, s: Seq<Server>)
    requires
        s.len() <= usize::MAX,
    ensures
        sorted_records(c, s).len() == s.len(),
        sorted_records(c, s).to_multiset() == s.to_multiset(),
{
    lemma_perm_of_ensures(c, s);
    lemma_view_of_identity(s);
    lemma_view_of_multiset(s, perm_of(c, s), identity_positions(s.len()));
}

/// The sorted view is ordered: no later record compares below an earlier one.
pub proof fn lemma_sorted_records_sorted(c: SortCriteria, s: Seq<Server>)
    ensures
        sorted_records(c, s).len() == s.len(),
        forall|i: int, j: int|
            0 <= i < j < s.len() ==> spec_cmp(c, #[trigger] sorted_records(c, s)[i], #[trigger] sorted_records(c, s)[j]) <= 0,
{
    lemma_perm_of_ensures(c, s);
    let p = perm_of(c, s);
    let t = sorted_records(c, s);
    assert forall|i: int, j: int| 0 <= i < j < s.len() implies spec_cmp(c, #[trigger] t[i], #[trigger] t[j])
        <= 0 by {
        assert(pos_order(c, s)(p[i], p[j]));
        assert(pos_le(c, s, p[i], p[j]));
        assert(t[i] == s[p[i] as int]);
        assert(t[j] == s[p[j] as int]);
    }
}

/// Sorting is idempotent: sorting an already sorted view leaves it unchanged.
pub proof fn lemma_sorted_idempotent(c: SortCriteria, s: Seq<Server>)
    requires
        s.len() <= usize::MAX,
    ensures
        sorted_records(c, sorted_records(c, s)) == sorted_records(c, s),
{
    broadcast use vstd::seq_lib::group_to_multiset_ensures;

    let t = sorted_records(c, s);
    lemma_perm_of_ensures(c, s);
    lemma_sorted_records_sorted(c, s);
    lemma_pos_order_total(c, t);
    lemma_perm_of_ensures(c, t);
    let idn = identity_positions(t.len());
    assert(sorted_by(idn, pos_order(c, t))) by {
        assert forall|i: int, j: int| 0 <= i < j < idn.len() implies pos_order(c, t)(
            idn[i],
            idn[j],
        ) by {
            assert(idn[i] == i as usize);
            assert(idn[j] == j as usize);
            assert(spec_cmp(c, t[i], t[j]) <= 0);
        }
    }
    lemma_sorted_unique(perm_of(c, t), idn, pos_order(c, t));
    lemma_view_of_identity(t);
}

/// Reversing the direction yields the exact reverse sequence, tie-break
/// included, provided no two records carry the same id (the id is a stable,
/// source-assigned join key, so a well-formed list never repeats it).
pub proof fn lemma_sorted_reversed(c: SortCriteria, s: Seq<Server>)
    requires
        s.len() <= usize::MAX,
        forall|i: int, j: int| 0 <= i < j < s.len() ==> s[i].id != s[j].id,
    ensures
        sorted_records((SortCriteria { key: c.key, ascending: !c.ascending }), s)
            == sorted_records(c, s).reverse(),
{
    broadcast use vstd::seq_lib::group_to_multiset_ensures;

    let rev = SortCriteria { key: c.key, ascending: !c.ascending };
    let p = perm_of(c, s);
    let n = s.len() as int;
    lemma_perm_of_ensures(c, s);
    lemma_pos_order_total(c, s);
    lemma_pos_order_total(rev, s);
    lemma_perm_of_ensures(rev, s);
    // entries of p are pairwise distinct positions
    assert(identity_positions(s.len()).no_duplicates()) by {
        assert forall|i: int, j: int|
            0 <= i < identity_positions(s.len()).len() && 0 <= j < identity_positions(
                s.len(),
            ).len() && i != j implies identity_positions(s.len())[i] != identity_positions(
            s.len(),
        )[j] by {
            assert(identity_positions(s.len())[i] == i as usize);
            assert(identity_positions(s.len())[j] == j as usize);
        }
    }
    identity_positions(s.len()).lemma_multiset_has_no_duplicates();
    p.lemma_multiset_has_no_duplicates_conv();
    let q = p.reverse();
    assert(q.len() == n);
    assert(sorted_by(q, pos_order(rev, s))) by {
        assert forall|i: int, j: int| 0 <= i < j < q.len() implies pos_order(rev, s)(
            q[i],
            q[j],
        ) by {
            assert(q[i] == p[n - 1 - i]);
            assert(q[j] == p[n - 1 - j]);
            let pi = p[n - 1 - i];
            let pj = p[n - 1 - j];
            assert(pos_order(c, s)(pj, pi));
            assert(pos_le(c, s, pj, pi));
            assert(pi != pj);
            lemma_perm_in_range(c, s, n - 1 - i);
            lemma_perm_in_range(c, s, n - 1 - j);
            lemma_cmp_antisym(c, s[pj as int], s[pi as int]);
            if spec_cmp(c, s[pj as int], s[pi as int]) == 0 {
                // a full tie is impossible: distinct positions carry distinct ids
                assert(base_cmp(c.key, s[pj as int], s[pi as int]) == 0);
                assert(s[pj as int].id == s[pi as int].id);
                assert(false);
            }
            assert(spec_cmp(c, s[pi as int], s[pj as int]) > 0);
            assert(spec_cmp(rev, s[pi as int], s[pj as int]) == -spec_cmp(c, s[pi as int], s[pj as int]));
            assert(pos_le(rev, s, pi, pj));
        }
    }
    p.lemma_reverse_to_multiset();
    lemma_sorted_unique(q, perm_of(rev, s), pos_order(rev, s));
    assert(sorted_records(rev, s) =~= sorted_records(c, s).reverse()) by {
        assert(perm_of(rev, s) == q);
        assert forall|i: int| 0 <= i < n implies sorted_records(rev, s)[i] == sorted_records(
            c,
            s,
        ).reverse()[i] by {
            assert(sorted_records(rev, s)[i] == s[q[i] as int]);
            assert(q[i] == p[n - 1 - i]);
            assert(sorted_records(c, s).reverse()[i] == sorted_records(c, s)[n - 1 - i]);
            assert(sorted_records(c, s)[n - 1 - i] == s[p[n - 1 - i] as int]);
        }
    }
}

proof fn lemma_perm_in_range(c: SortCriteria, s: Seq<Server>, k: int)
    requires
        0 <= k < perm_of(c, s).len(),
    ensures
        (perm_of(c, s)[k] as int) < s.len(),
{
    lemma_perm_of_ensures(c, s);
}

/// Tie-break determinism: under an ascending name sort, two records with the
/// same name always appear in ascending id order, wherever they started.
pub proof fn lemma_tie_break_by_id(c: SortCriteria, s: Seq<Server>, i: int, j: int)
    requires
        c.key == SortKey::Name,
        c.ascending,
        0 <= i < j < s.len(),
        sorted_records(c, s)[i].name@ == sorted_records(c, s)[j].name@,
    ensures
        sorted_records(c, s)[i].id <= sorted_records(c, s)[j].id,
{
    lemma_sorted_records_sorted(c, s);
    let t = sorted_records(c, s);
    assert(spec_cmp(c, t[i], t[j]) <= 0);
    lemma_chars_cmp_refl(t[i].name@);
}

/// The filtered view keeps exactly the records the filter admits: it is never
/// longer than the source, every record in it is admitted, and every admitted
/// record of the source is in it.
pub proof fn lemma_filtered_properties(f: Filter, s: Seq<Server>, filtered: Seq<Server>)
    requires
        filtered == s.filter(|r: Server| spec_matches(f, r)),
    ensures
        filtered.len() <= s.len(),
        forall|i: int| 0 <= i < filtered.len() ==> spec_matches(f, #[trigger] filtered[i]),
        forall|i: int|
            0 <= i < s.len() && spec_matches(f, #[trigger] s[i]) ==> filtered.contains(s[i]),
{
    broadcast use vstd::seq_lib::group_filter_ensures;

    let pred = |r: Server| spec_matches(f, r);
    assert(s.filter(pred) == filtered);
}

/// Composition: deriving a filtered view and then sorting it presents exactly
/// the records of a manually filtered-then-sorted reference sequence.
pub proof fn lemma_filtered_sorted_composition(
    c: SortCriteria,
    f: Filter,
    s: Seq<Server>,
    filtered: Seq<Server>,
    composed: Seq<Server>,
)
    requires
        filtered == s.filter(|r: Server| spec_matches(f, r)),
        composed == sorted_records(c, filtered),
    ensures
        composed == sorted_records(c, s.filter(|r: Server| spec_matches(f, r))),
{
}

proof fn lemma_filter_remove_multiset(s: Seq<Server>, j: int, pred: spec_fn(Server) -> bool)
    requires
        0 <= j < s.len(),
    ensures
        s.remove(j).filter(pred).to_multiset() == (if pred(s[j]) {
            s.filter(pred).to_multiset().remove(s[j])
        } else {
            s.filter(pred).to_multiset()
        }),
    decreases s.len(),
{
    broadcast use vstd::seq_lib::group_to_multiset_ensures;
    broadcast use vstd::multiset::group_multiset_axioms;

    reveal(Seq::filter);
    if j == s.len() - 1 {
        assert(s.remove(j) =~= s.drop_last());
        if pred(s[j]) {
            assert(s.filter(pred) == s.drop_last().filter(pred).push(s.last()));
            assert(s.filter(pred).to_multiset() =~= s.drop_last().filter(pred).to_multiset().insert(
                s.last(),
            ));
            assert(s.filter(pred).to_multiset().remove(s[j]) =~= s.drop_last().filter(
                pred,
            ).to_multiset());
        }
    } else {
        lemma_filter_remove_multiset(s.drop_last(), j, pred);
        assert(s.remove(j).drop_last() =~= s.drop_last().remove(j));
        assert(s.remove(j).last() == s.last());
        let a = s.drop_last().filter(pred).to_multiset();
        let b = s.drop_last().remove(j).filter(pred).to_multiset();
        if pred(s[j]) {
            s.drop_last().lemma_filter_contains(pred, j);
            assert(s.drop_last().filter(pred).contains(s[j]));
            assert(a.count(s[j]) >= 1);
        }
        if pred(s.last()) {
            assert(s.filter(pred) == s.drop_last().filter(pred).push(s.last()));
            assert(s.filter(pred).to_multiset() =~= a.insert(s.last()));
            assert(s.remove(j).filter(pred) == s.remove(j).drop_last().filter(pred).push(
                s.last(),
            ));
            assert(s.remove(j).filter(pred).to_multiset() =~= b.insert(s.last()));
            if pred(s[j]) {
                assert(b.insert(s.last()) =~= a.insert(s.last()).remove(s[j]));
            }
        } else {
            assert(s.filter(pred) == s.drop_last().filter(pred));
            assert(s.remove(j).filter(pred) == s.remove(j).drop_last().filter(pred));
        }
    }
}

proof fn lemma_filter_multiset_eq(s1: Seq<Server>, s2: Seq<Server>, pred: spec_fn(Server) -> bool)
    requires
        s1.to_multiset() == s2.to_multiset(),
    ensures
        s1.filter(pred).to_multiset() == s2.filter(pred).to_multiset(),
    decreases s1.len(),
{
    broadcast use vstd::seq_lib::group_to_multiset_ensures;
    broadcast use vstd::multiset::group_multiset_axioms;

    reveal(Seq::filter);
    if s1.len() == 0 {
        assert(s2.to_multiset().len() == 0);
        assert(s2.len() == 0);
    } else {
        let i1 = s1.len() - 1;
        let x = s1[i1];
        assert(s1.contains(x));
        assert(s2.to_multiset().contains(x));
        assert(s2.contains(x));
        let j = choose|j: int| 0 <= j < s2.len() && s2[j] == x;
        let r1 = s1.remove(i1);
        let r2 = s2.remove(j);
        assert(r1.to_multiset() =~= s1.to_multiset().remove(x));
        assert(r2.to_multiset() =~= s2.to_multiset().remove(x));
        lemma_filter_multiset_eq(r1, r2, pred);
        lemma_filter_remove_multiset(s1, i1, pred);
        lemma_filter_remove_multiset(s2, j, pred);
        if pred(x) {
            s1.lemma_filter_contains(pred, i1);
            s2.lemma_filter_contains(pred, j);
            assert(s1.filter(pred).to_multiset().contains(x));
            assert(s2.filter(pred).to_multiset().contains(x));
            assert(s1.filter(pred).to_multiset() =~= s1.filter(pred).to_multiset().remove(
                x,
            ).insert(x));
            assert(s2.filter(pred).to_multiset() =~= s2.filter(pred).to_multiset().remove(
                x,
            ).insert(x));
        }
    }
}

proof fn lemma_filter_sorted(c: SortCriteria, t: Seq<Server>, pred: spec_fn(Server) -> bool)
    requires
        forall|i: int, j: int| 0 <= i < j < t.len() ==> spec_cmp(c, #[trigger] t[i], #[trigger] t[j]) <= 0,
    ensures
        forall|i: int, j: int|
            0 <= i < j < t.filter(pred).len() ==> spec_cmp(
                c,
                #[trigger] t.filter(pred)[i],
                #[trigger] t.filter(pred)[j],
            ) <= 0,
    decreases t.len(),
{
    reveal(Seq::filter);
    if t.len() > 0 {
        let rest = t.drop_last();
        lemma_filter_sorted(c, rest, pred);
        let ft = t.filter(pred);
        if pred(t.last()) {
            assert(ft == rest.filter(pred).push(t.last()));
            assert forall|i: int, j: int| 0 <= i < j < ft.len() implies spec_cmp(
                c,
                #[trigger] ft[i],
                #[trigger] ft[j],
            ) <= 0 by {
                if j == ft.len() - 1 {
                    let y = rest.filter(pred)[i];
                    assert(rest.filter(pred).contains(y));
                    rest.lemma_filter_contains_rev(pred, y);
                    let m = choose|m: int| 0 <= m < rest.len() && rest[m] == y;
                    assert(t[m] == y);
                    if m < t.len() - 1 {
                        assert(spec_cmp(c, t[m], t[t.len() - 1]) <= 0);
                    } else {
                        lemma_cmp_refl(c, y);
                    }
                } else {
                    assert(ft[i] == rest.filter(pred)[i]);
                    assert(ft[j] == rest.filter(pred)[j]);
                }
            }
        } else {
            assert(ft == rest.filter(pred));
        }
    }
}

/// Each record occurs at most as often in the filtered view as in the
/// source.
proof fn lemma_filter_submultiset(s: Seq<Server>, pred: spec_fn(Server) -> bool, x: Server)
    ensures
        s.filter(pred).to_multiset().count(x) <= s.to_multiset().count(x),
    decreases s.len(),
{
    broadcast use vstd::seq_lib::group_to_multiset_ensures;
    broadcast use vstd::multiset::group_multiset_axioms;

    reveal(Seq::filter);
    if s.len() > 0 {
        lemma_filter_submultiset(s.drop_last(), pred, x);
        assert(s =~= s.drop_last().push(s.last()));
        assert(s.to_multiset() =~= s.drop_last().to_multiset().insert(s.last()));
        if pred(s.last()) {
            assert(s.filter(pred) == s.drop_last().filter(pred).push(s.last()));
            assert(s.filter(pred).to_multiset() =~= s.drop_last().filter(pred).to_multiset().insert(
                s.last(),
            ));
        } else {
            assert(s.filter(pred) == s.drop_last().filter(pred));
        }
    }
}

/// A multiset of records fit to be sorted deterministically: no repeated
/// record, and no two records sharing an id.
spec fn unique_ids(ms: Multiset<Server>) -> bool {
    &&& forall|x: Server| #[trigger] ms.count(x) <= 1
    &&& forall|x: Server, y: Server|
        ms.contains(x) && ms.contains(y) && x != y ==> #[trigger] x.id != #[trigger] y.id
}

proof fn lemma_sorted_unique_by_id(c: SortCriteria, s1: Seq<Server>, s2: Seq<Server>)
    requires
        s1.to_multiset() == s2.to_multiset(),
        unique_ids(s1.to_multiset()),
        forall|i: int, j: int| 0 <= i < j < s1.len() ==> spec_cmp(c, #[trigger] s1[i], #[trigger] s1[j]) <= 0,
        forall|i: int, j: int| 0 <= i < j < s2.len() ==> spec_cmp(c, #[trigger] s2[i], #[trigger] s2[j]) <= 0,
    ensures
        s1 =~= s2,
    decreases s1.len(),
{
    broadcast use vstd::seq_lib::group_to_multiset_ensures;
    broadcast use vstd::multiset::group_multiset_axioms;

    if s1.len() == 0 {
        assert(s2.to_multiset().len() == 0);
    } else {
        assert(s1.len() == s1.to_multiset().len());
        assert(s2.len() == s2.to_multiset().len());
        assert(s2.len() > 0);
        let x1 = s1[0];
        let x2 = s2[0];
        assert(s1.contains(x2)) by {
            assert(s2.contains(x2));
            assert(s1.to_multiset().contains(x2));
        }
        assert(s2.contains(x1)) by {
            assert(s1.contains(x1));
            assert(s2.to_multiset().contains(x1));
        }
        let m = choose|m: int| 0 <= m < s1.len() && s1[m] == x2;
        let k = choose|k: int| 0 <= k < s2.len() && s2[k] == x1;
        assert(spec_cmp(c, x1, x2) <= 0) by {
            if m > 0 {
                assert(spec_cmp(c, s1[0], s1[m]) <= 0);
            } else {
                lemma_cmp_refl(c, x1);
            }
        }
        assert(spec_cmp(c, x2, x1) <= 0) by {
            if k > 0 {
                assert(spec_cmp(c, s2[0], s2[k]) <= 0);
            } else {
                lemma_cmp_refl(c, x2);
            }
        }
        lemma_cmp_antisym(c, x1, x2);
        assert(spec_cmp(c, x1, x2) == 0);
        assert(x1.id == x2.id);
        assert(x1 == x2) by {
            if x1 != x2 {
                assert(s1.to_multiset().contains(x1));
                assert(s1.to_multiset().contains(x2));
            }
        }
        let r1 = s1.remove(0);
        let r2 = s2.remove(0);
        assert(r1.to_multiset() =~= s1.to_multiset().remove(x1));
        assert(r2.to_multiset() =~= s2.to_multiset().remove(x2));
        assert(unique_ids(r1.to_multiset())) by {
            assert forall|x: Server| #[trigger] r1.to_multiset().count(x) <= 1 by {
                assert(r1.to_multiset().count(x) <= s1.to_multiset().count(x));
            }
            assert forall|x: Server, y: Server|
                r1.to_multiset().contains(x) && r1.to_multiset().contains(y) && x != y implies
                #[trigger] x.id != #[trigger] y.id by {
                assert(s1.to_multiset().contains(x));
                assert(s1.to_multiset().contains(y));
            }
        }
        assert forall|i: int, j: int| 0 <= i < j < r1.len() implies spec_cmp(
            c,
            #[trigger] r1[i],
            #[trigger] r1[j],
        ) <= 0 by {
            assert(r1[i] == s1[i + 1]);
            assert(r1[j] == s1[j + 1]);
        }
        assert forall|i: int, j: int| 0 <= i < j < r2.len() implies spec_cmp(
            c,
            #[trigger] r2[i],
            #[trigger] r2[j],
        ) <= 0 by {
            assert(r2[i] == s2[i + 1]);
            assert(r2[j] == s2[j + 1]);
        }
        lemma_sorted_unique_by_id(c, r1, r2);
        assert forall|i: int| 0 <= i < s1.len() implies s1[i] == s2[i] by {
            if i > 0 {
                assert(r1[i - 1] == s1[i]);
                assert(r2[i - 1] == s2[i]);
            }
        }
    }
}

/// Filtering commutes with sorting: filtering a sorted view presents exactly
/// the records of sorting a filtered view. Stated for lists whose records
/// carry pairwise distinct ids (the id is a stable, source-assigned join
/// key, so a well-formed list never repeats it).
pub proof fn lemma_filter_sort_commute(c: SortCriteria, f: Filter, s: Seq<Server>)
    requires
        s.len() <= usize::MAX,
        forall|i: int, j: int| 0 <= i < j < s.len() ==> (#[trigger] s[i]).id != (#[trigger] s[j]).id,
    ensures
        sorted_records(c, s).filter(|r: Server| spec_matches(f, r)) == sorted_records(
            c,
            s.filter(|r: Server| spec_matches(f, r)),
        ),
{
    broadcast use vstd::seq_lib::group_to_multiset_ensures;
    broadcast use vstd::multiset::group_multiset_axioms;
    broadcast use vstd::prelude::Seq::lemma_filter_len;

    let pred = |r: Server| spec_matches(f, r);
    let t = sorted_records(c, s);
    let lhs = t.filter(pred);
    let fs = s.filter(pred);
    let rhs = sorted_records(c, fs);
    lemma_sorted_permutation(c, s);
    lemma_filter_multiset_eq(t, s, pred);
    assert(fs.len() <= s.len());
    lemma_sorted_permutation(c, fs);
    assert(lhs.to_multiset() == rhs.to_multiset());
    lemma_sorted_records_sorted(c, s);
    assert forall|i: int, j: int| 0 <= i < j < t.len() implies spec_cmp(
        c,
        #[trigger] t[i],
        #[trigger] t[j],
    ) <= 0 by {}
    lemma_filter_sorted(c, t, pred);
    lemma_sorted_records_sorted(c, fs);
    // ids are unique in what both sides present
    assert(unique_ids(lhs.to_multiset())) by {
        assert(s.no_duplicates()) by {
            assert forall|i: int, j: int|
                0 <= i < s.len() && 0 <= j < s.len() && i != j implies s[i] != s[j] by {
                if i < j {
                    assert(s[i].id != s[j].id);
                } else {
                    assert(s[j].id != s[i].id);
                }
            }
        }
        s.lemma_multiset_has_no_duplicates();
        assert forall|x: Server| #[trigger] lhs.to_multiset().count(x) <= 1 by {
            lemma_filter_submultiset(s, pred, x);
            assert(lhs.to_multiset().count(x) == fs.to_multiset().count(x));
            if s.to_multiset().contains(x) {
                assert(s.to_multiset().count(x) == 1);
            } else {
                assert(s.to_multiset().count(x) == 0);
            }
        }
        assert forall|x: Server, y: Server|
            lhs.to_multiset().contains(x) && lhs.to_multiset().contains(y) && x != y implies
            #[trigger] x.id != #[trigger] y.id by {
            assert(fs.contains(x));
            assert(fs.contains(y));
            s.lemma_filter_contains_rev(pred, x);
            s.lemma_filter_contains_rev(pred, y);
            let i = choose|i: int| 0 <= i < s.len() && s[i] == x;
            let j = choose|j: int| 0 <= j < s.len() && s[j] == y;
            if i < j {
                assert(s[i].id != s[j].id);
            } else {
                assert(s[j].id != s[i].id);
            }
        }
    }
    lemma_sorted_unique_by_id(c, lhs, rhs);
    assert(lhs == rhs);
}

} // verus!

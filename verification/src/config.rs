//! Configuration values handed in by the surrounding application: the server
//! browser's default filter and sort preferences, and the BattlEye launch
//! policy. The core accepts them as plain data — decoded key/value entries —
//! and defines exactly how each value is parsed and serialized; where a file
//! comes from and how it is stored is the caller's business.

use vstd::prelude::*;
use vstd::string::{StrSliceExecFns, StringExecFns};

use crate::ops::{fold_char, fold_char_exec, SortCriteria, SortKey, TypeFilter};
use crate::model::{Mode, Region};

verus! {

broadcast use vstd::string::group_string_axioms;

/// Character-wise equality of two strings.
pub fn str_eq(a: &str, b: &str) -> (r: bool)
    ensures
        r == (a@ == b@),
{
    let n1 = a.unicode_len();
    let n2 = b.unicode_len();
    if n1 != n2 {
        return false;
    }
    let mut i: usize = 0;
    while i < n1
        invariant
            i <= n1,
            n1 == a@.len(),
            n2 == b@.len(),
            n1 == n2,
            forall|k: int| 0 <= k < i ==> a@[k] == b@[k],
        decreases n1 - i,
    {
        if a.get_char(i) != b.get_char(i) {
            return false;
        }
        i += 1;
    }
    proof {
        assert(a@ =~= b@);
    }
    true
}

/// The ASCII-case-folded code points of a character sequence.
pub open spec fn folded(s: Seq<char>) -> Seq<u32> {
    s.map(|_i: int, c: char| fold_char(c))
}

/// Equality of two strings up to ASCII case.
pub fn str_eq_ci(a: &str, b: &str) -> (r: bool)
    ensures
        r == (folded(a@) == folded(b@)),
{
    let n1 = a.unicode_len();
    let n2 = b.unicode_len();
    if n1 != n2 {
        proof {
            assert(folded(a@).len() != folded(b@).len());
        }
        return false;
    }
    let mut i: usize = 0;
    while i < n1
        invariant
            i <= n1,
            n1 == a@.len(),
            n2 == b@.len(),
            n1 == n2,
            forall|k: int| 0 <= k < i ==> fold_char(a@[k]) == fold_char(b@[k]),
        decreases n1 - i,
    {
        if fold_char_exec(a.get_char(i)) != fold_char_exec(b.get_char(i)) {
            proof {
                assert(folded(a@)[i as int] != folded(b@)[i as int]);
            }
            return false;
        }
        i += 1;
    }
    proof {
        assert(folded(a@) =~= folded(b@));
    }
    true
}

/// Whitespace that is stripped around configuration values.
pub open spec fn is_config_space(c: char) -> bool {
    c == ' ' || c == '\t' || c == '\r' || c == '\n'
}

pub open spec fn trim_front(s: Seq<char>) -> Seq<char>
    decreases s.len(),
{
    if s.len() > 0 && is_config_space(s[0]) {
        trim_front(s.drop_first())
    } else {
        s
    }
}

pub open spec fn trim_back(s: Seq<char>) -> Seq<char>
    decreases s.len(),
{
    if s.len() > 0 && is_config_space(s.last()) {
        trim_back(s.drop_last())
    } else {
        s
    }
}

/// A configuration value with surrounding whitespace stripped.
pub open spec fn spec_trimmed(s: Seq<char>) -> Seq<char> {
    trim_back(trim_front(s))
}

proof fn lemma_trim_front_skip(s: Seq<char>, i: int)
    requires
        0 <= i <= s.len(),
        forall|k: int| 0 <= k < i ==> is_config_space(#[trigger] s[k]),
        i == s.len() || !is_config_space(s[i]),
    ensures
        trim_front(s) == s.skip(i),
    decreases i,
{
    if i == 0 {
        assert(s.skip(0) =~= s);
    } else {
        assert(is_config_space(s[0]));
        lemma_trim_front_skip(s.drop_first(), i - 1);
        assert(s.drop_first().skip(i - 1) =~= s.skip(i));
    }
}

proof fn lemma_trim_back_take(s: Seq<char>, j: int)
    requires
        0 <= j <= s.len(),
        forall|k: int| j <= k < s.len() ==> is_config_space(#[trigger] s[k]),
        j == 0 || !is_config_space(s[j - 1]),
    ensures
        trim_back(s) == s.take(j),
    decreases s.len() - j,
{
    if j == s.len() {
        assert(s.take(j) =~= s);
    } else {
        assert(is_config_space(s.last()));
        lemma_trim_back_take(s.drop_last(), j);
        assert(s.drop_last().take(j) =~= s.take(j));
    }
}

fn is_config_space_exec(c: char) -> (r: bool)
    ensures
        r == is_config_space(c),
{
    c == ' ' || c == '\t' || c == '\r' || c == '\n'
}

/// The value with surrounding whitespace stripped.
pub fn trimmed(s: &str) -> (r: &str)
    ensures
        r@ == spec_trimmed(s@),
{
    let n = s.unicode_len();
    let mut i: usize = 0;
    while i < n && is_config_space_exec(s.get_char(i))
        invariant
            i <= n,
            n == s@.len(),
            forall|k: int| 0 <= k < i ==> is_config_space(#[trigger] s@[k]),
        decreases n - i,
    {
        i += 1;
    }
    let mut j: usize = n;
    while j > i && is_config_space_exec(s.get_char(j - 1))
        invariant
            i <= j <= n,
            n == s@.len(),
            forall|k: int| 0 <= k < i ==> is_config_space(#[trigger] s@[k]),
            i == n || !is_config_space(s@[i as int]),
            forall|k: int| j <= k < n ==> is_config_space(#[trigger] s@[k]),
        decreases j,
    {
        j -= 1;
    }
    let r = s.substring_char(i, j);
    proof {
        lemma_trim_front_skip(s@, i as int);
        assert forall|k: int| (j - i) <= k < s@.skip(i as int).len() implies is_config_space(
            #[trigger] s@.skip(i as int)[k],
        ) by {
            assert(s@.skip(i as int)[k] == s@[i + k]);
        }
        if j > i {
            assert(!is_config_space(s@.skip(i as int)[j - i - 1])) by {
                assert(s@.skip(i as int)[j - i - 1] == s@[j - 1]);
            }
        }
        lemma_trim_back_take(s@.skip(i as int), j - i);
        assert(s@.skip(i as int).take(j - i) =~= s@.subrange(i as int, j as int));
    }
    r
}

/// The serialized forms of the sort key.
pub open spec fn spec_sort_key_name(k: SortKey) -> Seq<char> {
    match k {
        SortKey::Name => "Name"@,
        SortKey::MapName => "Map"@,
        SortKey::Mode => "Mode"@,
        SortKey::Region => "Region"@,
    }
}

pub open spec fn spec_sort_key_from(s: Seq<char>) -> Option<SortKey> {
    if s == "Name"@ {
        Some(SortKey::Name)
    } else if s == "Map"@ {
        Some(SortKey::MapName)
    } else if s == "Mode"@ {
        Some(SortKey::Mode)
    } else if s == "Region"@ {
        Some(SortKey::Region)
    } else {
        None
    }
}

pub fn sort_key_name(k: SortKey) -> (r: &'static str)
    ensures
        r@ == spec_sort_key_name(k),
{
    match k {
        SortKey::Name => "Name",
        SortKey::MapName => "Map",
        SortKey::Mode => "Mode",
        SortKey::Region => "Region",
    }
}

pub fn sort_key_from_name(s: &str) -> (r: Option<SortKey>)
    ensures
        r == spec_sort_key_from(s@),
{
    if str_eq(s, "Name") {
        Some(SortKey::Name)
    } else if str_eq(s, "Map") {
        Some(SortKey::MapName)
    } else if str_eq(s, "Mode") {
        Some(SortKey::Mode)
    } else if str_eq(s, "Region") {
        Some(SortKey::Region)
    } else {
        None
    }
}

/// The serialized form of sort criteria: the key name, prefixed with `-`
/// for a descending sort.
pub open spec fn spec_sort_criteria_string(c: SortCriteria) -> Seq<char> {
    if c.ascending {
        spec_sort_key_name(c.key)
    } else {
        "-"@ + spec_sort_key_name(c.key)
    }
}

pub open spec fn spec_parse_sort_criteria(s: Seq<char>) -> Option<SortCriteria> {
    if s.len() > 0 && s[0] == '-' {
        match spec_sort_key_from(s.drop_first()) {
            Some(k) => Some(SortCriteria { key: k, ascending: false }),
            None => None,
        }
    } else {
        match spec_sort_key_from(s) {
            Some(k) => Some(SortCriteria { key: k, ascending: true }),
            None => None,
        }
    }
}

pub fn sort_criteria_to_string(criteria: &SortCriteria) -> (r: String)
    ensures
        r@ == spec_sort_criteria_string(*criteria),
{
    let name = sort_key_name(criteria.key);
    if criteria.ascending {
        String::from_str(name)
    } else {
        let prefix = String::from_str("-");
        prefix.concat(name)
    }
}

pub fn sort_criteria_from_str(s: &str) -> (r: Option<SortCriteria>)
    ensures
        r == spec_parse_sort_criteria(s@),
{
    let n = s.unicode_len();
    if n > 0 && s.get_char(0) == '-' {
        let rest = s.substring_char(1, n);
        proof {
            assert(rest@ =~= s@.drop_first());
        }
        match sort_key_from_name(rest) {
            Some(k) => Some(SortCriteria { key: k, ascending: false }),
            None => None,
        }
    } else {
        match sort_key_from_name(s) {
            Some(k) => Some(SortCriteria { key: k, ascending: true }),
            None => None,
        }
    }
}

/// Serializing sort criteria and parsing the result gives the criteria back.
pub proof fn lemma_sort_criteria_round_trip(c: SortCriteria)
    ensures
        spec_parse_sort_criteria(spec_sort_criteria_string(c)) == Some(c),
{
    reveal_strlit("Name");
    reveal_strlit("Map");
    reveal_strlit("Mode");
    reveal_strlit("Region");
    reveal_strlit("-");
    assert("Name"@.len() == 4);
    assert("Map"@.len() == 3);
    assert("Mode"@.len() == 4);
    assert("Region"@.len() == 6);
    assert("Name"@[0] == 'N');
    assert("Mode"@[0] == 'M');
    let s = spec_sort_criteria_string(c);
    if c.ascending {
        assert(s[0] != '-');
    } else {
        assert(s[0] == '-');
        assert(s.drop_first() =~= spec_sort_key_name(c.key));
    }
}

/// The serialized forms of boolean values.
pub open spec fn spec_bool_string(b: bool) -> Seq<char> {
    if b {
        "true"@
    } else {
        "false"@
    }
}

/// Boolean parsing, case-insensitively.
pub open spec fn spec_parse_bool(s: Seq<char>) -> Option<bool> {
    if folded(s) == folded("true"@) {
        Some(true)
    } else if folded(s) == folded("false"@) {
        Some(false)
    } else {
        None
    }
}

pub fn bool_string(b: bool) -> (r: &'static str)
    ensures
        r@ == spec_bool_string(b),
{
    if b {
        "true"
    } else {
        "false"
    }
}

pub fn parse_bool(s: &str) -> (r: Option<bool>)
    ensures
        r == spec_parse_bool(s@),
{
    if str_eq_ci(s, "true") {
        Some(true)
    } else if str_eq_ci(s, "false") {
        Some(false)
    } else {
        None
    }
}

pub proof fn lemma_bool_round_trip(b: bool)
    ensures
        spec_parse_bool(spec_bool_string(b)) == Some(b),
{
    reveal_strlit("true");
    reveal_strlit("false");
    assert(folded("true"@).len() != folded("false"@).len());
}

/// Whether BattlEye is enabled when the game is launched: decided per launch
/// (`Auto`) or pinned on or off.
#[derive(Clone, Copy, Debug, PartialEq, Eq, Structural)]
pub enum BattlEyeUsage {
    Auto,
    Always(bool),
}

impl Default for BattlEyeUsage {
    fn default() -> (r: Self)
        ensures
            r == BattlEyeUsage::Always(true),
    {
        BattlEyeUsage::Always(true)
    }
}

/// The serialized forms of the BattlEye policy.
pub open spec fn spec_battleye_string(u: BattlEyeUsage) -> Seq<char> {
    match u {
        BattlEyeUsage::Auto => "auto"@,
        BattlEyeUsage::Always(true) => "always"@,
        BattlEyeUsage::Always(false) => "never"@,
    }
}

/// BattlEye policy parsing: whitespace around the value is ignored, as is
/// ASCII case.
pub open spec fn spec_parse_battleye(s: Seq<char>) -> Option<BattlEyeUsage> {
    let t = folded(spec_trimmed(s));
    if t == folded("auto"@) {
        Some(BattlEyeUsage::Auto)
    } else if t == folded("always"@) {
        Some(BattlEyeUsage::Always(true))
    } else if t == folded("never"@) {
        Some(BattlEyeUsage::Always(false))
    } else {
        None
    }
}

pub fn battleye_string(u: &BattlEyeUsage) -> (r: &'static str)
    ensures
        r@ == spec_battleye_string(*u),
{
    match u {
        BattlEyeUsage::Auto => "auto",
        BattlEyeUsage::Always(true) => "always",
        BattlEyeUsage::Always(false) => "never",
    }
}

pub fn parse_battleye(s: &str) -> (r: Option<BattlEyeUsage>)
    ensures
        r == spec_parse_battleye(s@),
{
    let t = trimmed(s);
    if str_eq_ci(t, "auto") {
        Some(BattlEyeUsage::Auto)
    } else if str_eq_ci(t, "always") {
        Some(BattlEyeUsage::Always(true))
    } else if str_eq_ci(t, "never") {
        Some(BattlEyeUsage::Always(false))
    } else {
        None
    }
}

pub proof fn lemma_battleye_round_trip(u: BattlEyeUsage)
    ensures
        spec_parse_battleye(spec_battleye_string(u)) == Some(u),
{
    reveal_strlit("auto");
    reveal_strlit("always");
    reveal_strlit("never");
    let s = spec_battleye_string(u);
    assert(spec_trimmed(s) == s) by {
        assert(!is_config_space(s[0]));
        assert(!is_config_space(s.last()));
    }
    assert(folded("auto"@).len() == 4);
    assert(folded("always"@).len() == 6);
    assert(folded("never"@).len() == 5);
}

/// The serialized forms of the type filter.
pub open spec fn spec_type_filter_name(t: TypeFilter) -> Seq<char> {
    match t {
        TypeFilter::All => "All"@,
        TypeFilter::Official => "Official"@,
        TypeFilter::Private => "Private"@,
        TypeFilter::Favorites => "Favorites"@,
    }
}

pub open spec fn spec_type_filter_from(s: Seq<char>) -> Option<TypeFilter> {
    if s == "All"@ {
        Some(TypeFilter::All)
    } else if s == "Official"@ {
        Some(TypeFilter::Official)
    } else if s == "Private"@ {
        Some(TypeFilter::Private)
    } else if s == "Favorites"@ {
        Some(TypeFilter::Favorites)
    } else {
        None
    }
}

pub fn type_filter_name(t: TypeFilter) -> (r: &'static str)
    ensures
        r@ == spec_type_filter_name(t),
{
    match t {
        TypeFilter::All => "All",
        TypeFilter::Official => "Official",
        TypeFilter::Private => "Private",
        TypeFilter::Favorites => "Favorites",
    }
}

pub fn type_filter_from_name(s: &str) -> (r: Option<TypeFilter>)
    ensures
        r == spec_type_filter_from(s@),
{
    if str_eq(s, "All") {
        Some(TypeFilter::All)
    } else if str_eq(s, "Official") {
        Some(TypeFilter::Official)
    } else if str_eq(s, "Private") {
        Some(TypeFilter::Private)
    } else if str_eq(s, "Favorites") {
        Some(TypeFilter::Favorites)
    } else {
        None
    }
}

pub proof fn lemma_type_filter_round_trip(t: TypeFilter)
    ensures
        spec_type_filter_from(spec_type_filter_name(t)) == Some(t),
{
    reveal_strlit("All");
    reveal_strlit("Official");
    reveal_strlit("Private");
    reveal_strlit("Favorites");
    assert("All"@.len() == 3);
    assert("Official"@.len() == 8);
    assert("Private"@.len() == 7);
    assert("Favorites"@.len() == 9);
}

/// The serialized forms of the play mode.
pub open spec fn spec_mode_name(m: Mode) -> Seq<char> {
    match m {
        Mode::Official => "Official"@,
        Mode::PrivateDedicated => "PrivateDedicated"@,
        Mode::PrivateSelfHosted => "PrivateSelfHosted"@,
    }
}

pub open spec fn spec_mode_from(s: Seq<char>) -> Option<Mode> {
    if s == "Official"@ {
        Some(Mode::Official)
    } else if s == "PrivateDedicated"@ {
        Some(Mode::PrivateDedicated)
    } else if s == "PrivateSelfHosted"@ {
        Some(Mode::PrivateSelfHosted)
    } else {
        None
    }
}

pub fn mode_name(m: Mode) -> (r: &'static str)
    ensures
        r@ == spec_mode_name(m),
{
    match m {
        Mode::Official => "Official",
        Mode::PrivateDedicated => "PrivateDedicated",
        Mode::PrivateSelfHosted => "PrivateSelfHosted",
    }
}

pub fn mode_from_name(s: &str) -> (r: Option<Mode>)
    ensures
        r == spec_mode_from(s@),
{
    if str_eq(s, "Official") {
        Some(Mode::Official)
    } else if str_eq(s, "PrivateDedicated") {
        Some(Mode::PrivateDedicated)
    } else if str_eq(s, "PrivateSelfHosted") {
        Some(Mode::PrivateSelfHosted)
    } else {
        None
    }
}

pub proof fn lemma_mode_round_trip(m: Mode)
    ensures
        spec_mode_from(spec_mode_name(m)) == Some(m),
{
    reveal_strlit("Official");
    reveal_strlit("PrivateDedicated");
    reveal_strlit("PrivateSelfHosted");
    assert("Official"@.len() == 8);
    assert("PrivateDedicated"@.len() == 16);
    assert("PrivateSelfHosted"@.len() == 17);
}

/// The serialized forms of the region.
pub open spec fn spec_region_name(r: Region) -> Seq<char> {
    match r {
        Region::Americas => "Americas"@,
        Region::Europe => "Europe"@,
        Region::Asia => "Asia"@,
        Region::Oceania => "Oceania"@,
    }
}

pub open spec fn spec_region_from(s: Seq<char>) -> Option<Region> {
    if s == "Americas"@ {
        Some(Region::Americas)
    } else if s == "Europe"@ {
        Some(Region::Europe)
    } else if s == "Asia"@ {
        Some(Region::Asia)
    } else if s == "Oceania"@ {
        Some(Region::Oceania)
    } else {
        None
    }
}

pub fn region_name(r: Region) -> (out: &'static str)
    ensures
        out@ == spec_region_name(r),
{
    match r {
        Region::Americas => "Americas",
        Region::Europe => "Europe",
        Region::Asia => "Asia",
        Region::Oceania => "Oceania",
    }
}

pub fn region_from_name(s: &str) -> (r: Option<Region>)
    ensures
        r == spec_region_from(s@),
{
    if str_eq(s, "Americas") {
        Some(Region::Americas)
    } else if str_eq(s, "Europe") {
        Some(Region::Europe)
    } else if str_eq(s, "Asia") {
        Some(Region::Asia)
    } else if str_eq(s, "Oceania") {
        Some(Region::Oceania)
    } else {
        None
    }
}

pub proof fn lemma_region_round_trip(r: Region)
    ensures
        spec_region_from(spec_region_name(r)) == Some(r),
{
    reveal_strlit("Americas");
    reveal_strlit("Europe");
    reveal_strlit("Asia");
    reveal_strlit("Oceania");
    assert("Americas"@.len() == 8);
    assert("Europe"@.len() == 6);
    assert("Asia"@.len() == 4);
    assert("Oceania"@.len() == 7);
}

/// One decoded key/value pair of a configuration section.
pub struct ConfigEntry {
    pub key: String,
    pub value: String,
}

/// The value stored under a key: when a key occurs more than once, the last
/// occurrence wins.
pub open spec fn spec_lookup(entries: Seq<ConfigEntry>, key: Seq<char>) -> Option<Seq<char>>
    decreases entries.len(),
{
    if entries.len() == 0 {
        None
    } else if entries.last().key@ == key {
        Some(entries.last().value@)
    } else {
        spec_lookup(entries.drop_last(), key)
    }
}

/// Looks a key up among decoded entries.
pub fn lookup<'e>(entries: &'e Vec<ConfigEntry>, key: &str) -> (r: Option<&'e String>)
    ensures
        match r {
            Some(v) => spec_lookup(entries@, key@) == Some(v@),
            None => spec_lookup(entries@, key@) is None,
        },
{
    let mut i: usize = entries.len();
    proof {
        assert(entries@.take(i as int) =~= entries@);
    }
    while i > 0
        invariant
            i <= entries@.len(),
            spec_lookup(entries@, key@) == spec_lookup(entries@.take(i as int), key@),
        decreases i,
    {
        let e = &entries[i - 1];
        proof {
            assert(entries@.take(i as int).last() == entries@[i - 1]);
            assert(entries@.take(i as int).drop_last() =~= entries@.take(i - 1));
        }
        if str_eq(e.key.as_str(), key) {
            return Some(&e.value);
        }
        i -= 1;
    }
    proof {
        assert(entries@.take(0) =~= Seq::<ConfigEntry>::empty());
    }
    None
}

/// Server browser preferences, handed in by the surrounding application as
/// already-decoded values.
#[derive(Clone, Copy, Debug, PartialEq, Eq, Structural)]
pub struct ServerBrowserConfig {
    pub type_filter: TypeFilter,
    pub mode: Option<Mode>,
    pub region: Option<Region>,
    pub battleye_required: Option<bool>,
    pub include_invalid: bool,
    pub include_password_protected: bool,
    pub include_modded: bool,
    pub sort_criteria: SortCriteria,
    pub scroll_lock: bool,
}

impl Default for ServerBrowserConfig {
    fn default() -> (r: Self)
        ensures
            r == spec_default_browser_config(),
    {
        ServerBrowserConfig {
            type_filter: TypeFilter::All,
            mode: None,
            region: None,
            battleye_required: None,
            include_invalid: false,
            include_password_protected: false,
            include_modded: false,
            sort_criteria: SortCriteria { key: SortKey::Name, ascending: true },
            scroll_lock: true,
        }
    }
}

pub open spec fn spec_default_browser_config() -> ServerBrowserConfig {
    ServerBrowserConfig {
        type_filter: TypeFilter::All,
        mode: None,
        region: None,
        battleye_required: None,
        include_invalid: false,
        include_password_protected: false,
        include_modded: false,
        sort_criteria: SortCriteria { key: SortKey::Name, ascending: true },
        scroll_lock: true,
    }
}

/// The browser preferences that a section's entries decode to: absent or
/// unparseable values fall back to their defaults, an absent or unparseable
/// optional stays absent.
pub open spec fn spec_browser_config(entries: Seq<ConfigEntry>) -> ServerBrowserConfig {
    ServerBrowserConfig {
        type_filter: match spec_lookup(entries, "Type"@) {
            Some(v) => match spec_type_filter_from(v) {
                Some(t) => t,
                None => TypeFilter::All,
            },
            None => TypeFilter::All,
        },
        mode: match spec_lookup(entries, "Mode"@) {
            Some(v) => spec_mode_from(v),
            None => None,
        },
        region: match spec_lookup(entries, "Region"@) {
            Some(v) => spec_region_from(v),
            None => None,
        },
        battleye_required: match spec_lookup(entries, "BattlEyeRequired"@) {
            Some(v) => spec_parse_bool(v),
            None => None,
        },
        include_invalid: match spec_lookup(entries, "IncludeInvalid"@) {
            Some(v) => match spec_parse_bool(v) {
                Some(b) => b,
                None => false,
            },
            None => false,
        },
        include_password_protected: match spec_lookup(entries, "IncludePasswordProtected"@) {
            Some(v) => match spec_parse_bool(v) {
                Some(b) => b,
                None => false,
            },
            None => false,
        },
        include_modded: match spec_lookup(entries, "IncludeModded"@) {
            Some(v) => match spec_parse_bool(v) {
                Some(b) => b,
                None => false,
            },
            None => false,
        },
        sort_criteria: match spec_lookup(entries, "SortBy"@) {
            Some(v) => match spec_parse_sort_criteria(v) {
                Some(c) => c,
                None => SortCriteria { key: SortKey::Name, ascending: true },
            },
            None => SortCriteria { key: SortKey::Name, ascending: true },
        },
        scroll_lock: match spec_lookup(entries, "ScrollLock"@) {
            Some(v) => match spec_parse_bool(v) {
                Some(b) => b,
                None => true,
            },
            None => true,
        },
    }
}

impl ServerBrowserConfig {
    /// Decodes the browser preferences from a section's entries.
    pub fn from_entries(entries: &Vec<ConfigEntry>) -> (r: ServerBrowserConfig)
        ensures
            r == spec_browser_config(entries@),
    {
        let type_filter = match lookup(entries, "Type") {
            Some(v) => match type_filter_from_name(v.as_str()) {
                Some(t) => t,
                None => TypeFilter::All,
            },
            None => TypeFilter::All,
        };
        let mode = match lookup(entries, "Mode") {
            Some(v) => mode_from_name(v.as_str()),
            None => None,
        };
        let region = match lookup(entries, "Region") {
            Some(v) => region_from_name(v.as_str()),
            None => None,
        };
        let battleye_required = match lookup(entries, "BattlEyeRequired") {
            Some(v) => parse_bool(v.as_str()),
            None => None,
        };
        let include_invalid = match lookup(entries, "IncludeInvalid") {
            Some(v) => match parse_bool(v.as_str()) {
                Some(b) => b,
                None => false,
            },
            None => false,
        };
        let include_password_protected = match lookup(entries, "IncludePasswordProtected") {
            Some(v) => match parse_bool(v.as_str()) {
                Some(b) => b,
                None => false,
            },
            None => false,
        };
        let include_modded = match lookup(entries, "IncludeModded") {
            Some(v) => match parse_bool(v.as_str()) {
                Some(b) => b,
                None => false,
            },
            None => false,
        };
        let sort_criteria = match lookup(entries, "SortBy") {
            Some(v) => match sort_criteria_from_str(v.as_str()) {
                Some(c) => c,
                None => SortCriteria { key: SortKey::Name, ascending: true },
            },
            None => SortCriteria { key: SortKey::Name, ascending: true },
        };
        let scroll_lock = match lookup(entries, "ScrollLock") {
            Some(v) => match parse_bool(v.as_str()) {
                Some(b) => b,
                None => true,
            },
            None => true,
        };
        ServerBrowserConfig {
            type_filter,
            mode,
            region,
            battleye_required,
            include_invalid,
            include_password_protected,
            include_modded,
            sort_criteria,
            scroll_lock,
        }
    }

    /// Serializes the browser preferences into a section's entries, so that
    /// decoding them gives the same preferences back: entries round-trip.
    pub fn to_entries(&self) -> (out: Vec<ConfigEntry>)
        ensures
            spec_browser_config(out@) == *self,
    {
        let mut out: Vec<ConfigEntry> = Vec::new();
        if let Some(m) = self.mode {
            out.push(
                ConfigEntry {
                    key: String::from_str("Mode"),
                    value: String::from_str(mode_name(m)),
                },
            );
        }
        if let Some(rg) = self.region {
            out.push(
                ConfigEntry {
                    key: String::from_str("Region"),
                    value: String::from_str(region_name(rg)),
                },
            );
        }
        if let Some(b) = self.battleye_required {
            out.push(
                ConfigEntry {
                    key: String::from_str("BattlEyeRequired"),
                    value: String::from_str(bool_string(b)),
                },
            );
        }
        let ghost opt = out@;
        out.push(
            ConfigEntry {
                key: String::from_str("Type"),
                value: String::from_str(type_filter_name(self.type_filter)),
            },
        );
        out.push(
            ConfigEntry {
                key: String::from_str("IncludeInvalid"),
                value: String::from_str(bool_string(self.include_invalid)),
            },
        );
        out.push(
            ConfigEntry {
                key: String::from_str("IncludePasswordProtected"),
                value: String::from_str(bool_string(self.include_password_protected)),
            },
        );
        out.push(
            ConfigEntry {
                key: String::from_str("IncludeModded"),
                value: String::from_str(bool_string(self.include_modded)),
            },
        );
        out.push(
            ConfigEntry {
                key: String::from_str("SortBy"),
                value: sort_criteria_to_string(&self.sort_criteria),
            },
        );
        out.push(
            ConfigEntry {
                key: String::from_str("ScrollLock"),
                value: String::from_str(bool_string(self.scroll_lock)),
            },
        );
        proof {
            lemma_keys_distinct();
            assert(out@.subrange(0, opt.len() as int) =~= opt);
            let ri: int = if self.mode is Some {
                1int
            } else {
                0int
            };
            let bi: int = ri + (if self.region is Some {
                1int
            } else {
                0int
            });
            if let Some(m) = self.mode {
                assert(opt[0].key@ == "Mode"@ && opt[0].value@ == spec_mode_name(m));
            }
            if let Some(rg) = self.region {
                assert(opt[ri].key@ == "Region"@ && opt[ri].value@ == spec_region_name(rg));
            }
            if let Some(b) = self.battleye_required {
                assert(opt[bi].key@ == "BattlEyeRequired"@ && opt[bi].value@ == spec_bool_string(
                    b,
                ));
            }
            lemma_browser_entries_round_trip(*self, opt, out@);
        }
        out
    }
}

/// The keys this module writes are pairwise distinct.
proof fn lemma_keys_distinct()
    ensures
        "Type"@ != "Mode"@,
        "Type"@ != "Region"@,
        "Type"@ != "BattlEyeRequired"@,
        "Type"@ != "IncludeInvalid"@,
        "Type"@ != "IncludePasswordProtected"@,
        "Type"@ != "IncludeModded"@,
        "Type"@ != "SortBy"@,
        "Type"@ != "ScrollLock"@,
        "Mode"@ != "Region"@,
        "Mode"@ != "BattlEyeRequired"@,
        "Mode"@ != "IncludeInvalid"@,
        "Mode"@ != "IncludePasswordProtected"@,
        "Mode"@ != "IncludeModded"@,
        "Mode"@ != "SortBy"@,
        "Mode"@ != "ScrollLock"@,
        "Region"@ != "BattlEyeRequired"@,
        "Region"@ != "IncludeInvalid"@,
        "Region"@ != "IncludePasswordProtected"@,
        "Region"@ != "IncludeModded"@,
        "Region"@ != "SortBy"@,
        "Region"@ != "ScrollLock"@,
        "BattlEyeRequired"@ != "IncludeInvalid"@,
        "BattlEyeRequired"@ != "IncludePasswordProtected"@,
        "BattlEyeRequired"@ != "IncludeModded"@,
        "BattlEyeRequired"@ != "SortBy"@,
        "BattlEyeRequired"@ != "ScrollLock"@,
        "IncludeInvalid"@ != "IncludePasswordProtected"@,
        "IncludeInvalid"@ != "IncludeModded"@,
        "IncludeInvalid"@ != "SortBy"@,
        "IncludeInvalid"@ != "ScrollLock"@,
        "IncludePasswordProtected"@ != "IncludeModded"@,
        "IncludePasswordProtected"@ != "SortBy"@,
        "IncludePasswordProtected"@ != "ScrollLock"@,
        "IncludeModded"@ != "SortBy"@,
        "IncludeModded"@ != "ScrollLock"@,
        "SortBy"@ != "ScrollLock"@,
{
    reveal_strlit("Type");
    reveal_strlit("Mode");
    reveal_strlit("Region");
    reveal_strlit("BattlEyeRequired");
    reveal_strlit("IncludeInvalid");
    reveal_strlit("IncludePasswordProtected");
    reveal_strlit("IncludeModded");
    reveal_strlit("SortBy");
    reveal_strlit("ScrollLock");
    assert("Type"@.len() == 4);
    assert("Mode"@.len() == 4);
    assert("Region"@.len() == 6);
    assert("BattlEyeRequired"@.len() == 16);
    assert("IncludeInvalid"@.len() == 14);
    assert("IncludePasswordProtected"@.len() == 24);
    assert("IncludeModded"@.len() == 13);
    assert("SortBy"@.len() == 6);
    assert("ScrollLock"@.len() == 10);
    assert("Type"@[0] == 'T' && "Mode"@[0] == 'M');
    assert("Region"@[0] == 'R' && "SortBy"@[0] == 'S');
}

proof fn lemma_browser_entries_round_trip(
    c: ServerBrowserConfig,
    opt: Seq<ConfigEntry>,
    es: Seq<ConfigEntry>,
)
    requires
        es.len() == opt.len() + 6,
        es.subrange(0, opt.len() as int) == opt,
        opt.len() == (if c.mode is Some { 1int } else { 0int }) + (if c.region is Some {
            1int
        } else {
            0int
        }) + (if c.battleye_required is Some {
            1int
        } else {
            0int
        }),
        c.mode matches Some(m) ==> exists|i: int|
            0 <= i < opt.len() && (#[trigger] opt[i]).key@ == "Mode"@ && opt[i].value@
                == spec_mode_name(m),
        c.region matches Some(rg) ==> exists|i: int|
            0 <= i < opt.len() && (#[trigger] opt[i]).key@ == "Region"@ && opt[i].value@
                == spec_region_name(rg),
        c.battleye_required matches Some(b) ==> exists|i: int|
            0 <= i < opt.len() && (#[trigger] opt[i]).key@ == "BattlEyeRequired"@ && opt[i].value@
                == spec_bool_string(b),
        forall|i: int|
            0 <= i < opt.len() ==> (#[trigger] opt[i]).key@ == "Mode"@ || opt[i].key@ == "Region"@
                || opt[i].key@ == "BattlEyeRequired"@,
        c.mode is None ==> forall|i: int| 0 <= i < opt.len() ==> (#[trigger] opt[i]).key@ != "Mode"@,
        c.region is None ==> forall|i: int|
            0 <= i < opt.len() ==> (#[trigger] opt[i]).key@ != "Region"@,
        c.battleye_required is None ==> forall|i: int|
            0 <= i < opt.len() ==> (#[trigger] opt[i]).key@ != "BattlEyeRequired"@,
        es[opt.len() as int].key@ == "Type"@,
        es[opt.len() as int].value@ == spec_type_filter_name(c.type_filter),
        es[opt.len() as int + 1].key@ == "IncludeInvalid"@,
        es[opt.len() as int + 1].value@ == spec_bool_string(c.include_invalid),
        es[opt.len() as int + 2].key@ == "IncludePasswordProtected"@,
        es[opt.len() as int + 2].value@ == spec_bool_string(c.include_password_protected),
        es[opt.len() as int + 3].key@ == "IncludeModded"@,
        es[opt.len() as int + 3].value@ == spec_bool_string(c.include_modded),
        es[opt.len() as int + 4].key@ == "SortBy"@,
        es[opt.len() as int + 4].value@ == spec_sort_criteria_string(c.sort_criteria),
        es[opt.len() as int + 5].key@ == "ScrollLock"@,
        es[opt.len() as int + 5].value@ == spec_bool_string(c.scroll_lock),
    ensures
        spec_browser_config(es) == c,
{
    lemma_keys_distinct();
    let n = opt.len() as int;
    lemma_lookup_at(es, n, "Type"@);
    lemma_lookup_at(es, n + 1, "IncludeInvalid"@);
    lemma_lookup_at(es, n + 2, "IncludePasswordProtected"@);
    lemma_lookup_at(es, n + 3, "IncludeModded"@);
    lemma_lookup_at(es, n + 4, "SortBy"@);
    lemma_lookup_at(es, n + 5, "ScrollLock"@);
    lemma_type_filter_round_trip(c.type_filter);
    lemma_bool_round_trip(c.include_invalid);
    lemma_bool_round_trip(c.include_password_protected);
    lemma_bool_round_trip(c.include_modded);
    lemma_bool_round_trip(c.scroll_lock);
    lemma_sort_criteria_round_trip(c.sort_criteria);
    match c.mode {
        Some(m) => {
            let i = choose|i: int|
                0 <= i < n && (#[trigger] opt[i]).key@ == "Mode"@ && opt[i].value@
                    == spec_mode_name(m);
            assert(es[i] == opt[i]);
            lemma_lookup_at(es, i, "Mode"@);
            lemma_mode_round_trip(m);
        },
        None => {
            lemma_lookup_absent(es, "Mode"@);
        },
    }
    match c.region {
        Some(rg) => {
            let i = choose|i: int|
                0 <= i < n && (#[trigger] opt[i]).key@ == "Region"@ && opt[i].value@
                    == spec_region_name(rg);
            assert(es[i] == opt[i]);
            lemma_lookup_at(es, i, "Region"@);
            lemma_region_round_trip(rg);
        },
        None => {
            lemma_lookup_absent(es, "Region"@);
        },
    }
    match c.battleye_required {
        Some(b) => {
            let i = choose|i: int|
                0 <= i < n && (#[trigger] opt[i]).key@ == "BattlEyeRequired"@ && opt[i].value@
                    == spec_bool_string(b);
            assert(es[i] == opt[i]);
            lemma_lookup_at(es, i, "BattlEyeRequired"@);
            lemma_bool_round_trip(b);
        },
        None => {
            lemma_lookup_absent(es, "BattlEyeRequired"@);
        },
    }
}

/// When a key occurs exactly once, the lookup finds that occurrence.
proof fn lemma_lookup_at(es: Seq<ConfigEntry>, i: int, key: Seq<char>)
    requires
        0 <= i < es.len(),
        es[i].key@ == key,
        forall|j: int| i < j < es.len() ==> (#[trigger] es[j]).key@ != key,
    ensures
        spec_lookup(es, key) == Some(es[i].value@),
    decreases es.len(),
{
    if i == es.len() - 1 {
    } else {
        assert(es.drop_last()[i] == es[i]);
        assert forall|j: int| i < j < es.drop_last().len() implies (#[trigger] es.drop_last()[j]).key@
            != key by {
            assert(es.drop_last()[j] == es[j]);
        }
        lemma_lookup_at(es.drop_last(), i, key);
    }
}

/// When a key occurs nowhere, the lookup misses.
proof fn lemma_lookup_absent(es: Seq<ConfigEntry>, key: Seq<char>)
    requires
        forall|j: int| 0 <= j < es.len() ==> (#[trigger] es[j]).key@ != key,
    ensures
        spec_lookup(es, key) is None,
    decreases es.len(),
{
    if es.len() > 0 {
        assert forall|j: int| 0 <= j < es.drop_last().len() implies (#[trigger] es.drop_last()[j]).key@
            != key by {
            assert(es.drop_last()[j] == es[j]);
        }
        lemma_lookup_absent(es.drop_last(), key);
    }
}

/// The whole persisted configuration.
#[derive(Clone, Copy, Debug, PartialEq, Eq, Structural)]
pub struct Config {
    pub use_battleye: BattlEyeUsage,
    pub server_browser: ServerBrowserConfig,
}

impl Default for Config {
    fn default() -> (r: Self)
        ensures
            r.use_battleye == BattlEyeUsage::Always(true),
            r.server_browser == spec_default_browser_config(),
    {
        Config {
            use_battleye: BattlEyeUsage::Always(true),
            server_browser: ServerBrowserConfig::default(),
        }
    }
}

/// Where a configuration is loaded from and saved to; the surrounding
/// application implements this over its persistent store.
pub trait ConfigPersister {
    fn load(&self) -> Result<Config, ConfigError>;

    fn save(&self, config: &Config) -> Result<(), ConfigError>;
}

/// Why loading or saving a configuration failed.
#[derive(Clone, Copy, Debug, PartialEq, Eq, Structural)]
pub enum ConfigError {
    Unreadable,
    Unwritable,
}

/// A persister that stores nothing: loading yields the defaults and saving
/// succeeds without effect.
pub struct TransientConfig;

impl ConfigPersister for TransientConfig {
    fn load(&self) -> Result<Config, ConfigError> {
        Ok(Config::default())
    }

    fn save(&self, _config: &Config) -> Result<(), ConfigError> {
        Ok(())
    }
}

} // verus!

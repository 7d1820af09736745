use bugle::config::{
    battleye_string, bool_string, lookup, parse_battleye, parse_bool, sort_criteria_from_str,
    sort_criteria_to_string, trimmed, type_filter_from_name, type_filter_name, BattlEyeUsage,
    Config, ConfigEntry, ConfigPersister, ServerBrowserConfig, TransientConfig,
};
use bugle::model::{Mode, Region};
use bugle::ops::{SortCriteria, SortKey, TypeFilter};

fn entry(key: &str, value: &str) -> ConfigEntry {
    ConfigEntry { key: key.to_string(), value: value.to_string() }
}

#[test]
fn sort_criteria_serialize_with_a_direction_prefix() {
    let asc = SortCriteria { key: SortKey::MapName, ascending: true };
    assert_eq!(sort_criteria_to_string(&asc), "Map");
    let desc = SortCriteria { key: SortKey::Region, ascending: false };
    assert_eq!(sort_criteria_to_string(&desc), "-Region");
}

#[test]
fn sort_criteria_parse_back_exactly() {
    for key in [SortKey::Name, SortKey::MapName, SortKey::Mode, SortKey::Region] {
        for ascending in [true, false] {
            let c = SortCriteria { key, ascending };
            let s = sort_criteria_to_string(&c);
            assert_eq!(sort_criteria_from_str(&s), Some(c));
        }
    }
    assert_eq!(
        sort_criteria_from_str("-Name"),
        Some(SortCriteria { key: SortKey::Name, ascending: false })
    );
    assert_eq!(sort_criteria_from_str("name"), None);
    assert_eq!(sort_criteria_from_str("-"), None);
    assert_eq!(sort_criteria_from_str(""), None);
}

#[test]
fn bools_parse_case_insensitively() {
    assert_eq!(parse_bool("true"), Some(true));
    assert_eq!(parse_bool("TRUE"), Some(true));
    assert_eq!(parse_bool("False"), Some(false));
    assert_eq!(parse_bool("yes"), None);
    assert_eq!(parse_bool(""), None);
    assert_eq!(bool_string(true), "true");
    assert_eq!(bool_string(false), "false");
}

#[test]
fn battleye_values_parse_with_whitespace_and_case_ignored() {
    assert_eq!(parse_battleye("auto"), Some(BattlEyeUsage::Auto));
    assert_eq!(parse_battleye("  Always\t"), Some(BattlEyeUsage::Always(true)));
    assert_eq!(parse_battleye("NEVER"), Some(BattlEyeUsage::Always(false)));
    assert_eq!(parse_battleye("sometimes"), None);
    for u in [BattlEyeUsage::Auto, BattlEyeUsage::Always(true), BattlEyeUsage::Always(false)] {
        assert_eq!(parse_battleye(battleye_string(&u)), Some(u));
    }
}

#[test]
fn trimming_strips_surrounding_whitespace_only() {
    assert_eq!(trimmed("  hi there \r\n"), "hi there");
    assert_eq!(trimmed(""), "");
    assert_eq!(trimmed(" \t "), "");
    assert_eq!(trimmed("solid"), "solid");
}

#[test]
fn type_filter_names_round_trip() {
    for t in [TypeFilter::All, TypeFilter::Official, TypeFilter::Private, TypeFilter::Favorites] {
        assert_eq!(type_filter_from_name(type_filter_name(t)), Some(t));
    }
    assert_eq!(type_filter_from_name("all"), None);
}

#[test]
fn lookup_finds_the_last_occurrence() {
    let entries = vec![entry("A", "1"), entry("B", "2"), entry("A", "3")];
    assert_eq!(lookup(&entries, "A").unwrap(), "3");
    assert_eq!(lookup(&entries, "B").unwrap(), "2");
    assert!(lookup(&entries, "C").is_none());
}

#[test]
fn browser_config_decodes_from_entries() {
    let entries = vec![
        entry("Type", "Official"),
        entry("Mode", "PrivateDedicated"),
        entry("Region", "Oceania"),
        entry("BattlEyeRequired", "TRUE"),
        entry("IncludeInvalid", "true"),
        entry("IncludePasswordProtected", "false"),
        entry("IncludeModded", "true"),
        entry("SortBy", "-Map"),
        entry("ScrollLock", "false"),
    ];
    let c = ServerBrowserConfig::from_entries(&entries);
    assert_eq!(c.type_filter, TypeFilter::Official);
    assert_eq!(c.mode, Some(Mode::PrivateDedicated));
    assert_eq!(c.region, Some(Region::Oceania));
    assert_eq!(c.battleye_required, Some(true));
    assert!(c.include_invalid);
    assert!(!c.include_password_protected);
    assert!(c.include_modded);
    assert_eq!(c.sort_criteria, SortCriteria { key: SortKey::MapName, ascending: false });
    assert!(!c.scroll_lock);
}

#[test]
fn browser_config_defaults_cover_missing_and_bad_values() {
    let c = ServerBrowserConfig::from_entries(&vec![]);
    assert_eq!(c, ServerBrowserConfig::default());
    assert_eq!(c.type_filter, TypeFilter::All);
    assert_eq!(c.mode, None);
    assert!(!c.include_invalid);
    assert!(c.scroll_lock);
    assert_eq!(c.sort_criteria, SortCriteria { key: SortKey::Name, ascending: true });

    let noisy = vec![
        entry("Type", "Bogus"),
        entry("Mode", "Bogus"),
        entry("SortBy", "Sideways"),
        entry("ScrollLock", "maybe"),
    ];
    let c = ServerBrowserConfig::from_entries(&noisy);
    assert_eq!(c.type_filter, TypeFilter::All);
    assert_eq!(c.mode, None);
    assert_eq!(c.sort_criteria, SortCriteria { key: SortKey::Name, ascending: true });
    assert!(c.scroll_lock);
}

#[test]
fn browser_config_round_trips_through_entries() {
    let configs = [
        ServerBrowserConfig::default(),
        ServerBrowserConfig {
            type_filter: TypeFilter::Favorites,
            mode: Some(Mode::PrivateSelfHosted),
            region: Some(Region::Asia),
            battleye_required: Some(false),
            include_invalid: true,
            include_password_protected: true,
            include_modded: false,
            sort_criteria: SortCriteria { key: SortKey::Mode, ascending: false },
            scroll_lock: false,
        },
        ServerBrowserConfig {
            type_filter: TypeFilter::Private,
            mode: None,
            region: Some(Region::Americas),
            battleye_required: None,
            include_invalid: false,
            include_password_protected: false,
            include_modded: true,
            sort_criteria: SortCriteria { key: SortKey::Name, ascending: true },
            scroll_lock: true,
        },
    ];
    for c in configs {
        let entries = c.to_entries();
        assert_eq!(ServerBrowserConfig::from_entries(&entries), c);
    }
}

#[test]
fn transient_persister_loads_defaults_and_saves_nothing() {
    let p = TransientConfig;
    let loaded = p.load().unwrap();
    assert_eq!(loaded.use_battleye, BattlEyeUsage::Always(true));
    assert_eq!(loaded.server_browser, ServerBrowserConfig::default());
    assert!(p.save(&Config::default()).is_ok());
}

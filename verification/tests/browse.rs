use bugle::containers::{ServerIter, ServerList, Servers};
use bugle::model::{Kind, Mode, Ownership, Region, Server, ServerAddress, Validity};
use bugle::ops::{Filter, SortCriteria, SortKey};

fn addr(n: u16) -> ServerAddress {
    ServerAddress { ip: 0x0a000001 + n as u32, port: 7777 }
}

fn server(id: u64, name: &str, map: &str) -> Server {
    Server {
        id,
        addr: addr(id as u16),
        name: name.to_string(),
        map: map.to_string(),
        kind: Kind::Private,
        ownership: Ownership::Dedicated,
        region: Region::Europe,
        build_id: 100,
        password_protected: false,
        players: None,
        validity: Validity::Valid,
    }
}

fn clone_server(r: &Server) -> Server {
    Server {
        id: r.id,
        addr: r.addr,
        name: r.name.clone(),
        map: r.map.clone(),
        kind: r.kind,
        ownership: r.ownership,
        region: r.region,
        build_id: r.build_id,
        password_protected: r.password_protected,
        players: r.players,
        validity: r.validity,
    }
}

fn clone_records(v: &[Server]) -> Vec<Server> {
    let mut out = Vec::new();
    for r in v {
        out.push(clone_server(r));
    }
    out
}

fn names<S: Servers>(list: &S) -> Vec<String> {
    let mut out = Vec::new();
    let mut i = 0;
    while i < list.len() {
        out.push(list.at(i).name.clone());
        i += 1;
    }
    out
}

#[test]
fn empty_list_has_no_records() {
    let list = ServerList::empty();
    assert_eq!(list.len(), 0);
    assert_eq!(list.filtered(&Filter::default()).len(), 0);
}

#[test]
fn filtered_view_keeps_exactly_the_matching_records() {
    let list = ServerList::from_records(vec![
        server(1, "Frostheim", "Highlands"),
        server(2, "Desert Rats", "Dunes"),
        server(3, "Winterfrost", "Dunes"),
    ]);
    let mut filter = Filter::default();
    filter.set_name("frost".to_string());
    let view = list.filtered(&filter);
    assert!(view.len() <= list.len());
    assert_eq!(names(&view), vec!["Frostheim", "Winterfrost"]);
    for i in 0..view.len() {
        assert!(filter.matches(view.at(i)));
    }
    assert!(!filter.matches(list.at(1)));
}

#[test]
fn empty_pattern_matches_everything() {
    let list = ServerList::from_records(vec![server(1, "Alpha", "A"), server(2, "", "B")]);
    let view = list.filtered(&Filter::default());
    assert_eq!(view.len(), 2);
}

#[test]
fn name_matching_ignores_ascii_case() {
    let mut filter = Filter::default();
    filter.set_name("WAR".to_string());
    assert!(filter.matches(&server(1, "dwarven halls", "A")));
    filter.set_name("warp".to_string());
    assert!(!filter.matches(&server(1, "dwarven halls", "A")));
}

#[test]
fn map_mode_region_and_build_filters_are_exact() {
    let mut s = server(1, "Alpha", "Exiled Lands");
    s.kind = Kind::Official;
    s.region = Region::Asia;
    s.build_id = 250;

    let mut filter = Filter::default();
    filter.set_map("exiled".to_string());
    assert!(filter.matches(&s));
    filter.set_mode(Some(Mode::Official));
    assert!(filter.matches(&s));
    filter.set_mode(Some(Mode::PrivateDedicated));
    assert!(!filter.matches(&s));
    filter.set_mode(None);
    filter.set_region(Some(Region::Asia));
    assert!(filter.matches(&s));
    filter.set_region(Some(Region::Europe));
    assert!(!filter.matches(&s));
    filter.set_region(None);
    filter.set_build_id(Some(250));
    assert!(filter.matches(&s));
    filter.set_build_id(Some(251));
    assert!(!filter.matches(&s));
}

#[test]
fn password_policy_only_adds_servers_back() {
    let mut open_server = server(1, "Open", "A");
    open_server.password_protected = false;
    let mut locked = server(2, "Locked", "A");
    locked.password_protected = true;

    let mut permissive = Filter::default();
    permissive.set_password_protected(true);
    let mut restrictive = Filter::default();
    restrictive.set_password_protected(false);

    assert!(permissive.matches(&open_server));
    assert!(restrictive.matches(&open_server));
    assert!(permissive.matches(&locked));
    assert!(!restrictive.matches(&locked));
}

#[test]
fn invalid_records_are_hidden_unless_included() {
    let mut stale = server(1, "Stale", "A");
    stale.validity = Validity::Invalid;
    let mut old = server(2, "Old", "A");
    old.validity = Validity::Outdated;
    let fresh = server(3, "Fresh", "A");

    let mut strict = Filter::default();
    strict.set_include_invalid(false);
    assert!(!strict.matches(&stale));
    assert!(!strict.matches(&old));
    assert!(strict.matches(&fresh));

    let lax = Filter::default();
    assert!(lax.matches(&stale));
    assert!(lax.matches(&old));
}

#[test]
fn sorted_view_is_a_permutation_in_key_order() {
    let list = ServerList::from_records(vec![
        server(3, "Cimmeria", "A"),
        server(1, "Aquilonia", "B"),
        server(2, "Brythunia", "C"),
    ]);
    let view = list.sorted(SortCriteria { key: SortKey::Name, ascending: true });
    assert_eq!(view.len(), 3);
    assert_eq!(names(&view), vec!["Aquilonia", "Brythunia", "Cimmeria"]);
}

#[test]
fn sorting_is_idempotent() {
    let list = ServerList::from_records(vec![
        server(3, "Cimmeria", "A"),
        server(1, "Aquilonia", "B"),
        server(2, "Brythunia", "C"),
    ]);
    let c = SortCriteria { key: SortKey::Name, ascending: true };
    let once = list.sorted(c);
    let twice = once.sorted(c);
    assert_eq!(names(&once), names(&twice));
}

#[test]
fn reversing_the_direction_reverses_the_sequence_exactly() {
    let list = ServerList::from_records(vec![
        server(3, "Cimmeria", "A"),
        server(1, "Aquilonia", "B"),
        server(4, "Aquilonia", "C"),
        server(2, "Brythunia", "D"),
    ]);
    let asc = SortCriteria { key: SortKey::Name, ascending: true };
    let up = list.sorted(asc);
    let down = list.sorted(asc.reversed());
    let mut up_ids: Vec<u64> = Vec::new();
    for i in 0..up.len() {
        up_ids.push(up.at(i).id);
    }
    let mut down_ids: Vec<u64> = Vec::new();
    for i in 0..down.len() {
        down_ids.push(down.at(i).id);
    }
    up_ids.reverse();
    assert_eq!(up_ids, down_ids);
}

#[test]
fn equal_names_are_tie_broken_by_id_ascending() {
    let list = ServerList::from_records(vec![
        server(9, "Same", "A"),
        server(2, "Same", "B"),
        server(5, "Same", "C"),
    ]);
    let view = list.sorted(SortCriteria { key: SortKey::Name, ascending: true });
    assert_eq!(view.at(0).id, 2);
    assert_eq!(view.at(1).id, 5);
    assert_eq!(view.at(2).id, 9);
}

#[test]
fn filtered_then_sorted_matches_a_manual_reference() {
    let records = vec![
        server(3, "Cimmeria", "Dunes"),
        server(1, "Aquilonia", "Highlands"),
        server(4, "Frost Aquilonia", "Dunes"),
        server(2, "Brythunia", "Dunes"),
    ];
    let list = ServerList::from_records(clone_records(&records));
    let mut filter = Filter::default();
    filter.set_map("dunes".to_string());
    let composed = list.filtered(&filter).sorted(SortCriteria {
        key: SortKey::Name,
        ascending: true,
    });

    // Manual reference: filter into a fresh list, then sort it.
    let mut kept = Vec::new();
    for r in records {
        if filter.matches(&r) {
            kept.push(r);
        }
    }
    let reference = ServerList::from_records(kept).sorted(SortCriteria {
        key: SortKey::Name,
        ascending: true,
    });
    assert_eq!(names(&composed), names(&reference));
}

#[test]
fn views_compose_over_shared_backing() {
    let list = ServerList::from_records(vec![
        server(3, "Cimmeria", "Dunes"),
        server(1, "Aquilonia", "Dunes"),
        server(2, "Brythunia", "Highlands"),
    ]);
    let mut filter = Filter::default();
    filter.set_map("dunes".to_string());
    let sorted_then_filtered = list
        .sorted(SortCriteria { key: SortKey::Name, ascending: true })
        .filtered(&filter);
    assert_eq!(names(&sorted_then_filtered), vec!["Aquilonia", "Cimmeria"]);
}

#[test]
fn sort_by_mode_region_and_map() {
    let mut a = server(1, "A", "Zeta");
    a.kind = Kind::Official;
    let mut b = server(2, "B", "Alpha");
    b.kind = Kind::Private;
    b.ownership = Ownership::SelfHosted;
    let mut c = server(3, "C", "Midway");
    c.kind = Kind::Private;
    c.ownership = Ownership::Dedicated;
    c.region = Region::Oceania;

    let list = ServerList::from_records(vec![clone_server(&b), clone_server(&a), clone_server(&c)]);
    let by_mode = list.sorted(SortCriteria { key: SortKey::Mode, ascending: true });
    assert_eq!(names(&by_mode), vec!["A", "C", "B"]);
    let by_map = list.sorted(SortCriteria { key: SortKey::MapName, ascending: true });
    assert_eq!(names(&by_map), vec!["B", "C", "A"]);
    let by_region = list.sorted(SortCriteria { key: SortKey::Region, ascending: true });
    assert_eq!(names(&by_region), vec!["A", "B", "C"]);
}

#[test]
fn iterator_walks_records_in_order() {
    let list = ServerList::from_records(vec![server(1, "One", "A"), server(2, "Two", "B")]);
    let mut iter = ServerIter::new(&list);
    assert_eq!(iter.next().unwrap().name, "One");
    assert_eq!(iter.next().unwrap().name, "Two");
    assert!(iter.next().is_none());
}

#[test]
fn filtering_commutes_with_sorting() {
    let records = vec![
        server(4, "Zamora", "Dunes"),
        server(1, "Aquilonia", "Highlands"),
        server(3, "Koth", "Dunes"),
        server(2, "Brythunia", "Dunes"),
    ];
    let list = ServerList::from_records(records);
    let mut filter = Filter::default();
    filter.set_map("dunes".to_string());
    let c = SortCriteria { key: SortKey::Name, ascending: false };
    let filter_then_sort = list.filtered(&filter).sorted(c);
    let sort_then_filter = list.sorted(c).filtered(&filter);
    assert_eq!(names(&filter_then_sort), names(&sort_then_filter));
    assert_eq!(names(&filter_then_sort), vec!["Zamora", "Koth", "Brythunia"]);
}

use bugle::favorites::{merge_favorites, FavoriteServer, FavoriteServers};
use bugle::model::{Server, ServerAddress, Validity};

fn fav(ip: u32, port: u16, name: Option<&str>) -> FavoriteServer {
    FavoriteServer {
        addr: ServerAddress { ip, port },
        name: name.map(|n| n.to_string()),
    }
}

#[test]
fn favorites_are_a_set_keyed_by_address() {
    let mut favs = FavoriteServers::new();
    assert_eq!(favs.len(), 0);
    favs.insert(fav(1, 100, Some("One")));
    favs.insert(fav(2, 100, None));
    assert_eq!(favs.len(), 2);
    assert!(favs.contains_addr(&ServerAddress { ip: 1, port: 100 }));
    assert!(favs.contains_addr(&ServerAddress { ip: 2, port: 100 }));
    assert!(!favs.contains_addr(&ServerAddress { ip: 1, port: 101 }));

    // Inserting the same address again replaces the entry.
    favs.insert(fav(1, 100, Some("Renamed")));
    assert_eq!(favs.len(), 2);
    let mut seen = false;
    for i in 0..favs.len() {
        let e = favs.at(i);
        if e.addr == (ServerAddress { ip: 1, port: 100 }) {
            assert_eq!(e.name.as_deref(), Some("Renamed"));
            seen = true;
        }
    }
    assert!(seen);
}

#[test]
fn merging_adds_only_missing_addresses() {
    let from_master = vec![
        Server::unqueried(10, ServerAddress { ip: 1, port: 100 }),
        Server::unqueried(11, ServerAddress { ip: 2, port: 100 }),
    ];
    let mut favs = FavoriteServers::new();
    favs.insert(fav(2, 100, Some("Known")));
    favs.insert(fav(9, 900, Some("OffRoster")));

    let merged = merge_favorites(from_master, &favs);
    assert_eq!(merged.len(), 3);
    assert_eq!(merged[0].id, 10);
    assert_eq!(merged[1].id, 11);

    let extra = &merged[2];
    assert_eq!(extra.addr, ServerAddress { ip: 9, port: 900 });
    assert_eq!(extra.id, 9u64 * 65536 + 900);
    assert_eq!(extra.name, "OffRoster");
    assert_eq!(extra.validity, Validity::Invalid);
    assert!(extra.players.is_none());
}

#[test]
fn merging_into_an_empty_roster_keeps_every_favorite() {
    let mut favs = FavoriteServers::new();
    favs.insert(fav(5, 500, None));
    favs.insert(fav(6, 600, Some("Named")));
    let merged = merge_favorites(Vec::new(), &favs);
    assert_eq!(merged.len(), 2);
    assert!(merged[0].name.is_empty());
    assert_eq!(merged[1].name, "Named");
}

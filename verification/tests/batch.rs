use bugle::client::{QueryConfig, SendCommand, ServerQueryClient};
use bugle::containers::{ServerList, Servers};
use bugle::model::{Kind, Ownership, Region, Server, ServerAddress, Validity};
use bugle::net::{ServerQueryRequest, ServerQueryResponse};
use bugle::ops::Filter;

fn address(n: u32) -> ServerAddress {
    ServerAddress { ip: 0x0a00_0000 + n, port: 27000 }
}

fn unqueried(id: u64, n: u32) -> Server {
    Server::unqueried(id, address(n))
}

fn config(cap: usize, retries: u8) -> QueryConfig {
    QueryConfig { max_concurrent: cap, max_retries: retries, timeout_ms: 250 }
}

fn response_for(cmd: &SendCommand, name: &str, build: u32) -> Vec<u8> {
    let token = ServerQueryRequest::decode(&cmd.datagram).unwrap().token;
    ServerQueryResponse {
        token,
        name: name.to_string(),
        map: "Exiled Lands".to_string(),
        kind: Kind::Private,
        ownership: Ownership::Dedicated,
        region: Region::Europe,
        build_id: build,
        password_protected: false,
        current_players: 3,
        max_players: 40,
    }
    .encode()
}

/// Addresses `[A, B, C]`: A answers with the local build, B never answers,
/// C answers with a foreign build. The finished batch holds exactly the
/// three records, classified `Valid` / `Invalid` / `Outdated`, and the
/// strict filter keeps only A.
#[test]
fn three_address_scenario_classifies_records() {
    let records = vec![unqueried(1, 1), unqueried(2, 2), unqueried(3, 3)];
    let mut client = ServerQueryClient::new(records, 100, config(3, 1));

    let cmd_a = client.poll_send().unwrap();
    let cmd_b = client.poll_send().unwrap();
    let cmd_c = client.poll_send().unwrap();
    assert!(client.poll_send().is_none());
    assert_eq!(cmd_a.index, 0);
    assert_eq!(cmd_b.index, 1);
    assert_eq!(cmd_c.index, 2);
    assert_eq!(cmd_a.addr, address(1));

    assert_eq!(client.on_response(cmd_a.index, &response_for(&cmd_a, "Foo", 100)), Some(0));
    assert_eq!(client.on_response(cmd_c.index, &response_for(&cmd_c, "Bar", 999)), Some(2));

    // B times out, is retried once, and times out again.
    assert_eq!(client.on_timeout(cmd_b.index), None);
    let retry_b = client.poll_send().unwrap();
    assert_eq!(retry_b.index, 1);
    assert_eq!(client.on_timeout(retry_b.index), Some(1));

    assert!(client.is_complete());
    let out = client.into_records();
    assert_eq!(out.len(), 3);
    assert_eq!(out[0].name, "Foo");
    assert_eq!(out[0].validity, Validity::Valid);
    assert_eq!(out[0].players.unwrap().current, 3);
    assert_eq!(out[1].validity, Validity::Invalid);
    assert_eq!(out[1].id, 2);
    assert_eq!(out[2].name, "Bar");
    assert_eq!(out[2].validity, Validity::Outdated);

    let list = ServerList::from_records(out);
    let mut strict = Filter::default();
    strict.set_include_invalid(false);
    let visible = list.filtered(&strict);
    assert_eq!(visible.len(), 1);
    assert_eq!(visible.at(0).name, "Foo");
}

/// N addresses of which K never answer: the result still has exactly N
/// entries, the K failures demoted rather than dropped.
#[test]
fn batch_is_complete_even_when_some_addresses_fail() {
    let n = 5;
    let failing = [1usize, 3usize];
    let records: Vec<Server> = (0..n).map(|i| unqueried(i as u64 + 1, i as u32 + 1)).collect();
    let mut client = ServerQueryClient::new(records, 100, config(2, 0));

    let mut resolved = 0;
    while !client.is_complete() {
        if let Some(cmd) = client.poll_send() {
            if failing.contains(&cmd.index) {
                let update = client.on_timeout(cmd.index);
                assert_eq!(update, Some(cmd.index));
            } else {
                let bytes = response_for(&cmd, "Up", 100);
                let update = client.on_response(cmd.index, &bytes);
                assert_eq!(update, Some(cmd.index));
            }
            resolved += 1;
        }
    }
    assert_eq!(resolved, n);

    let out = client.into_records();
    assert_eq!(out.len(), n);
    for (i, rec) in out.iter().enumerate() {
        assert_eq!(rec.id, i as u64 + 1);
        if failing.contains(&i) {
            assert_eq!(rec.validity, Validity::Invalid);
            assert!(rec.players.is_none());
        } else {
            assert_eq!(rec.validity, Validity::Valid);
        }
    }
}

#[test]
fn concurrency_cap_bounds_in_flight_exchanges() {
    let records: Vec<Server> = (0..4).map(|i| unqueried(i as u64 + 1, i as u32 + 1)).collect();
    let mut client = ServerQueryClient::new(records, 100, config(2, 0));

    let first = client.poll_send().unwrap();
    let second = client.poll_send().unwrap();
    assert!(client.poll_send().is_none());

    let bytes = response_for(&first, "One", 100);
    assert_eq!(client.on_response(first.index, &bytes), Some(first.index));
    let third = client.poll_send().unwrap();
    assert_eq!(third.index, 2);
    let _ = second;
}

#[test]
fn cancellation_stops_updates_and_sends() {
    let records = vec![unqueried(1, 1), unqueried(2, 2)];
    let mut client = ServerQueryClient::new(records, 100, config(2, 1));

    let cmd_a = client.poll_send().unwrap();
    let _cmd_b = client.poll_send().unwrap();
    let late = response_for(&cmd_a, "Late", 100);

    client.cancel();
    assert!(client.is_cancelled());

    // Nothing that still arrives is delivered or applied.
    assert_eq!(client.on_response(cmd_a.index, &late), None);
    assert_eq!(client.on_timeout(1), None);
    assert!(client.poll_send().is_none());

    let out = client.into_records();
    assert!(out[0].name.is_empty());
    assert_eq!(out[0].validity, Validity::Invalid);
}

#[test]
fn mismatched_token_is_treated_like_a_timeout() {
    let records = vec![unqueried(1, 1)];
    let mut client = ServerQueryClient::new(records, 100, config(1, 0));

    let cmd = client.poll_send().unwrap();
    let token = ServerQueryRequest::decode(&cmd.datagram).unwrap().token;
    let spoofed = ServerQueryResponse {
        token: token.wrapping_add(1),
        name: "Spoof".to_string(),
        map: "X".to_string(),
        kind: Kind::Official,
        ownership: Ownership::Dedicated,
        region: Region::Americas,
        build_id: 100,
        password_protected: false,
        current_players: 0,
        max_players: 0,
    }
    .encode();

    // No retries are left, so the mismatch finishes the address as degraded.
    assert_eq!(client.on_response(cmd.index, &spoofed), Some(0));
    let out = client.into_records();
    assert_eq!(out[0].validity, Validity::Invalid);
    assert!(out[0].name.is_empty());
}

#[test]
fn malformed_datagram_is_treated_like_a_timeout() {
    let records = vec![unqueried(1, 1)];
    let mut client = ServerQueryClient::new(records, 100, config(1, 1));

    let cmd = client.poll_send().unwrap();
    assert_eq!(client.on_response(cmd.index, &[1, 2, 3]), None);

    // The attempt was spent; the address is waiting for its retry.
    let retry = client.poll_send().unwrap();
    assert_eq!(retry.index, 0);
    let bytes = response_for(&retry, "Recovered", 100);
    assert_eq!(client.on_response(retry.index, &bytes), Some(0));
    assert_eq!(client.into_records()[0].name, "Recovered");
}

#[test]
fn unsolicited_datagrams_are_ignored() {
    let records = vec![unqueried(1, 1)];
    let mut client = ServerQueryClient::new(records, 100, config(1, 0));

    // Nothing is in flight yet for this address.
    let stray = ServerQueryResponse {
        token: 0,
        name: "Stray".to_string(),
        map: "X".to_string(),
        kind: Kind::Official,
        ownership: Ownership::Dedicated,
        region: Region::Americas,
        build_id: 100,
        password_protected: false,
        current_players: 0,
        max_players: 0,
    }
    .encode();
    assert_eq!(client.on_response(0, &stray), None);
    assert!(!client.is_complete());
}

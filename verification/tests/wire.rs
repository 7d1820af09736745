use bugle::model::{Kind, Ownership, Region, Validity};
use bugle::model::{mode_of, revision, validity_for, Mode, ServerAddress};
use bugle::net::{
    encode_master_list, parse_master_list, FetchError, MasterEntry, ServerQueryRequest,
    ServerQueryResponse,
};

fn sample_response(token: u32) -> ServerQueryResponse {
    ServerQueryResponse {
        token,
        name: "Foo Server".to_string(),
        map: "Exiled Lands".to_string(),
        kind: Kind::Private,
        ownership: Ownership::SelfHosted,
        region: Region::Oceania,
        build_id: 98765,
        password_protected: true,
        current_players: 17,
        max_players: 40,
    }
}

#[test]
fn request_round_trip() {
    let req = ServerQueryRequest { token: 0xdead_beef };
    let bytes = req.encode();
    assert_eq!(bytes.len(), 8);
    let back = ServerQueryRequest::decode(&bytes).unwrap();
    assert_eq!(back.token, 0xdead_beef);
}

#[test]
fn request_decode_rejects_bad_input() {
    assert!(ServerQueryRequest::decode(&[]).is_none());
    assert!(ServerQueryRequest::decode(&[0u8; 7]).is_none());
    assert!(ServerQueryRequest::decode(&[0u8; 9]).is_none());
    let mut bytes = ServerQueryRequest { token: 1 }.encode();
    bytes[0] ^= 0xff;
    assert!(ServerQueryRequest::decode(&bytes).is_none());
}

#[test]
fn response_round_trip_preserves_every_field() {
    let resp = sample_response(42);
    let bytes = resp.encode();
    assert!(bytes.len() <= 1200);
    let back = ServerQueryResponse::decode(&bytes).unwrap();
    assert_eq!(back.token, 42);
    assert_eq!(back.name, "Foo Server");
    assert_eq!(back.map, "Exiled Lands");
    assert_eq!(back.kind, Kind::Private);
    assert_eq!(back.ownership, Ownership::SelfHosted);
    assert_eq!(back.region, Region::Oceania);
    assert_eq!(back.build_id, 98765);
    assert!(back.password_protected);
    assert_eq!(back.current_players, 17);
    assert_eq!(back.max_players, 40);
}

#[test]
fn response_decode_rejects_malformed_datagrams() {
    let good = sample_response(7).encode();

    assert!(ServerQueryResponse::decode(&good[..20]).is_none());

    let mut bad_magic = good.clone();
    bad_magic[1] ^= 0xff;
    assert!(ServerQueryResponse::decode(&bad_magic).is_none());

    let mut bad_kind = good.clone();
    bad_kind[16] = 9;
    assert!(ServerQueryResponse::decode(&bad_kind).is_none());

    let mut bad_region = good.clone();
    bad_region[18] = 200;
    assert!(ServerQueryResponse::decode(&bad_region).is_none());

    let mut bad_flag = good.clone();
    bad_flag[19] = 2;
    assert!(ServerQueryResponse::decode(&bad_flag).is_none());

    let mut non_ascii_name = good.clone();
    non_ascii_name[21] = 0xc3;
    assert!(ServerQueryResponse::decode(&non_ascii_name).is_none());

    let mut truncated = good.clone();
    truncated.pop();
    assert!(ServerQueryResponse::decode(&truncated).is_none());
}

#[test]
fn master_list_round_trip() {
    let entries = vec![
        MasterEntry { id: 11, addr: ServerAddress { ip: 0x7f000001, port: 7777 } },
        MasterEntry { id: 22, addr: ServerAddress { ip: 0x0a141e28, port: 28015 } },
    ];
    let bytes = encode_master_list(&entries);
    let records = parse_master_list(&bytes).unwrap();
    assert_eq!(records.len(), 2);
    assert_eq!(records[0].id, 11);
    assert_eq!(records[0].addr.port, 7777);
    assert_eq!(records[1].id, 22);
    assert_eq!(records[1].addr.ip, 0x0a141e28);
    for r in &records {
        assert_eq!(r.validity, Validity::Invalid);
        assert!(r.players.is_none());
        assert!(r.name.is_empty());
    }
}

#[test]
fn master_list_service_error_is_reported() {
    let mut bytes = encode_master_list(&vec![]);
    bytes[4] = 3;
    assert!(matches!(parse_master_list(&bytes), Err(FetchError::ServiceError)));
}

#[test]
fn master_list_malformed_payload_is_rejected_atomically() {
    assert!(matches!(parse_master_list(&[]), Err(FetchError::MalformedPayload)));
    assert!(matches!(parse_master_list(&[1, 2, 3]), Err(FetchError::MalformedPayload)));

    let mut bad_magic = encode_master_list(&vec![]);
    bad_magic[0] = 0;
    assert!(matches!(parse_master_list(&bad_magic), Err(FetchError::MalformedPayload)));

    let entries = vec![MasterEntry { id: 1, addr: ServerAddress { ip: 1, port: 2 } }];
    let mut truncated = encode_master_list(&entries);
    truncated.pop();
    assert!(matches!(parse_master_list(&truncated), Err(FetchError::MalformedPayload)));

    // The caller maps transport failures onto the remaining variant.
    assert_ne!(FetchError::Unreachable, FetchError::MalformedPayload);
}

#[test]
fn validity_is_judged_against_the_local_build() {
    assert_eq!(validity_for(100, 100), Validity::Valid);
    assert_eq!(validity_for(999, 100), Validity::Outdated);
}

#[test]
fn mode_derives_from_kind_and_ownership() {
    assert_eq!(mode_of(Kind::Official, Ownership::Dedicated), Mode::Official);
    assert_eq!(mode_of(Kind::Official, Ownership::SelfHosted), Mode::Official);
    assert_eq!(mode_of(Kind::Private, Ownership::Dedicated), Mode::PrivateDedicated);
    assert_eq!(mode_of(Kind::Private, Ownership::SelfHosted), Mode::PrivateSelfHosted);
}

#[test]
fn revision_unpacks_the_build_id() {
    let build: u32 = 0x0002_3456;
    let expect_major = (build | 0x8000_0000) >> 13;
    let min = (build & 0x1fff) as u16;
    let expect_minor = min | if min > 0x1000 { 0x7000 } else { 0x8000 };
    assert_eq!(revision(build), (expect_major, expect_minor));
    assert_eq!(revision(0), (0x8000_0000u32 >> 13, 0x8000));
}

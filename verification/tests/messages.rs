use vivo_msgpack::messages::bind::{
    empty_payload, require_success, BindAuthRequest, BindBindRequest, BindConnectConfirmRequest,
    BindConnectConfirmResponse, BindInitRequest, BindInitResponse, ResponseCode, WatchBindState,
    BID_BIND, CID_AUTH, DEFAULT_BID_VERSION, MAGIC_PHONE_PLACEHOLDER,
};
use vivo_msgpack::messages::device_info::{
    BidVersion, DeviceInfoRequest, FeatureItem, WatchBidVersionRequest, WatchBidVersionResponse,
    WatchFirstSyncResp,
};
use vivo_msgpack::messages::{is_response_cid, request_cid, response_cid};
use vivo_msgpack::msgpack::{
    write_array_len, write_bin, write_bool, write_i32, write_i64, write_str, MsgpackReader,
};
use vivo_msgpack::schema::{MessageSchema, SchemaCatalog};
use vivo_msgpack::MsgpackError;

#[test]
fn command_ids_toggle_the_high_bit() {
    assert_eq!(response_cid(CID_AUTH), 0x81);
    assert_eq!(request_cid(0x81), CID_AUTH);
    assert!(is_response_cid(0x81));
    assert!(!is_response_cid(0x01));
    for cid in 0..=255u8 {
        assert!(is_response_cid(response_cid(cid)));
        assert!(!is_response_cid(request_cid(cid)));
        assert_eq!(request_cid(response_cid(cid)), request_cid(cid));
        assert_eq!(response_cid(request_cid(cid)), response_cid(cid));
    }
    assert_eq!(BID_BIND, 15);
}

#[test]
fn response_command_ids_are_the_request_ids_with_the_high_bit() {
    assert_eq!(vivo_msgpack::messages::bind::BindAuthResponse::CID, 0x81);
    assert_eq!(BindInitResponse::CID, 0x82);
    assert_eq!(BindConnectConfirmResponse::CID, 0x86);
    assert_eq!(WatchBidVersionResponse::CID, 0x86);
    assert_eq!(WatchFirstSyncResp::CID, 0x81);
}

#[test]
fn new_bind_auth_request_fills_in_the_placeholder() {
    let a = BindAuthRequest::new("id".to_string(), 7, vec![1], None);
    assert_eq!(a.magic_phone, MAGIC_PHONE_PLACEHOLDER);
    assert_eq!(a.bid_version, DEFAULT_BID_VERSION);
    let b = BindAuthRequest::new("id".to_string(), 7, vec![1], Some(String::new()));
    assert_eq!(b.magic_phone, "***********");
    let c = BindAuthRequest::new("id".to_string(), 7, vec![1], Some("13800000000".to_string()));
    assert_eq!(c.magic_phone, "13800000000");
    assert_eq!(c.open_id, "id");
    assert_eq!(c.random, 7);
    assert_eq!(c.aes_sign, vec![1]);
}

#[test]
fn bind_auth_request_payload_is_exact() {
    let req = BindAuthRequest::new("ab".to_string(), 300, vec![9], Some("1".to_string()));
    let payload = req.payload().unwrap();
    assert_eq!(
        payload,
        vec![0xa2, b'a', b'b', 0xd1, 0x01, 0x2c, 0xc4, 0x01, 0x09, 0x0b, 0xa1, b'1']
    );
}

#[test]
fn bind_auth_response_round_trips_and_reports_the_first_fault() {
    let mut payload = Vec::new();
    write_i32(&mut payload, -3);
    write_str(&mut payload, "SN").unwrap();
    write_i32(&mut payload, 70000);
    write_bin(&mut payload, &[1, 2]).unwrap();
    write_i64(&mut payload, 1 << 40);
    write_i64(&mut payload, -5);
    payload.extend_from_slice(&[0xc3, 0xc3]);
    let resp = vivo_msgpack::messages::bind::BindAuthResponse::decode(&payload).unwrap();
    assert_eq!(resp.code, -3);
    assert_eq!(resp.sn, "SN");
    assert_eq!(resp.random, 70000);
    assert_eq!(resp.aes_sign, vec![1, 2]);
    assert_eq!(resp.bid_version, 1 << 40);
    assert_eq!(resp.seq, -5);

    let truncated = &payload[..4];
    let err = vivo_msgpack::messages::bind::BindAuthResponse::decode(truncated).unwrap_err();
    assert!(matches!(err, MsgpackError::Msgpack("unexpected end of buffer")));
}

#[test]
fn bind_init_request_payload_reads_back() {
    let req = BindInitRequest {
        os: 2,
        is_bind: true,
        version: "1.0".to_string(),
        module: "phone".to_string(),
        phone_device_id: "dev".to_string(),
        seq: 42,
    };
    let payload = req.payload().unwrap();
    let mut reader = MsgpackReader::new(&payload);
    assert_eq!(reader.read_i32().unwrap(), 2);
    assert!(reader.read_bool().unwrap());
    assert_eq!(reader.read_str().unwrap(), "1.0");
    assert_eq!(reader.read_str().unwrap(), "phone");
    assert_eq!(reader.read_str().unwrap(), "dev");
    assert_eq!(reader.read_i64().unwrap(), 42);
    assert!(!reader.has_next());
}

#[test]
fn watch_bind_state_codes() {
    assert_eq!(WatchBindState::from(0), WatchBindState::Init);
    assert_eq!(WatchBindState::from(1), WatchBindState::Bind);
    assert_eq!(WatchBindState::from(2), WatchBindState::Mid);
    assert_eq!(WatchBindState::from(7), WatchBindState::Unknown);
    assert_eq!(WatchBindState::from(-1), WatchBindState::Unknown);
    for s in [WatchBindState::Init, WatchBindState::Bind, WatchBindState::Mid, WatchBindState::Unknown] {
        assert_eq!(WatchBindState::from(s.code()), s);
    }
    assert_eq!(WatchBindState::Unknown.code(), -1);
}

fn bind_init_base() -> Vec<u8> {
    let mut p = Vec::new();
    write_i32(&mut p, 0);
    write_str(&mut p, "oid").unwrap();
    write_str(&mut p, "v2").unwrap();
    write_i32(&mut p, 512);
    write_i32(&mut p, 1);
    write_str(&mut p, "pdid").unwrap();
    write_str(&mut p, "3.1").unwrap();
    write_i32(&mut p, 0);
    write_i64(&mut p, 77);
    p
}

#[test]
fn bind_init_response_without_trailer() {
    let resp = BindInitResponse::decode(&bind_init_base()).unwrap();
    assert_eq!(resp.open_id, "oid");
    assert_eq!(resp.version, "v2");
    assert_eq!(resp.pack_size, 512);
    assert_eq!(resp.state, WatchBindState::Bind);
    assert_eq!(resp.phone_device_id, "pdid");
    assert_eq!(resp.last_app_version, "3.1");
    assert_eq!(resp.seq, 77);
    assert_eq!(resp.is_phone_bt_mac_empty, None);
    assert_eq!(resp.max_data_length, None);
    assert_eq!(resp.magic_phone, None);
}

#[test]
fn bind_init_response_with_partial_and_full_trailer() {
    let mut p = bind_init_base();
    write_bool(&mut p, true);
    let resp = BindInitResponse::decode(&p).unwrap();
    assert_eq!(resp.is_phone_bt_mac_empty, Some(true));
    assert_eq!(resp.max_data_length, None);
    write_i32(&mut p, 4096);
    write_str(&mut p, "139").unwrap();
    let resp = BindInitResponse::decode(&p).unwrap();
    assert_eq!(resp.max_data_length, Some(4096));
    assert_eq!(resp.magic_phone, Some("139".to_string()));
}

#[test]
fn bind_init_response_unknown_state_and_bad_trailer() {
    let mut p = Vec::new();
    write_i32(&mut p, 0);
    write_str(&mut p, "").unwrap();
    write_str(&mut p, "").unwrap();
    write_i32(&mut p, 0);
    write_i32(&mut p, 9);
    write_str(&mut p, "").unwrap();
    write_str(&mut p, "").unwrap();
    write_i32(&mut p, 0);
    write_i64(&mut p, 0);
    assert_eq!(BindInitResponse::decode(&p).unwrap().state, WatchBindState::Unknown);
    p.push(0x05);
    let err = BindInitResponse::decode(&p).unwrap_err();
    assert!(matches!(err, MsgpackError::Msgpack("expected bool")));
}

#[test]
fn small_request_payloads() {
    assert_eq!(BindBindRequest { confirm: true }.payload(), vec![0xc3]);
    assert_eq!(BindBindRequest { confirm: false }.payload(), vec![0xc2]);
    assert!(empty_payload().is_empty());
    let p = BindConnectConfirmRequest { seq: 200, has_backup_list: false }.payload();
    assert_eq!(p, vec![0xd1, 0x00, 0xc8, 0xc2]);
}

#[test]
fn response_code_and_require_success() {
    let mut p = Vec::new();
    write_i32(&mut p, 5);
    assert_eq!(ResponseCode::decode(&p).unwrap().code, 5);
    assert!(ResponseCode::decode(&[]).is_err());
    assert!(require_success(0).is_ok());
    assert!(matches!(require_success(5), Err(MsgpackError::ResponseCode(5))));
    assert!(matches!(require_success(-1), Err(MsgpackError::ResponseCode(-1))));
}

#[test]
fn bind_connect_confirm_response_with_and_without_seq() {
    let mut p = Vec::new();
    write_i32(&mut p, 0);
    let r = BindConnectConfirmResponse::decode(&p).unwrap();
    assert_eq!(r.seq, None);
    write_i64(&mut p, 123456);
    let r = BindConnectConfirmResponse::decode(&p).unwrap();
    assert_eq!(r.code, 0);
    assert_eq!(r.seq, Some(123456));
}

#[test]
fn item_payloads() {
    assert_eq!(BidVersion { bid: 15, version: 11 }.payload(), vec![0x0f, 0x0b]);
    assert_eq!(
        FeatureItem { key: 1, value: "on".to_string() }.payload().unwrap(),
        vec![0x01, 0xa2, b'o', b'n']
    );
}

#[test]
fn watch_bid_version_request_payload_layout() {
    let req = WatchBidVersionRequest {
        sync_bid_versions: true,
        sync_features: false,
        phone_bid_version: 3,
        bid_versions: vec![BidVersion { bid: 15, version: 11 }, BidVersion { bid: 25, version: 2 }],
        features: vec![FeatureItem { key: 7, value: "x".to_string() }],
    };
    let payload = req.payload().unwrap();
    assert_eq!(
        payload,
        vec![
            0xc3, 0xc2, 0x03, 0x92, 0xc4, 0x02, 0x0f, 0x0b, 0xc4, 0x02, 0x19, 0x02, 0x91, 0xc4,
            0x03, 0x07, 0xa1, b'x'
        ]
    );
}

fn bid_version_response(with_features: bool) -> Vec<u8> {
    let mut p = Vec::new();
    write_i32(&mut p, 0);
    write_i32(&mut p, 4);
    write_array_len(&mut p, 2).unwrap();
    write_bin(&mut p, &BidVersion { bid: 15, version: 11 }.payload()).unwrap();
    write_bin(&mut p, &BidVersion { bid: 25, version: 2 }.payload()).unwrap();
    if with_features {
        write_array_len(&mut p, 1).unwrap();
        write_bin(&mut p, &FeatureItem { key: 9, value: "yes".to_string() }.payload().unwrap())
            .unwrap();
    }
    p
}

#[test]
fn watch_bid_version_response_decodes_lists() {
    let r = WatchBidVersionResponse::decode(&bid_version_response(true)).unwrap();
    assert_eq!(r.code, 0);
    assert_eq!(r.phone_bid_version, 4);
    assert_eq!(
        r.bid_versions,
        vec![BidVersion { bid: 15, version: 11 }, BidVersion { bid: 25, version: 2 }]
    );
    assert_eq!(r.features, vec![FeatureItem { key: 9, value: "yes".to_string() }]);
    let r = WatchBidVersionResponse::decode(&bid_version_response(false)).unwrap();
    assert_eq!(r.bid_versions.len(), 2);
    assert!(r.features.is_empty());
}

#[test]
fn watch_bid_version_response_fails_on_a_short_list() {
    let mut p = Vec::new();
    write_i32(&mut p, 0);
    write_i32(&mut p, 4);
    write_array_len(&mut p, 3).unwrap();
    write_bin(&mut p, &BidVersion { bid: 1, version: 1 }.payload()).unwrap();
    let err = WatchBidVersionResponse::decode(&p).unwrap_err();
    assert!(matches!(err, MsgpackError::Msgpack("unexpected end of buffer")));
}

#[test]
fn device_info_request_optional_offset() {
    let mut d = DeviceInfoRequest {
        unix_time_sec: 1,
        gmt_timezone: 8,
        os_type: 2,
        millis: 500,
        timezone_offset_sec: None,
    };
    assert_eq!(d.payload(), vec![0x01, 0x08, 0x02, 0xd1, 0x01, 0xf4]);
    d.timezone_offset_sec = Some(-3600);
    assert_eq!(d.payload(), vec![0x01, 0x08, 0x02, 0xd1, 0x01, 0xf4, 0xd1, 0xf1, 0xf0]);
}

#[test]
fn watch_first_sync_decodes_the_prefix() {
    let mut p = Vec::new();
    write_i32(&mut p, 0);
    write_i32(&mut p, 87);
    write_i64(&mut p, 1 << 33);
    write_i64(&mut p, 1 << 20);
    for s in ["Watch", "1.2", "SN9", "AA:BB", "W1"] {
        write_str(&mut p, s).unwrap();
    }
    write_i32(&mut p, 1);
    write_str(&mut p, "CC:DD").unwrap();
    write_i32(&mut p, 4242);
    write_str(&mut p, "extra").unwrap();
    let r = WatchFirstSyncResp::decode_prefix(&p).unwrap();
    assert_eq!(r.battery, 87);
    assert_eq!(r.total_storage, 1 << 33);
    assert_eq!(r.free_storage, 1 << 20);
    assert_eq!(r.device_name, "Watch");
    assert_eq!(r.model, "W1");
    assert_eq!(r.ble_mac, "CC:DD");
    assert_eq!(r.product_id, 4242);
}

fn schema(name: &str, bid: Option<u16>, cid: Option<u16>) -> MessageSchema {
    MessageSchema {
        class: format!("pkg.{name}"),
        simple_name: name.to_string(),
        package: None,
        source: None,
        message_kind: None,
        bid,
        cid,
        bid_expr: None,
        cid_expr: None,
        encoding: None,
        msgpack_fields_effective: Vec::new(),
    }
}

#[test]
fn schema_catalog_lookups() {
    let catalog = SchemaCatalog::new(vec![
        schema("BindAuthRequest", Some(15), Some(1)),
        schema("BindAuthResponse", Some(15), Some(1)),
        schema("Other", Some(25), Some(1)),
        schema("NoIds", None, None),
    ]);
    assert_eq!(catalog.messages().len(), 4);
    let found = catalog.find_by_bid_cid(15, 1);
    assert_eq!(found.len(), 2);
    assert_eq!(found[0].simple_name, "BindAuthRequest");
    assert_eq!(found[1].simple_name, "BindAuthResponse");
    assert!(catalog.find_by_bid_cid(99, 1).is_empty());
    assert_eq!(catalog.find_by_simple_name("Other").unwrap().bid, Some(25));
    assert!(catalog.find_by_simple_name("Missing").is_none());
    assert!(catalog.find_by_simple_name("Other2").is_none());
}

fn bind_auth_response_bytes() -> Vec<u8> {
    let mut p = Vec::new();
    write_i32(&mut p, 0);
    write_str(&mut p, "SN123").unwrap();
    write_i32(&mut p, 0x2211);
    write_bin(&mut p, &[9, 8, 7]).unwrap();
    write_i64(&mut p, 11);
    write_i64(&mut p, 9988);
    p
}

#[test]
fn every_strict_prefix_of_a_bind_auth_response_is_refused() {
    let p = bind_auth_response_bytes();
    assert!(vivo_msgpack::messages::bind::BindAuthResponse::decode(&p).is_ok());
    for cut in 0..p.len() {
        assert!(vivo_msgpack::messages::bind::BindAuthResponse::decode(&p[..cut]).is_err());
    }
}

#[test]
fn every_strict_prefix_of_a_first_sync_response_is_refused() {
    let mut p = Vec::new();
    write_i32(&mut p, 0);
    write_i32(&mut p, 50);
    write_i64(&mut p, 1 << 35);
    write_i64(&mut p, 7);
    for s in ["n", "v", "s", "m", "mo"] {
        write_str(&mut p, s).unwrap();
    }
    write_i32(&mut p, 2);
    write_str(&mut p, "b").unwrap();
    write_i32(&mut p, 300);
    assert!(WatchFirstSyncResp::decode_prefix(&p).is_ok());
    for cut in 0..p.len() {
        assert!(WatchFirstSyncResp::decode_prefix(&p[..cut]).is_err());
    }
}

#[test]
fn outside_errors_convert_into_the_library_error() {
    let e: MsgpackError = u8::try_from(300i32).unwrap_err().into();
    assert!(matches!(e, MsgpackError::IntConversion(_)));
    let bad = [0xffu8];
    let e: MsgpackError = std::str::from_utf8(&bad).unwrap_err().into();
    assert!(matches!(e, MsgpackError::Utf8(_)));
    let e: MsgpackError = serde_json::from_str::<u8>("x").unwrap_err().into();
    assert!(matches!(e, MsgpackError::Schema(_)));
}

#[test]
fn bind_connect_confirm_trailing_item_is_absent_present_or_refused() {
    let r = BindConnectConfirmResponse::decode(&[0x00]).unwrap();
    assert_eq!((r.code, r.seq), (0, None));
    let r = BindConnectConfirmResponse::decode(&[0x00, 0x05]).unwrap();
    assert_eq!((r.code, r.seq), (0, Some(5)));
    assert!(BindConnectConfirmResponse::decode(&[0x00, 0xc0]).is_err());
    assert!(BindConnectConfirmResponse::decode(&[0x00, 0xd1, 0x01]).is_err());
}

#[test]
fn bind_init_response_with_two_trailing_items() {
    let mut p = bind_init_base();
    write_bool(&mut p, false);
    write_i32(&mut p, -7);
    let resp = BindInitResponse::decode(&p).unwrap();
    assert_eq!(resp.is_phone_bt_mac_empty, Some(false));
    assert_eq!(resp.max_data_length, Some(-7));
    assert_eq!(resp.magic_phone, None);
}

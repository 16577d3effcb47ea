use selium::atlas::{
    atlas_message_buffer_has_identifier, decode_ids, decode_tables, encode_tables, Message,
    MessageTable, PayloadTable, ProtocolError, Uri,
};
use selium::atlas_client::{
    get_outcome, insert_outcome, lookup_outcome, remove_outcome, AtlasError,
};
use selium::atlas_store::{handle_get, handle_insert, handle_remove, AtlasStore};

fn samples() -> Vec<Message> {
    vec![
        Message::GetRequest { request_id: 1, uri: Uri::new("sel://acme/svc"), reply_channel: 9 },
        Message::InsertRequest {
            request_id: 2,
            uri: Uri::new("sel://acme/svc"),
            id: 77,
            reply_channel: 9,
        },
        Message::RemoveRequest { request_id: 3, uri: Uri::new("sel:///x"), reply_channel: 4 },
        Message::LookupRequest { request_id: 4, pattern: "sel://acme/*".to_string(), reply_channel: 5 },
        Message::ResponseGet { request_id: 5, id: 6, found: true },
        Message::ResponseRemove { request_id: 6, id: 0, found: false },
        Message::ResponseLookup { request_id: 7, ids: vec![1, 2, 3] },
        Message::ResponseOk { request_id: 8 },
        Message::ResponseError { request_id: 9, message: "nope".to_string() },
    ]
}

#[test]
fn tables_round_trip() {
    for m in samples() {
        let table = encode_tables(&m);
        assert_eq!(table.request_id, m.request_id());
        assert_eq!(decode_tables(&table), Ok(m));
    }
}

#[test]
fn absent_parts_are_missing_payload() {
    let missing = [
        PayloadTable::GetRequest(None),
        PayloadTable::GetRequest(Some((None, 1))),
        PayloadTable::LookupRequest(Some((None, 1))),
        PayloadTable::GetResponse(None),
        PayloadTable::ErrorResponse(Some(None)),
        PayloadTable::LookupResponse(None),
    ];
    for payload in missing {
        let table = MessageTable { request_id: 1, payload };
        assert_eq!(decode_tables(&table), Err(ProtocolError::MissingPayload));
    }
    for payload in [PayloadTable::Empty, PayloadTable::Unknown(42)] {
        let table = MessageTable { request_id: 1, payload };
        assert_eq!(decode_tables(&table), Err(ProtocolError::UnknownPayload));
    }
}

#[test]
fn absent_ids_read_as_none() {
    assert!(decode_ids(&None).is_empty());
    let table = MessageTable { request_id: 3, payload: PayloadTable::LookupResponse(Some(None)) };
    assert_eq!(decode_tables(&table), Ok(Message::ResponseLookup { request_id: 3, ids: vec![] }));
}

#[test]
fn identifier_is_checked() {
    assert!(atlas_message_buffer_has_identifier(b"\x10\x00\x00\x00ATLS\x00\x00"));
    assert!(!atlas_message_buffer_has_identifier(b"\x10\x00\x00\x00SBSW\x00\x00"));
    assert!(!atlas_message_buffer_has_identifier(b"ATLS"));
}

#[test]
fn protocol_error_messages() {
    assert_eq!(ProtocolError::MissingPayload.message(), "atlas message missing payload");
    assert_eq!(ProtocolError::UnknownPayload.message(), "unknown atlas payload type");
    assert_eq!(ProtocolError::InvalidIdentifier.message(), "invalid atlas message identifier");
}

#[test]
fn store_get_sees_the_last_insert() {
    let mut store = AtlasStore::new();
    let uri = Uri::new("sel://acme/proc/7");
    assert_eq!(store.get(&uri), None);
    store.insert(uri.clone(), 11);
    store.insert(Uri::new("sel://acme/proc/8"), 12);
    store.insert(uri.clone(), 13);
    assert_eq!(store.get(&uri), Some(13));
    assert_eq!(store.get(&Uri::new("sel://acme/proc/8")), Some(12));
}

#[test]
fn store_remove_reports_and_drops() {
    let mut store = AtlasStore::new();
    let uri = Uri::new("sel://acme/region/1");
    store.insert(uri.clone(), 5);
    assert_eq!(store.remove(&uri), Some(5));
    assert_eq!(store.remove(&uri), None);
    assert_eq!(store.get(&uri), None);
}

#[test]
fn requests_are_answered_from_the_store() {
    let mut store = AtlasStore::new();
    let uri = Uri::new("sel://acme/queue/3");
    assert_eq!(
        handle_get(&store, 1, &uri),
        Message::ResponseGet { request_id: 1, id: 0, found: false }
    );
    assert_eq!(handle_insert(&mut store, 2, uri.clone(), 42), Message::ResponseOk { request_id: 2 });
    assert_eq!(
        handle_get(&store, 3, &uri),
        Message::ResponseGet { request_id: 3, id: 42, found: true }
    );
    assert_eq!(
        handle_remove(&mut store, 4, &uri),
        Message::ResponseRemove { request_id: 4, id: 42, found: true }
    );
    assert_eq!(
        handle_remove(&mut store, 5, &uri),
        Message::ResponseRemove { request_id: 5, id: 0, found: false }
    );
}

#[test]
fn replies_give_client_outcomes() {
    assert_eq!(get_outcome(Message::ResponseGet { request_id: 1, id: 9, found: true }), Ok(Some(9)));
    assert_eq!(get_outcome(Message::ResponseGet { request_id: 1, id: 0, found: false }), Ok(None));
    assert_eq!(
        get_outcome(Message::ResponseError { request_id: 1, message: "uri error".to_owned() }),
        Err(AtlasError::Remote("uri error".to_owned()))
    );
    assert_eq!(
        get_outcome(Message::ResponseOk { request_id: 1 }),
        Err(AtlasError::Protocol(ProtocolError::UnknownPayload))
    );
    assert_eq!(insert_outcome(Message::ResponseOk { request_id: 2 }), Ok(()));
    assert_eq!(
        insert_outcome(Message::ResponseGet { request_id: 2, id: 1, found: true }),
        Err(AtlasError::Protocol(ProtocolError::UnknownPayload))
    );
    assert_eq!(remove_outcome(Message::ResponseRemove { request_id: 3, id: 4, found: true }), Ok(Some(4)));
    assert_eq!(remove_outcome(Message::ResponseRemove { request_id: 3, id: 0, found: false }), Ok(None));
    assert_eq!(lookup_outcome(Message::ResponseLookup { request_id: 4, ids: vec![1, 2] }), Ok(vec![1, 2]));
    assert_eq!(
        lookup_outcome(Message::ResponseRemove { request_id: 4, id: 0, found: false }),
        Err(AtlasError::Protocol(ProtocolError::UnknownPayload))
    );
}

#[test]
fn a_get_after_an_insert_reads_it_back() {
    let mut store = AtlasStore::new();
    let uri = Uri::new("sel://acme/proc/1");
    insert_outcome(handle_insert(&mut store, 1, uri.clone(), 77)).expect("acknowledged");
    assert_eq!(get_outcome(handle_get(&store, 2, &uri)), Ok(Some(77)));
    assert_eq!(remove_outcome(handle_remove(&mut store, 3, &uri)), Ok(Some(77)));
    assert_eq!(get_outcome(handle_get(&store, 4, &uri)), Ok(None));
}

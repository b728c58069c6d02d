use distributed_kv::command::{decode_request, request_from_fields, Field};
use distributed_kv::facade::MyKvStore;
use distributed_kv::types::{ClientRequest, ClientResponse, DecodeError, Operation};

fn text(s: &str) -> Field {
    Field::Text(s.to_string())
}

fn request(client: &str, serial: u64, key: &str, operation: Operation) -> ClientRequest {
    ClientRequest { client: client.to_string(), serial, key: key.to_string(), operation }
}

#[test]
fn decodes_each_operation() {
    assert_eq!(
        decode_request(br#"{"client":"c1","serial":3,"key":"k","op":"set","value":"v"}"#),
        Ok(request("c1", 3, "k", Operation::Put { value: "v".to_string() }))
    );
    assert_eq!(
        decode_request(br#"{"client":"c1","serial":4,"key":"k","op":"delete"}"#),
        Ok(request("c1", 4, "k", Operation::Delete))
    );
    assert_eq!(
        decode_request(br#"{"client":"c1","serial":5,"key":"k","op":"get","value":null}"#),
        Ok(request("c1", 5, "k", Operation::Get))
    );
}

#[test]
fn decodes_a_payload_without_op() {
    assert_eq!(
        decode_request(br#"{"client":"c","serial":1,"key":"k","value":"v"}"#),
        Ok(request("c", 1, "k", Operation::Put { value: "v".to_string() }))
    );
    assert_eq!(
        decode_request(br#"{"client":"c","serial":1,"key":"k","value":null}"#),
        Ok(request("c", 1, "k", Operation::Delete))
    );
    assert_eq!(
        decode_request(br#"{"client":"c","serial":1,"key":"k"}"#),
        Ok(request("c", 1, "k", Operation::Delete))
    );
    assert_eq!(
        decode_request(br#"{"op":null,"client":"c","serial":1,"key":"k","value":"v"}"#),
        Ok(request("c", 1, "k", Operation::Put { value: "v".to_string() }))
    );
}

#[test]
fn decodes_text_outside_ascii_and_the_largest_serial() {
    let payload = "{\"client\":\"caf\u{e9}\",\"serial\":18446744073709551615,\"key\":\"\u{1f511}\",\"value\":\"a\\nb\"}";
    assert_eq!(
        decode_request(payload.as_bytes()),
        Ok(request("caf\u{e9}", u64::MAX, "\u{1f511}", Operation::Put { value: "a\nb".to_string() }))
    );
}

#[test]
fn ignores_other_members() {
    assert_eq!(
        decode_request(br#"{"client":"c","serial":0,"key":"","op":"get","extra":[1,2]}"#),
        Ok(request("c", 0, "", Operation::Get))
    );
}

#[test]
fn syntax_errors() {
    assert_eq!(decode_request(b""), Err(DecodeError::Syntax));
    assert_eq!(decode_request(b"{"), Err(DecodeError::Syntax));
    assert_eq!(decode_request(b"{\"client\":\"c\"} trailing"), Err(DecodeError::Syntax));
    assert_eq!(decode_request(&[0xff, 0xfe]), Err(DecodeError::Syntax));
}

#[test]
fn client_errors() {
    assert_eq!(decode_request(b"[]"), Err(DecodeError::Client));
    assert_eq!(decode_request(b"7"), Err(DecodeError::Client));
    assert_eq!(decode_request(br#"{"serial":1,"key":"k"}"#), Err(DecodeError::Client));
    assert_eq!(
        decode_request(br#"{"client":null,"serial":1,"key":"k"}"#),
        Err(DecodeError::Client)
    );
    assert_eq!(decode_request(br#"{"client":5,"serial":1,"key":"k"}"#), Err(DecodeError::Client));
}

#[test]
fn serial_errors() {
    assert_eq!(decode_request(br#"{"client":"c","key":"k"}"#), Err(DecodeError::Serial));
    assert_eq!(
        decode_request(br#"{"client":"c","serial":-1,"key":"k"}"#),
        Err(DecodeError::Serial)
    );
    assert_eq!(
        decode_request(br#"{"client":"c","serial":1.5,"key":"k"}"#),
        Err(DecodeError::Serial)
    );
    assert_eq!(
        decode_request(br#"{"client":"c","serial":"1","key":"k"}"#),
        Err(DecodeError::Serial)
    );
    assert_eq!(
        decode_request(br#"{"client":"c","serial":18446744073709551616,"key":"k"}"#),
        Err(DecodeError::Serial)
    );
}

#[test]
fn key_errors() {
    assert_eq!(decode_request(br#"{"client":"c","serial":1}"#), Err(DecodeError::Key));
    assert_eq!(decode_request(br#"{"client":"c","serial":1,"key":7}"#), Err(DecodeError::Key));
}

#[test]
fn operation_errors() {
    assert_eq!(
        decode_request(br#"{"client":"c","serial":1,"key":"k","op":"put"}"#),
        Err(DecodeError::Operation)
    );
    assert_eq!(
        decode_request(br#"{"client":"c","serial":1,"key":"k","op":"SET","value":"v"}"#),
        Err(DecodeError::Operation)
    );
    assert_eq!(
        decode_request(br#"{"client":"c","serial":1,"key":"k","op":1}"#),
        Err(DecodeError::Operation)
    );
}

#[test]
fn value_errors() {
    assert_eq!(
        decode_request(br#"{"client":"c","serial":1,"key":"k","op":"set"}"#),
        Err(DecodeError::Value)
    );
    assert_eq!(
        decode_request(br#"{"client":"c","serial":1,"key":"k","op":"set","value":3}"#),
        Err(DecodeError::Value)
    );
    assert_eq!(
        decode_request(br#"{"client":"c","serial":1,"key":"k","op":"get","value":"v"}"#),
        Err(DecodeError::Value)
    );
    assert_eq!(
        decode_request(br#"{"client":"c","serial":1,"key":"k","op":"delete","value":"v"}"#),
        Err(DecodeError::Value)
    );
    assert_eq!(
        decode_request(br#"{"client":"c","serial":1,"key":"k","value":{"a":1}}"#),
        Err(DecodeError::Value)
    );
}

#[test]
fn first_fault_is_reported() {
    assert_eq!(decode_request(br#"{"op":"bogus"}"#), Err(DecodeError::Client));
    assert_eq!(decode_request(br#"{"client":"c","op":"bogus"}"#), Err(DecodeError::Serial));
    assert_eq!(
        decode_request(br#"{"client":"c","serial":1,"op":"bogus"}"#),
        Err(DecodeError::Key)
    );
}

#[test]
fn fields_to_request() {
    assert_eq!(
        request_from_fields(text("c"), Some(9), text("k"), text("set"), text("v")),
        Ok(request("c", 9, "k", Operation::Put { value: "v".to_string() }))
    );
    assert_eq!(
        request_from_fields(text("c"), Some(9), text("k"), Field::Absent, Field::Null),
        Ok(request("c", 9, "k", Operation::Delete))
    );
    assert_eq!(
        request_from_fields(text("c"), Some(9), text("k"), text("get"), Field::Absent),
        Ok(request("c", 9, "k", Operation::Get))
    );
    assert_eq!(
        request_from_fields(Field::Other, Some(9), text("k"), text("get"), Field::Absent),
        Err(DecodeError::Client)
    );
    assert_eq!(
        request_from_fields(text("c"), None, text("k"), text("get"), Field::Absent),
        Err(DecodeError::Serial)
    );
    assert_eq!(
        request_from_fields(text("c"), Some(9), Field::Null, text("get"), Field::Absent),
        Err(DecodeError::Key)
    );
    assert_eq!(
        request_from_fields(text("c"), Some(9), text("k"), Field::Other, Field::Absent),
        Err(DecodeError::Operation)
    );
    assert_eq!(
        request_from_fields(text("c"), Some(9), text("k"), Field::Null, Field::Other),
        Err(DecodeError::Value)
    );
}

#[test]
fn facade_issues_fresh_serials() {
    let mut session = MyKvStore::new("client-1".to_string());
    assert_eq!(
        session.set("k".to_string(), "v".to_string()),
        Some(request("client-1", 1, "k", Operation::Put { value: "v".to_string() }))
    );
    assert_eq!(session.get("k".to_string()), Some(request("client-1", 2, "k", Operation::Get)));
    assert_eq!(
        session.delete("k".to_string()),
        Some(request("client-1", 3, "k", Operation::Delete))
    );
}

#[test]
fn default_facade_has_the_empty_name() {
    let mut session = MyKvStore::default();
    assert_eq!(session.get("k".to_string()), Some(request("", 1, "k", Operation::Get)));
}

#[test]
fn facade_reply_text() {
    assert_eq!(MyKvStore::reply(&ClientResponse { value: Some("v".to_string()) }), "v");
    assert_eq!(MyKvStore::reply(&ClientResponse { value: None }), "");
}

#[test]
fn operation_members_are_read_back() {
    for operation in
        [Operation::Put { value: "v".to_string() }, Operation::Delete, Operation::Get]
    {
        let (op, value) = distributed_kv::command::operation_members(&operation);
        assert_eq!(
            request_from_fields(text("c"), Some(1), text("k"), op, value),
            Ok(request("c", 1, "k", operation))
        );
    }
    let (op, value) = distributed_kv::command::operation_members(&Operation::Delete);
    assert!(matches!(op, Field::Text(name) if name == "delete"));
    assert!(matches!(value, Field::Absent));
}

//! Reading a command out of the payload of a log entry.
//!
//! A payload is a JSON object. Its members `client`, `key` (strings) and
//! `serial` (an unsigned 64-bit integer) are required. The member `op` names
//! the operation: `"set"`, `"delete"` or `"get"`. `"set"` takes a string member
//! `value`; the other two take none. A payload without `op` is a `"set"` if
//! it has a string `value`, and a `"delete"` if it has none. A member that is
//! `null` counts as missing. Other members are ignored.

use vstd::prelude::*;
use crate::json::{
    json_document, json_member, json_null, json_text, json_unsigned, member, parse_document,
};
use crate::types::{ClientRequest, ClientRequestView, DecodeError, Operation, OperationView};

verus! {

/// What the payload holds under one member name, as far as decoding cares.
#[derive(Debug)]
pub enum Field {
    /// No such member, or the document is no object.
    Absent,
    /// The member is `null`.
    Null,
    /// The member is a string.
    Text(String),
    /// The member is something else.
    Other,
}

/// What a [`Field`] holds.
pub enum FieldView {
    Absent,
    Null,
    Text(Seq<char>),
    Other,
}

impl View for Field {
    type V = FieldView;

    open spec fn view(&self) -> FieldView {
        match self {
            Field::Absent => FieldView::Absent,
            Field::Null => FieldView::Null,
            Field::Text(t) => FieldView::Text(t@),
            Field::Other => FieldView::Other,
        }
    }
}

impl FieldView {
    /// Whether the member counts as missing.
    pub open spec fn missing(self) -> bool {
        self is Absent || self is Null
    }
}

/// The operation that the members `op` and `value` describe.
pub open spec fn operation_of(op: FieldView, value: FieldView) -> Result<
    OperationView,
    DecodeError,
> {
    match op {
        FieldView::Absent | FieldView::Null => match value {
            FieldView::Text(v) => Ok(OperationView::Put { value: v }),
            FieldView::Absent | FieldView::Null => Ok(OperationView::Delete),
            FieldView::Other => Err(DecodeError::Value),
        },
        FieldView::Text(name) => if name == "set"@ {
            match value {
                FieldView::Text(v) => Ok(OperationView::Put { value: v }),
                _ => Err(DecodeError::Value),
            }
        } else if name == "delete"@ {
            if value.missing() {
                Ok(OperationView::Delete)
            } else {
                Err(DecodeError::Value)
            }
        } else if name == "get"@ {
            if value.missing() {
                Ok(OperationView::Get)
            } else {
                Err(DecodeError::Value)
            }
        } else {
            Err(DecodeError::Operation)
        },
        FieldView::Other => Err(DecodeError::Operation),
    }
}

/// The member `op` that names `operation`.
pub open spec fn op_field_of(operation: OperationView) -> FieldView {
    match operation {
        OperationView::Put { .. } => FieldView::Text("set"@),
        OperationView::Delete => FieldView::Text("delete"@),
        OperationView::Get => FieldView::Text("get"@),
    }
}

/// The member `value` that goes with `operation`.
pub open spec fn value_field_of(operation: OperationView) -> FieldView {
    match operation {
        OperationView::Put { value } => FieldView::Text(value),
        _ => FieldView::Absent,
    }
}

/// An operation is read back from the members `op` and `value` under which
/// it is written.
pub proof fn law_operation_members_round_trip(operation: OperationView)
    ensures
        operation_of(op_field_of(operation), value_field_of(operation)) == Ok::<
            OperationView,
            DecodeError,
        >(operation),
{
    reveal_strlit("set");
    reveal_strlit("delete");
    reveal_strlit("get");
    assert("get"@[0] != "set"@[0]);
}

/// The members `op` and `value` under which a payload carries `operation`.
pub fn operation_members(operation: &Operation) -> (r: (Field, Field))
    ensures
        r.0@ == op_field_of(operation@),
        r.1@ == value_field_of(operation@),
{
    match operation {
        Operation::Put { value } => (Field::Text("set".to_owned()), Field::Text(value.clone())),
        Operation::Delete => (Field::Text("delete".to_owned()), Field::Absent),
        Operation::Get => (Field::Text("get".to_owned()), Field::Absent),
    }
}

/// The command that five members describe, or the first thing wrong with
/// them, in the order client, serial, key, operation, value.
pub open spec fn request_of(
    client: FieldView,
    serial: Option<u64>,
    key: FieldView,
    op: FieldView,
    value: FieldView,
) -> Result<ClientRequestView, DecodeError> {
    if !(client is Text) {
        Err(DecodeError::Client)
    } else if serial is None {
        Err(DecodeError::Serial)
    } else if !(key is Text) {
        Err(DecodeError::Key)
    } else {
        match operation_of(op, value) {
            Ok(operation) => Ok(
                ClientRequestView {
                    client: client->Text_0,
                    serial: serial->0,
                    key: key->Text_0,
                    operation,
                },
            ),
            Err(e) => Err(e),
        }
    }
}

/// Whether `r` is the exec form of the decoding outcome `want`.
pub open spec fn decodes_as(
    r: Result<ClientRequest, DecodeError>,
    want: Result<ClientRequestView, DecodeError>,
) -> bool {
    match r {
        Ok(req) => want == Ok::<ClientRequestView, DecodeError>(req@),
        Err(e) => want == Err::<ClientRequestView, DecodeError>(e),
    }
}

fn read_operation(op: Field, value: Field) -> (r: Result<Operation, DecodeError>)
    ensures
        match r {
            Ok(o) => operation_of(op@, value@) == Ok::<OperationView, DecodeError>(o@),
            Err(e) => operation_of(op@, value@) == Err::<OperationView, DecodeError>(e),
        },
{
    match op {
        Field::Absent | Field::Null => match value {
            Field::Text(v) => Ok(Operation::Put { value: v }),
            Field::Absent | Field::Null => Ok(Operation::Delete),
            Field::Other => Err(DecodeError::Value),
        },
        Field::Text(name) => {
            let missing = match value {
                Field::Absent | Field::Null => true,
                _ => false,
            };
            if name == "set".to_owned() {
                match value {
                    Field::Text(v) => Ok(Operation::Put { value: v }),
                    _ => Err(DecodeError::Value),
                }
            } else if name == "delete".to_owned() {
                if missing {
                    Ok(Operation::Delete)
                } else {
                    Err(DecodeError::Value)
                }
            } else if name == "get".to_owned() {
                if missing {
                    Ok(Operation::Get)
                } else {
                    Err(DecodeError::Value)
                }
            } else {
                Err(DecodeError::Operation)
            }
        },
        Field::Other => Err(DecodeError::Operation),
    }
}

/// Builds the command that five members of a payload describe.
pub fn request_from_fields(
    client: Field,
    serial: Option<u64>,
    key: Field,
    op: Field,
    value: Field,
) -> (r: Result<ClientRequest, DecodeError>)
    ensures
        decodes_as(r, request_of(client@, serial, key@, op@, value@)),
{
    let client = match client {
        Field::Text(c) => c,
        _ => { return Err(DecodeError::Client); },
    };
    let serial = match serial {
        Some(s) => s,
        None => { return Err(DecodeError::Serial); },
    };
    let key = match key {
        Field::Text(k) => k,
        _ => { return Err(DecodeError::Key); },
    };
    match read_operation(op, value) {
        Ok(operation) => Ok(ClientRequest { client, serial, key, operation }),
        Err(e) => Err(e),
    }
}

/// What the document `doc` holds under `name`.
pub open spec fn field_of(doc: serde_json::Value, name: Seq<char>) -> FieldView {
    match json_member(doc, name) {
        None => FieldView::Absent,
        Some(m) => if json_null(m) {
            FieldView::Null
        } else {
            match json_text(m) {
                Some(t) => FieldView::Text(t),
                None => FieldView::Other,
            }
        },
    }
}

/// The number that the document `doc` holds under `name`, if it is one that
/// fits `u64`.
pub open spec fn unsigned_of(doc: serde_json::Value, name: Seq<char>) -> Option<u64> {
    match json_member(doc, name) {
        None => None,
        Some(m) => json_unsigned(m),
    }
}

/// The command that a payload holds, or why it holds none.
pub open spec fn decoded(payload: Seq<u8>) -> Result<ClientRequestView, DecodeError> {
    match json_document(payload) {
        None => Err(DecodeError::Syntax),
        Some(doc) => request_of(
            field_of(doc, "client"@),
            unsigned_of(doc, "serial"@),
            field_of(doc, "key"@),
            field_of(doc, "op"@),
            field_of(doc, "value"@),
        ),
    }
}

fn read_field(doc: &serde_json::Value, name: &str) -> (r: Field)
    ensures
        r@ == field_of(*doc, name@),
{
    match member(doc, name) {
        None => Field::Absent,
        Some(m) => if m.is_null() {
            Field::Null
        } else {
            match m.as_str() {
                Some(t) => Field::Text(t.to_owned()),
                None => Field::Other,
            }
        },
    }
}

fn read_unsigned(doc: &serde_json::Value, name: &str) -> (r: Option<u64>)
    ensures
        r == unsigned_of(*doc, name@),
{
    match member(doc, name) {
        None => None,
        Some(m) => m.as_u64(),
    }
}

/// Decodes the command in the payload of a log entry.
pub fn decode_request(payload: &[u8]) -> (r: Result<ClientRequest, DecodeError>)
    ensures
        decodes_as(r, decoded(payload@)),
{
    match parse_document(payload) {
        Err(_) => Err(DecodeError::Syntax),
        Ok(doc) => {
            let client = read_field(&doc, "client");
            let serial = read_unsigned(&doc, "serial");
            let key = read_field(&doc, "key");
            let op = read_field(&doc, "op");
            let value = read_field(&doc, "value");
            request_from_fields(client, serial, key, op, value)
        },
    }
}

} // verus!

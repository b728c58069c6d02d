//! The client façade's part in the protocol: it turns a client's get, set and
//! delete calls into commands, each with a serial that the client has not used
//! before, so that a command sent again after a redirect is recognised by the
//! state machine.

use vstd::prelude::*;
use crate::types::{ClientRequest, ClientRequestView, ClientResponse, Operation, OperationView};

verus! {

/// The commands of one client session.
#[derive(Debug)]
pub struct MyKvStore {
    client: String,
    issued: u64,
}

/// What a [`MyKvStore`] holds: the client's name and the serial of the last
/// command issued, 0 where none was.
pub struct MyKvStoreView {
    pub client: Seq<char>,
    pub issued: u64,
}

impl MyKvStoreView {
    /// The command that the session issues next for `key` and `operation`.
    pub open spec fn command(self, key: Seq<char>, operation: OperationView) -> ClientRequestView
        recommends
            self.issued < u64::MAX,
    {
        ClientRequestView {
            client: self.client,
            serial: (self.issued + 1) as u64,
            key,
            operation,
        }
    }

    /// The session once it has issued one more command.
    pub open spec fn advanced(self) -> MyKvStoreView
        recommends
            self.issued < u64::MAX,
    {
        MyKvStoreView { client: self.client, issued: (self.issued + 1) as u64 }
    }
}

impl View for MyKvStore {
    type V = MyKvStoreView;

    closed spec fn view(&self) -> MyKvStoreView {
        MyKvStoreView { client: self.client@, issued: self.issued }
    }
}

impl Default for MyKvStore {
    /// The session of the client with the empty name.
    fn default() -> (r: Self)
        ensures
            r@ == (MyKvStoreView { client: Seq::empty(), issued: 0 }),
    {
        MyKvStore { client: String::new(), issued: 0 }
    }
}

impl MyKvStore {
    /// A session of the client called `client` that has issued nothing.
    pub fn new(client: String) -> (r: Self)
        ensures
            r@ == (MyKvStoreView { client: client@, issued: 0 }),
    {
        MyKvStore { client, issued: 0 }
    }

    fn issue(&mut self, key: String, operation: Operation) -> (r: Option<ClientRequest>)
        ensures
            match r {
                Some(request) => old(self)@.issued < u64::MAX && request@ == old(self)@.command(
                    key@,
                    operation@,
                ) && final(self)@ == old(self)@.advanced(),
                None => old(self)@.issued == u64::MAX && final(self)@ == old(self)@,
            },
    {
        if self.issued == u64::MAX {
            return None;
        }
        self.issued = self.issued + 1;
        Some(ClientRequest { client: self.client.clone(), serial: self.issued, key, operation })
    }

    /// The command that reads `key`, under the session's next serial. `None`
    /// once the serials are used up.
    pub fn get(&mut self, key: String) -> (r: Option<ClientRequest>)
        ensures
            match r {
                Some(request) => old(self)@.issued < u64::MAX && request@ == old(self)@.command(
                    key@,
                    OperationView::Get,
                ) && final(self)@ == old(self)@.advanced(),
                None => old(self)@.issued == u64::MAX && final(self)@ == old(self)@,
            },
    {
        self.issue(key, Operation::Get)
    }

    /// The command that binds `key` to `value`, under the session's next
    /// serial. `None` once the serials are used up.
    pub fn set(&mut self, key: String, value: String) -> (r: Option<ClientRequest>)
        ensures
            match r {
                Some(request) => old(self)@.issued < u64::MAX && request@ == old(self)@.command(
                    key@,
                    OperationView::Put { value: value@ },
                ) && final(self)@ == old(self)@.advanced(),
                None => old(self)@.issued == u64::MAX && final(self)@ == old(self)@,
            },
    {
        self.issue(key, Operation::Put { value })
    }

    /// The command that unbinds `key`, under the session's next serial.
    /// `None` once the serials are used up.
    pub fn delete(&mut self, key: String) -> (r: Option<ClientRequest>)
        ensures
            match r {
                Some(request) => old(self)@.issued < u64::MAX && request@ == old(self)@.command(
                    key@,
                    OperationView::Delete,
                ) && final(self)@ == old(self)@.advanced(),
                None => old(self)@.issued == u64::MAX && final(self)@ == old(self)@,
            },
    {
        self.issue(key, Operation::Delete)
    }

    /// The text of the reply to a read: the value read, or the empty text
    /// where the key was not bound.
    pub fn reply(response: &ClientResponse) -> (r: String)
        ensures
            r@ == match response@ {
                Some(v) => v,
                None => Seq::empty(),
            },
    {
        match &response.value {
            Some(v) => v.clone(),
            None => String::new(),
        }
    }
}

} // verus!

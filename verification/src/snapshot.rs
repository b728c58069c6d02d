//! Snapshots: a checkpoint of the key-value map and of the client sessions,
//! with the log position that it covers, and the blob that it is persisted
//! and sent as.

use vstd::prelude::*;
use crate::codec::{
    holds, join, lemma_holds_both, lemma_parse_list_start, lemma_parse_list_step,
    lemma_read_back_list, lemma_read_back_opt_text, lemma_read_back_text, lemma_read_back_u64,
    lemma_ser_list_push, opt_text_fits, parse_list, parse_opt_text, parse_text, parse_u64,
    reads_back, ser_list, ser_opt_text, ser_text, ser_u64, text_fits, get_opt_text, get_text,
    get_u64, put_opt_text, put_text, put_u64,
};
use crate::table::{Duplicate, Table};
use crate::types::{ClientResponse, LogId};

verus! {

/// What the state machine remembers of a client: the serial of the last
/// command it applied for that client, and the answer it gave.
#[derive(Debug, PartialEq, Eq)]
pub struct Session {
    pub serial: u64,
    pub response: ClientResponse,
}

/// What a [`Session`] holds.
pub struct SessionView {
    pub serial: u64,
    pub response: Option<Seq<char>>,
}

impl View for Session {
    type V = SessionView;

    open spec fn view(&self) -> SessionView {
        SessionView { serial: self.serial, response: self.response@ }
    }
}

impl Duplicate for Session {
    fn duplicate(&self) -> (r: Self) {
        Session { serial: self.serial, response: self.response.clone() }
    }
}

/// A checkpoint of the state machine: the key-value map and the client
/// sessions as they were once the entry at `last_included` had been applied.
#[derive(Debug)]
pub struct Snapshot {
    pub last_included: Option<LogId>,
    pub data: Table<String>,
    pub sessions: Table<Session>,
}

/// What a [`Snapshot`] holds.
pub struct SnapshotView {
    pub last_included: Option<LogId>,
    pub data: Map<Seq<char>, Seq<char>>,
    pub sessions: Map<Seq<char>, SessionView>,
}

impl View for Snapshot {
    type V = SnapshotView;

    open spec fn view(&self) -> SnapshotView {
        SnapshotView {
            last_included: self.last_included,
            data: self.data@,
            sessions: self.sessions@,
        }
    }
}

impl Clone for Snapshot {
    fn clone(&self) -> (r: Self)
        ensures
            r@ == self@,
    {
        Snapshot {
            last_included: self.last_included,
            data: self.data.clone(),
            sessions: self.sessions.clone(),
        }
    }
}

/// The bindings of `map` in the order `order` of its keys.
pub open spec fn listing<V>(order: Seq<Seq<char>>, map: Map<Seq<char>, V>) -> Seq<(Seq<char>, V)> {
    Seq::new(order.len(), |i: int| (order[i], map[order[i]]))
}

/// The map that binds, one after the other, each key of `items` to its value.
pub open spec fn map_of<V>(items: Seq<(Seq<char>, V)>) -> Map<Seq<char>, V>
    decreases items.len(),
{
    if items.len() == 0 {
        Map::empty()
    } else {
        map_of(items.drop_last()).insert(items.last().0, items.last().1)
    }
}

/// Whether `order` lists the keys of `map`.
pub open spec fn lists_keys<V>(order: Seq<Seq<char>>, map: Map<Seq<char>, V>) -> bool {
    forall|k: Seq<char>| order.contains(k) <==> map.contains_key(k)
}

proof fn lemma_map_of_listing<V>(order: Seq<Seq<char>>, map: Map<Seq<char>, V>)
    requires
        forall|i: int| 0 <= i < order.len() ==> map.contains_key(#[trigger] order[i]),
    ensures
        map_of(listing(order, map)) == map.restrict(order.to_set()),
    decreases order.len(),
{
    let items = listing(order, map);
    if order.len() == 0 {
        assert(map_of(items) =~= map.restrict(order.to_set()));
    } else {
        let shorter = order.drop_last();
        assert(items.drop_last() =~= listing(shorter, map));
        assert forall|i: int| 0 <= i < shorter.len() implies map.contains_key(
            #[trigger] shorter[i],
        ) by {
            assert(shorter[i] == order[i]);
        }
        lemma_map_of_listing(shorter, map);
        assert forall|k: Seq<char>| order.to_set().contains(k) <==> (shorter.to_set().contains(k)
            || k == order.last()) by {
            if order.to_set().contains(k) {
                let i = choose|i: int| 0 <= i < order.len() && order[i] == k;
                if i < shorter.len() {
                    assert(shorter[i] == k);
                }
            }
            if shorter.to_set().contains(k) {
                let i = choose|i: int| 0 <= i < shorter.len() && shorter[i] == k;
                assert(order[i] == k);
            }
            if k == order.last() {
                assert(order[order.len() - 1] == k);
            }
        }
        assert(map_of(items) =~= map.restrict(order.to_set()));
    }
}

/// A map is what its listing binds.
pub proof fn lemma_listing_round_trip<V>(order: Seq<Seq<char>>, map: Map<Seq<char>, V>)
    requires
        lists_keys(order, map),
    ensures
        map_of(listing(order, map)) == map,
{
    assert forall|i: int| 0 <= i < order.len() implies map.contains_key(#[trigger] order[i]) by {
        assert(order.contains(order[i]));
    }
    lemma_map_of_listing(order, map);
    assert(map.restrict(order.to_set()) =~= map);
}

/// The bytes of an optional log position.
pub open spec fn ser_opt_id(id: Option<LogId>) -> Seq<u8> {
    match id {
        None => seq![0u8],
        Some(id) => seq![1u8] + ser_u64(id.term) + ser_u64(id.index),
    }
}

/// The optional log position that stands in `bytes` at `at`, and the
/// position after it.
pub open spec fn parse_opt_id(bytes: Seq<u8>, at: int) -> Option<(Option<LogId>, int)> {
    if 0 <= at < bytes.len() {
        if bytes[at] == 0 {
            Some((None, at + 1))
        } else if bytes[at] == 1 {
            match parse_u64(bytes, at + 1) {
                Some((term, p)) => match parse_u64(bytes, p) {
                    Some((index, q)) => Some((Some(LogId { term, index }), q)),
                    None => None,
                },
                None => None,
            }
        } else {
            None
        }
    } else {
        None
    }
}

/// The bytes of one binding of the key-value map.
pub open spec fn ser_binding(binding: (Seq<char>, Seq<char>)) -> Seq<u8> {
    ser_text(binding.0) + ser_text(binding.1)
}

/// The binding that stands in `bytes` at `at`, and the position after it.
pub open spec fn parse_binding(bytes: Seq<u8>, at: int) -> Option<((Seq<char>, Seq<char>), int)> {
    match parse_text(bytes, at) {
        Some((key, p)) => match parse_text(bytes, p) {
            Some((value, q)) => Some(((key, value), q)),
            None => None,
        },
        None => None,
    }
}

/// The bytes of one client session.
pub open spec fn ser_session(session: (Seq<char>, SessionView)) -> Seq<u8> {
    ser_text(session.0) + ser_u64(session.1.serial) + ser_opt_text(session.1.response)
}

/// The client session that stands in `bytes` at `at`, and the position after
/// it.
pub open spec fn parse_session(bytes: Seq<u8>, at: int) -> Option<((Seq<char>, SessionView), int)> {
    match parse_text(bytes, at) {
        Some((client, p)) => match parse_u64(bytes, p) {
            Some((serial, q)) => match parse_opt_text(bytes, q) {
                Some((response, r)) => Some(((client, SessionView { serial, response }), r)),
                None => None,
            },
            None => None,
        },
        None => None,
    }
}

/// `ser_binding` as a value.
pub open spec fn binding_writer() -> spec_fn((Seq<char>, Seq<char>)) -> Seq<u8> {
    |binding: (Seq<char>, Seq<char>)| ser_binding(binding)
}

/// `parse_binding` as a value.
pub open spec fn binding_reader() -> spec_fn(Seq<u8>, int) -> Option<
    ((Seq<char>, Seq<char>), int),
> {
    |bytes: Seq<u8>, at: int| parse_binding(bytes, at)
}

/// `ser_session` as a value.
pub open spec fn session_writer() -> spec_fn((Seq<char>, SessionView)) -> Seq<u8> {
    |session: (Seq<char>, SessionView)| ser_session(session)
}

/// `parse_session` as a value.
pub open spec fn session_reader() -> spec_fn(Seq<u8>, int) -> Option<
    ((Seq<char>, SessionView), int),
> {
    |bytes: Seq<u8>, at: int| parse_session(bytes, at)
}

/// Whether a binding can be written.
pub open spec fn binding_fits(binding: (Seq<char>, Seq<char>)) -> bool {
    text_fits(binding.0) && text_fits(binding.1)
}

/// Whether a client session can be written.
pub open spec fn session_fits(session: (Seq<char>, SessionView)) -> bool {
    text_fits(session.0) && opt_text_fits(session.1.response)
}

/// Whether the bindings and sessions of a snapshot can be written.
pub open spec fn listings_fit(
    data: Seq<(Seq<char>, Seq<char>)>,
    sessions: Seq<(Seq<char>, SessionView)>,
) -> bool {
    &&& data.len() <= u64::MAX
    &&& sessions.len() <= u64::MAX
    &&& forall|i: int| 0 <= i < data.len() ==> binding_fits(#[trigger] data[i])
    &&& forall|i: int| 0 <= i < sessions.len() ==> session_fits(#[trigger] sessions[i])
}

proof fn lemma_read_back_opt_id(bytes: Seq<u8>, at: int, id: Option<LogId>)
    requires
        holds(bytes, at, ser_opt_id(id)),
    ensures
        parse_opt_id(bytes, at) == Some((id, at + ser_opt_id(id).len())),
{
    assert(bytes[at] == bytes.subrange(at, at + ser_opt_id(id).len())[0]);
    match id {
        None => {},
        Some(id) => {
            lemma_holds_both(bytes, at, seq![1u8] + ser_u64(id.term), ser_u64(id.index));
            lemma_holds_both(bytes, at, seq![1u8], ser_u64(id.term));
            lemma_read_back_u64(bytes, at + 1, id.term);
            lemma_read_back_u64(bytes, at + 9, id.index);
        },
    }
}

proof fn lemma_read_back_binding(bytes: Seq<u8>, at: int, binding: (Seq<char>, Seq<char>))
    requires
        binding_fits(binding),
        holds(bytes, at, ser_binding(binding)),
    ensures
        parse_binding(bytes, at) == Some((binding, at + ser_binding(binding).len())),
{
    lemma_holds_both(bytes, at, ser_text(binding.0), ser_text(binding.1));
    lemma_read_back_text(bytes, at, binding.0);
    lemma_read_back_text(bytes, at + ser_text(binding.0).len(), binding.1);
}

proof fn lemma_read_back_session(bytes: Seq<u8>, at: int, session: (Seq<char>, SessionView))
    requires
        session_fits(session),
        holds(bytes, at, ser_session(session)),
    ensures
        parse_session(bytes, at) == Some((session, at + ser_session(session).len())),
{
    let head = ser_text(session.0) + ser_u64(session.1.serial);
    lemma_holds_both(bytes, at, head, ser_opt_text(session.1.response));
    lemma_holds_both(bytes, at, ser_text(session.0), ser_u64(session.1.serial));
    lemma_read_back_text(bytes, at, session.0);
    lemma_read_back_u64(bytes, at + ser_text(session.0).len(), session.1.serial);
    lemma_read_back_opt_text(bytes, at + head.len(), session.1.response);
}

/// The bytes of a snapshot that covers the log up to `last_included` and
/// holds the bindings `data` and the sessions `sessions`.
pub open spec fn ser_snapshot(
    last_included: Option<LogId>,
    data: Seq<(Seq<char>, Seq<char>)>,
    sessions: Seq<(Seq<char>, SessionView)>,
) -> Seq<u8> {
    ser_opt_id(last_included) + ser_u64(data.len() as u64) + ser_list(data, binding_writer())
        + ser_u64(sessions.len() as u64) + ser_list(sessions, session_writer())
}

/// The snapshot that `bytes` hold, where they hold one from end to end. A
/// key that stands twice is bound to the value that stands last.
pub open spec fn parse_snapshot(bytes: Seq<u8>) -> Option<SnapshotView> {
    match parse_opt_id(bytes, 0) {
        Some((last_included, p)) => match parse_u64(bytes, p) {
            Some((data_count, q)) => match parse_list(
                bytes,
                q,
                data_count as nat,
                binding_reader(),
            ) {
                Some((data, r)) => match parse_u64(bytes, r) {
                    Some((session_count, s)) => match parse_list(
                        bytes,
                        s,
                        session_count as nat,
                        session_reader(),
                    ) {
                        Some((sessions, end)) => if end == bytes.len() {
                            Some(
                                SnapshotView {
                                    last_included,
                                    data: map_of(data),
                                    sessions: map_of(sessions),
                                },
                            )
                        } else {
                            None
                        },
                        None => None,
                    },
                    None => None,
                },
                None => None,
            },
            None => None,
        },
        None => None,
    }
}

/// Snapshot round trip through bytes: the blob written for a snapshot, with
/// its bindings and sessions in any order, is read back as that snapshot.
pub proof fn law_snapshot_blob_round_trip(
    snapshot: SnapshotView,
    data_order: Seq<Seq<char>>,
    session_order: Seq<Seq<char>>,
)
    requires
        lists_keys(data_order, snapshot.data),
        lists_keys(session_order, snapshot.sessions),
        listings_fit(
            listing(data_order, snapshot.data),
            listing(session_order, snapshot.sessions),
        ),
    ensures
        parse_snapshot(
            ser_snapshot(
                snapshot.last_included,
                listing(data_order, snapshot.data),
                listing(session_order, snapshot.sessions),
            ),
        ) == Some(snapshot),
{
    let data = listing(data_order, snapshot.data);
    let sessions = listing(session_order, snapshot.sessions);
    let bytes = ser_snapshot(snapshot.last_included, data, sessions);
    let part1 = ser_opt_id(snapshot.last_included);
    let part2 = ser_u64(data.len() as u64);
    let part3 = ser_list(data, binding_writer());
    let part4 = ser_u64(sessions.len() as u64);
    let part5 = ser_list(sessions, session_writer());
    assert(bytes.subrange(0, bytes.len() as int) =~= bytes);
    lemma_holds_both(bytes, 0, part1 + part2 + part3 + part4, part5);
    lemma_holds_both(bytes, 0, part1 + part2 + part3, part4);
    lemma_holds_both(bytes, 0, part1 + part2, part3);
    lemma_holds_both(bytes, 0, part1, part2);
    lemma_read_back_opt_id(bytes, 0, snapshot.last_included);
    let p = part1.len() as int;
    lemma_read_back_u64(bytes, p, data.len() as u64);
    assert forall|i: int| 0 <= i < data.len() implies reads_back(
        #[trigger] data[i],
        binding_writer(),
        binding_reader(),
    ) by {
        let item = data[i];
        assert forall|b: Seq<u8>, a: int| #[trigger]
            holds(b, a, binding_writer()(item)) implies binding_reader()(b, a) == Some(
            (item, a + binding_writer()(item).len()),
        ) by {
            lemma_read_back_binding(b, a, item);
        }
    }
    lemma_read_back_list(bytes, p + 8, data, binding_writer(), binding_reader());
    let r = p + 8 + part3.len();
    lemma_read_back_u64(bytes, r, sessions.len() as u64);
    assert forall|i: int| 0 <= i < sessions.len() implies reads_back(
        #[trigger] sessions[i],
        session_writer(),
        session_reader(),
    ) by {
        let item = sessions[i];
        assert forall|b: Seq<u8>, a: int| #[trigger]
            holds(b, a, session_writer()(item)) implies session_reader()(b, a) == Some(
            (item, a + session_writer()(item).len()),
        ) by {
            lemma_read_back_session(b, a, item);
        }
    }
    lemma_read_back_list(bytes, r + 8, sessions, session_writer(), session_reader());
    lemma_listing_round_trip(data_order, snapshot.data);
    lemma_listing_round_trip(session_order, snapshot.sessions);
}

fn put_opt_id(out: &mut Vec<u8>, id: Option<LogId>)
    ensures
        final(out)@ == old(out)@ + ser_opt_id(id),
{
    match id {
        None => {
            out.push(0u8);
            assert(out@ =~= old(out)@ + seq![0u8]);
        },
        Some(id) => {
            out.push(1u8);
            put_u64(out, id.term);
            put_u64(out, id.index);
            assert(out@ =~= old(out)@ + (seq![1u8] + ser_u64(id.term) + ser_u64(id.index)));
        },
    }
}

fn get_opt_id(bytes: &[u8], at: usize) -> (r: Option<(Option<LogId>, usize)>)
    ensures
        match r {
            Some((id, p)) => parse_opt_id(bytes@, at as int) == Some((id, p as int)),
            None => parse_opt_id(bytes@, at as int) is None,
        },
{
    if at >= bytes.len() {
        return None;
    }
    let tag = bytes[at];
    if tag == 0 {
        Some((None, at + 1))
    } else if tag == 1 {
        let (term, p) = match get_u64(bytes, at + 1) {
            Some(found) => found,
            None => { return None; },
        };
        match get_u64(bytes, p) {
            Some((index, q)) => Some((Some(LogId { term, index }), q)),
            None => None,
        }
    } else {
        None
    }
}

fn put_bindings(out: &mut Vec<u8>, table: &Table<String>)
    ensures
        final(out)@ == old(out)@ + ser_u64(table.key_order().len() as u64) + ser_list(
            listing(table.key_order(), table@),
            binding_writer(),
        ),
        table.key_order().len() <= u64::MAX,
        lists_keys(table.key_order(), table@),
        forall|i: int|
            0 <= i < table.key_order().len() ==> binding_fits(
                #[trigger] listing(table.key_order(), table@)[i],
            ),
{
    let n = table.len();
    put_u64(out, n as u64);
    let ghost start = out@;
    let ghost items = listing(table.key_order(), table@);
    let mut i: usize = 0;
    assert(items.take(0) =~= Seq::<(Seq<char>, Seq<char>)>::empty());
    assert(out@ =~= start + ser_list(items.take(0), binding_writer()));
    while i < n
        invariant
            i <= n,
            n == table.key_order().len(),
            items == listing(table.key_order(), table@),
            out@ == start + ser_list(items.take(i as int), binding_writer()),
            forall|k: int| 0 <= k < i ==> binding_fits(#[trigger] items[k]),
        decreases n - i,
    {
        let ghost before = out@;
        let ghost item = items[i as int];
        if let Some((key, value)) = table.binding_at(i) {
            put_text(out, key);
            put_text(out, value);
            assert(item == (key@, value@));
        }
        proof {
            assert(out@ =~= before + binding_writer()(item));
            lemma_ser_list_push(items.take(i as int), item, binding_writer());
            assert(items.take(i as int).push(item) =~= items.take(i + 1));
            assert(out@ =~= start + ser_list(items.take(i + 1), binding_writer()));
        }
        i += 1;
    }
    assert(items.take(i as int) =~= items);
}

fn put_sessions(out: &mut Vec<u8>, table: &Table<Session>)
    ensures
        final(out)@ == old(out)@ + ser_u64(table.key_order().len() as u64) + ser_list(
            listing(table.key_order(), table@),
            session_writer(),
        ),
        table.key_order().len() <= u64::MAX,
        lists_keys(table.key_order(), table@),
        forall|i: int|
            0 <= i < table.key_order().len() ==> session_fits(
                #[trigger] listing(table.key_order(), table@)[i],
            ),
{
    let n = table.len();
    put_u64(out, n as u64);
    let ghost start = out@;
    let ghost items = listing(table.key_order(), table@);
    let mut i: usize = 0;
    assert(items.take(0) =~= Seq::<(Seq<char>, SessionView)>::empty());
    assert(out@ =~= start + ser_list(items.take(0), session_writer()));
    while i < n
        invariant
            i <= n,
            n == table.key_order().len(),
            items == listing(table.key_order(), table@),
            out@ == start + ser_list(items.take(i as int), session_writer()),
            forall|k: int| 0 <= k < i ==> session_fits(#[trigger] items[k]),
        decreases n - i,
    {
        let ghost before = out@;
        let ghost item = items[i as int];
        if let Some((client, session)) = table.binding_at(i) {
            put_text(out, client);
            put_u64(out, session.serial);
            put_opt_text(out, &session.response.value);
            assert(item == (client@, session@));
        }
        proof {
            assert(out@ =~= before + session_writer()(item));
            lemma_ser_list_push(items.take(i as int), item, session_writer());
            assert(items.take(i as int).push(item) =~= items.take(i + 1));
            assert(out@ =~= start + ser_list(items.take(i + 1), session_writer()));
        }
        i += 1;
    }
    assert(items.take(i as int) =~= items);
}

fn get_binding(bytes: &[u8], at: usize) -> (r: Option<(String, String, usize)>)
    ensures
        match r {
            Some((key, value, p)) => parse_binding(bytes@, at as int) == Some(
                ((key@, value@), p as int),
            ),
            None => parse_binding(bytes@, at as int) is None,
        },
{
    let (key, p) = match get_text(bytes, at) {
        Some(found) => found,
        None => { return None; },
    };
    match get_text(bytes, p) {
        Some((value, q)) => Some((key, value, q)),
        None => None,
    }
}

fn get_session(bytes: &[u8], at: usize) -> (r: Option<(String, Session, usize)>)
    ensures
        match r {
            Some((client, session, p)) => parse_session(bytes@, at as int) == Some(
                ((client@, session@), p as int),
            ),
            None => parse_session(bytes@, at as int) is None,
        },
{
    let (client, p) = match get_text(bytes, at) {
        Some(found) => found,
        None => { return None; },
    };
    let (serial, q) = match get_u64(bytes, p) {
        Some(found) => found,
        None => { return None; },
    };
    match get_opt_text(bytes, q) {
        Some((value, r)) => Some((client, Session { serial, response: ClientResponse { value } }, r)),
        None => None,
    }
}

proof fn lemma_map_of_push<V>(items: Seq<(Seq<char>, V)>, key: Seq<char>, value: V)
    ensures
        map_of(items.push((key, value))) == map_of(items).insert(key, value),
{
    assert(items.push((key, value)).drop_last() =~= items);
}

fn get_bindings(bytes: &[u8], at: usize, count: u64) -> (r: Option<(Table<String>, usize)>)
    ensures
        match r {
            Some((table, p)) => {
                let parsed = parse_list(bytes@, at as int, count as nat, binding_reader());
                parsed is Some && parsed->Some_0.1 == p && table@ == map_of(parsed->Some_0.0)
            },
            None => parse_list(bytes@, at as int, count as nat, binding_reader()) is None,
        },
{
    let ghost whole = parse_list(bytes@, at as int, count as nat, binding_reader());
    let ghost mut done: Seq<(Seq<char>, Seq<char>)> = Seq::empty();
    let mut table: Table<String> = Table::new();
    let mut p: usize = at;
    let mut i: u64 = 0;
    proof {
        lemma_parse_list_start(whole);
    }
    while i < count
        invariant
            i <= count,
            whole == parse_list(bytes@, at as int, count as nat, binding_reader()),
            whole == join(done, parse_list(bytes@, p as int, (count - i) as nat, binding_reader())),
            table@ == map_of(done),
        decreases count - i,
    {
        proof {
            lemma_parse_list_step(bytes@, p as int, (count - i) as nat, done, whole, binding_reader());
            assert(binding_reader()(bytes@, p as int) == parse_binding(bytes@, p as int));
        }
        match get_binding(bytes, p) {
            None => { return None; },
            Some((key, value, q)) => {
                proof {
                    lemma_map_of_push(done, key@, value@);
                    done = done.push((key@, value@));
                }
                table.insert(key, value);
                p = q;
            },
        }
        i += 1;
    }
    proof {
        lemma_parse_list_step(bytes@, p as int, 0, done, whole, binding_reader());
    }
    Some((table, p))
}

fn get_sessions(bytes: &[u8], at: usize, count: u64) -> (r: Option<(Table<Session>, usize)>)
    ensures
        match r {
            Some((table, p)) => {
                let parsed = parse_list(bytes@, at as int, count as nat, session_reader());
                parsed is Some && parsed->Some_0.1 == p && table@ == map_of(parsed->Some_0.0)
            },
            None => parse_list(bytes@, at as int, count as nat, session_reader()) is None,
        },
{
    let ghost whole = parse_list(bytes@, at as int, count as nat, session_reader());
    let ghost mut done: Seq<(Seq<char>, SessionView)> = Seq::empty();
    let mut table: Table<Session> = Table::new();
    let mut p: usize = at;
    let mut i: u64 = 0;
    proof {
        lemma_parse_list_start(whole);
    }
    while i < count
        invariant
            i <= count,
            whole == parse_list(bytes@, at as int, count as nat, session_reader()),
            whole == join(done, parse_list(bytes@, p as int, (count - i) as nat, session_reader())),
            table@ == map_of(done),
        decreases count - i,
    {
        proof {
            lemma_parse_list_step(bytes@, p as int, (count - i) as nat, done, whole, session_reader());
            assert(session_reader()(bytes@, p as int) == parse_session(bytes@, p as int));
        }
        match get_session(bytes, p) {
            None => { return None; },
            Some((client, session, q)) => {
                proof {
                    lemma_map_of_push(done, client@, session@);
                    done = done.push((client@, session@));
                }
                table.insert(client, session);
                p = q;
            },
        }
        i += 1;
    }
    proof {
        lemma_parse_list_step(bytes@, p as int, 0, done, whole, session_reader());
    }
    Some((table, p))
}

impl Snapshot {
    /// Writes the snapshot as a blob that `from_bytes` reads back as this
    /// snapshot.
    pub fn to_bytes(&self) -> (r: Vec<u8>)
        ensures
            r@ == ser_snapshot(
                self.last_included,
                listing(self.data.key_order(), self.data@),
                listing(self.sessions.key_order(), self.sessions@),
            ),
            parse_snapshot(r@) == Some(self@),
    {
        let mut out: Vec<u8> = Vec::new();
        put_opt_id(&mut out, self.last_included);
        put_bindings(&mut out, &self.data);
        put_sessions(&mut out, &self.sessions);
        proof {
            assert(out@ =~= ser_snapshot(
                self.last_included,
                listing(self.data.key_order(), self.data@),
                listing(self.sessions.key_order(), self.sessions@),
            ));
            law_snapshot_blob_round_trip(
                self@,
                self.data.key_order(),
                self.sessions.key_order(),
            );
        }
        out
    }

    /// Reads a snapshot blob. `None` where `bytes` hold no snapshot.
    pub fn from_bytes(bytes: &[u8]) -> (r: Option<Snapshot>)
        ensures
            match r {
                Some(snapshot) => parse_snapshot(bytes@) == Some(snapshot@),
                None => parse_snapshot(bytes@) is None,
            },
    {
        let (last_included, p) = match get_opt_id(bytes, 0) {
            Some(found) => found,
            None => { return None; },
        };
        let (data_count, q) = match get_u64(bytes, p) {
            Some(found) => found,
            None => { return None; },
        };
        let (data, r) = match get_bindings(bytes, q, data_count) {
            Some(found) => found,
            None => { return None; },
        };
        let (session_count, s) = match get_u64(bytes, r) {
            Some(found) => found,
            None => { return None; },
        };
        match get_sessions(bytes, s, session_count) {
            Some((sessions, end)) => if end == bytes.len() {
                Some(Snapshot { last_included, data, sessions })
            } else {
                None
            },
            None => None,
        }
    }
}

} // verus!

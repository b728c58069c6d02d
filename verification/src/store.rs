//! The state machine: it applies committed log entries to the key-value map
//! in log order, answers each client's repeated command from its record of
//! the first answer, and captures and installs snapshots.

use vstd::prelude::*;
use crate::command::{decode_request, decoded};
use crate::log::LogStore;
use crate::snapshot::{Session, SessionView, Snapshot, SnapshotView};
use crate::table::Table;
use crate::types::{
    ClientRequest, ClientRequestView, ClientResponse, LogEntry, LogEntryView, LogId, Operation,
    OperationView, StoreError, entry_views,
};

verus! {

/// The index of the entry at `id`; 0 stands for "before the first entry".
pub open spec fn index_of_id(id: Option<LogId>) -> int {
    match id {
        Some(id) => id.index as int,
        None => 0,
    }
}

/// What applying some entries in order comes to: the state reached, the
/// answers given, and the error that stopped it, if one did.
pub struct Replayed {
    pub state: KvStoreView,
    pub answers: Seq<Option<Seq<char>>>,
    pub error: Option<StoreError>,
}

impl Replayed {
    /// This outcome, reached after `answers` had been given already.
    pub open spec fn after(self, answers: Seq<Option<Seq<char>>>) -> Replayed {
        Replayed { state: self.state, answers: answers + self.answers, error: self.error }
    }
}

/// The views of some answers, in order.
pub open spec fn answer_views(answers: Seq<ClientResponse>) -> Seq<Option<Seq<char>>> {
    answers.map_values(|a: ClientResponse| a@)
}

/// The state of the state machine as contracts see it.
pub struct KvStoreView {
    /// The key-value map.
    pub data: Map<Seq<char>, Seq<char>>,
    /// For each client seen, its last applied serial and the answer given.
    pub sessions: Map<Seq<char>, SessionView>,
    /// The position of the last entry applied, if any.
    pub last_applied: Option<LogId>,
    /// The latest snapshot captured or installed, if any.
    pub snapshot: Option<SnapshotView>,
}

impl KvStoreView {
    /// The state of a machine that has applied nothing.
    pub open spec fn fresh() -> KvStoreView {
        KvStoreView {
            data: Map::empty(),
            sessions: Map::empty(),
            last_applied: None,
            snapshot: None,
        }
    }

    /// The index of the only entry that may be applied next.
    pub open spec fn next_index(self) -> int {
        index_of_id(self.last_applied) + 1
    }

    /// Whether the command was applied before: its client has a session
    /// whose serial is not below the command's.
    pub open spec fn is_replay(self, request: ClientRequestView) -> bool {
        self.sessions.contains_key(request.client) && request.serial
            <= self.sessions[request.client].serial
    }

    /// The answer to `request` in this state: the recorded one for a replay,
    /// else the value read by a `Get`, and nothing for `Put` and `Delete`.
    pub open spec fn response_to(self, request: ClientRequestView) -> Option<Seq<char>> {
        if self.is_replay(request) {
            self.sessions[request.client].response
        } else {
            match request.operation {
                OperationView::Get => if self.data.contains_key(request.key) {
                    Some(self.data[request.key])
                } else {
                    None
                },
                _ => None,
            }
        }
    }

    /// The key-value map once `request` has been applied.
    pub open spec fn data_after(self, request: ClientRequestView) -> Map<Seq<char>, Seq<char>> {
        if self.is_replay(request) {
            self.data
        } else {
            match request.operation {
                OperationView::Put { value } => self.data.insert(request.key, value),
                OperationView::Delete => self.data.remove(request.key),
                OperationView::Get => self.data,
            }
        }
    }

    /// The sessions once `request` has been applied.
    pub open spec fn sessions_after(self, request: ClientRequestView) -> Map<
        Seq<char>,
        SessionView,
    > {
        if self.is_replay(request) {
            self.sessions
        } else {
            self.sessions.insert(
                request.client,
                SessionView { serial: request.serial, response: self.response_to(request) },
            )
        }
    }

    /// The state once the command `request` of the entry at `id` has been
    /// applied.
    pub open spec fn step(self, id: LogId, request: ClientRequestView) -> KvStoreView {
        KvStoreView {
            data: self.data_after(request),
            sessions: self.sessions_after(request),
            last_applied: Some(id),
            snapshot: self.snapshot,
        }
    }

    /// What applying `entry` does: the next state and the answer, or the
    /// reason for which nothing changes. The index is judged before the
    /// payload.
    pub open spec fn apply(self, entry: LogEntryView) -> Result<
        (KvStoreView, Option<Seq<char>>),
        StoreError,
    > {
        if entry.index != self.next_index() {
            Err(StoreError::InvariantViolation)
        } else {
            match decoded(entry.payload) {
                Err(e) => Err(StoreError::Decode(e)),
                Ok(request) => Ok(
                    (
                        self.step(LogId { term: entry.term, index: entry.index }, request),
                        self.response_to(request),
                    ),
                ),
            }
        }
    }

    /// What applying `entries` one after the other does. The first entry that
    /// is refused stops it, and the state stays as the entries before it left
    /// it.
    pub open spec fn apply_all(self, entries: Seq<LogEntryView>) -> Replayed
        decreases entries.len(),
    {
        if entries.len() == 0 {
            Replayed { state: self, answers: Seq::empty(), error: None }
        } else {
            match self.apply(entries[0]) {
                Err(e) => Replayed { state: self, answers: Seq::empty(), error: Some(e) },
                Ok((next, answer)) => next.apply_all(entries.drop_first()).after(seq![answer]),
            }
        }
    }

    /// Whether the two states hold the same key-value map, the same sessions
    /// and the same applied position. They may differ in the snapshot kept.
    pub open spec fn same_content(self, other: KvStoreView) -> bool {
        self.data == other.data && self.sessions == other.sessions && self.last_applied
            == other.last_applied
    }

    /// The snapshot that this state yields.
    pub open spec fn capture(self) -> SnapshotView {
        SnapshotView {
            last_included: self.last_applied,
            data: self.data,
            sessions: self.sessions,
        }
    }

    /// Whether `snapshot`, announced as covering the log up to `marker`, may
    /// replace this state: the marker is the snapshot's own, and the applied
    /// index does not go back.
    pub open spec fn accepts(self, marker: Option<LogId>, snapshot: SnapshotView) -> bool {
        marker == snapshot.last_included && index_of_id(snapshot.last_included) >= index_of_id(
            self.last_applied,
        )
    }

    /// The state once `snapshot` has replaced it.
    pub open spec fn install(self, snapshot: SnapshotView) -> KvStoreView {
        KvStoreView {
            data: snapshot.data,
            sessions: snapshot.sessions,
            last_applied: snapshot.last_included,
            snapshot: Some(snapshot),
        }
    }
}

/// The state machine.
#[derive(Debug)]
pub struct KvStore {
    data: Table<String>,
    sessions: Table<Session>,
    last_applied: Option<LogId>,
    snapshot: Option<Snapshot>,
}

impl View for KvStore {
    type V = KvStoreView;

    closed spec fn view(&self) -> KvStoreView {
        KvStoreView {
            data: self.data@,
            sessions: self.sessions@,
            last_applied: self.last_applied,
            snapshot: match self.snapshot {
                Some(s) => Some(s@),
                None => None,
            },
        }
    }
}

fn same_id(a: Option<LogId>, b: Option<LogId>) -> (r: bool)
    ensures
        r == (a == b),
{
    match (a, b) {
        (Some(x), Some(y)) => x.term == y.term && x.index == y.index,
        (None, None) => true,
        _ => false,
    }
}

fn index_or_zero(id: Option<LogId>) -> (r: u64)
    ensures
        r == index_of_id(id),
{
    match id {
        Some(id) => id.index,
        None => 0,
    }
}

impl Default for KvStore {
    /// A state machine that has applied nothing.
    fn default() -> (r: Self)
        ensures
            r@ == KvStoreView::fresh(),
    {
        KvStore::new()
    }
}

impl Clone for KvStore {
    fn clone(&self) -> (r: Self)
        ensures
            r@ == self@,
    {
        let snapshot = match &self.snapshot {
            Some(s) => Some(s.clone()),
            None => None,
        };
        KvStore {
            data: self.data.clone(),
            sessions: self.sessions.clone(),
            last_applied: self.last_applied,
            snapshot,
        }
    }
}

impl KvStore {
    /// A state machine that has applied nothing.
    pub fn new() -> (r: Self)
        ensures
            r@ == KvStoreView::fresh(),
    {
        KvStore { data: Table::new(), sessions: Table::new(), last_applied: None, snapshot: None }
    }

    /// The key-value map.
    pub fn data(&self) -> (r: &Table<String>)
        ensures
            r@ == self@.data,
    {
        &self.data
    }

    /// The client sessions.
    pub fn sessions(&self) -> (r: &Table<Session>)
        ensures
            r@ == self@.sessions,
    {
        &self.sessions
    }

    /// The value bound to `key`, if any. Reads outside the log see the state
    /// as of the last applied entry.
    pub fn get(&self, key: &String) -> (r: Option<&String>)
        ensures
            match r {
                Some(v) => self@.data.contains_key(key@) && v@ == self@.data[key@],
                None => !self@.data.contains_key(key@),
            },
    {
        self.data.get(key)
    }

    /// The position of the last applied entry and the marker of the latest
    /// snapshot, each `None` where there is none.
    pub fn applied_state(&self) -> (r: (Option<LogId>, Option<LogId>))
        ensures
            r.0 == self@.last_applied,
            r.1 == match self@.snapshot {
                Some(s) => s.last_included,
                None => None,
            },
    {
        let marker = match &self.snapshot {
            Some(s) => s.last_included,
            None => None,
        };
        (self.last_applied, marker)
    }

    /// Whether the entry at `index` is the one to apply next.
    pub fn expects(&self, index: u64) -> (r: bool)
        ensures
            r == (index == self@.next_index()),
    {
        let last = index_or_zero(self.last_applied);
        index > 0 && index - 1 == last
    }

    /// Applies the decoded command of the entry at `id`. Out of order, the
    /// call changes nothing and reports an invariant violation.
    pub fn apply_request(&mut self, id: LogId, request: &ClientRequest) -> (r: Result<
        ClientResponse,
        StoreError,
    >)
        ensures
            match r {
                Ok(response) => id.index == old(self)@.next_index() && final(self)@ == old(
                    self,
                )@.step(id, request@) && response@ == old(self)@.response_to(request@),
                Err(e) => id.index != old(self)@.next_index() && e
                    == StoreError::InvariantViolation && final(self)@ == old(self)@,
            },
    {
        if !self.expects(id.index) {
            return Err(StoreError::InvariantViolation);
        }
        let recorded = match self.sessions.get(&request.client) {
            Some(session) => if request.serial <= session.serial {
                Some(session.response.clone())
            } else {
                None
            },
            None => None,
        };
        let response = match recorded {
            Some(response) => response,
            None => {
                let response = match &request.operation {
                    Operation::Put { value } => {
                        self.data.insert(request.key.clone(), value.clone());
                        ClientResponse { value: None }
                    },
                    Operation::Delete => {
                        self.data.remove(&request.key);
                        ClientResponse { value: None }
                    },
                    Operation::Get => match self.data.get(&request.key) {
                        Some(v) => ClientResponse { value: Some(v.clone()) },
                        None => ClientResponse { value: None },
                    },
                };
                self.sessions.insert(
                    request.client.clone(),
                    Session { serial: request.serial, response: response.clone() },
                );
                response
            },
        };
        self.last_applied = Some(id);
        Ok(response)
    }

    /// Applies a committed entry: checks that it is the next one, decodes its
    /// payload and applies the command. On an error nothing changes.
    pub fn apply(&mut self, entry: &LogEntry) -> (r: Result<ClientResponse, StoreError>)
        ensures
            match r {
                Ok(response) => old(self)@.apply(entry@) == Ok::<
                    (KvStoreView, Option<Seq<char>>),
                    StoreError,
                >((final(self)@, response@)),
                Err(e) => old(self)@.apply(entry@) == Err::<
                    (KvStoreView, Option<Seq<char>>),
                    StoreError,
                >(e) && final(self)@ == old(self)@,
            },
    {
        if !self.expects(entry.index) {
            return Err(StoreError::InvariantViolation);
        }
        match decode_request(entry.payload.as_slice()) {
            Err(e) => Err(StoreError::Decode(e)),
            Ok(request) => self.apply_request(entry.log_id(), &request),
        }
    }

    /// Applies `entries` one after the other and returns the answers. The
    /// first entry that is refused stops it: its error is returned, and the
    /// state stays as the entries before it left it.
    pub fn apply_all(&mut self, entries: &Vec<LogEntry>) -> (r: Result<
        Vec<ClientResponse>,
        StoreError,
    >)
        ensures
            final(self)@ == old(self)@.apply_all(entry_views(entries@)).state,
            match r {
                Ok(answers) => old(self)@.apply_all(entry_views(entries@)).error is None
                    && answer_views(answers@) == old(self)@.apply_all(
                    entry_views(entries@),
                ).answers,
                Err(e) => old(self)@.apply_all(entry_views(entries@)).error == Some(e),
            },
    {
        let ghost views = entry_views(entries@);
        let ghost whole = self@.apply_all(views);
        let mut answers: Vec<ClientResponse> = Vec::new();
        let mut i: usize = 0;
        proof {
            assert(views.skip(0) =~= views);
            assert(answer_views(answers@) + whole.answers =~= whole.answers);
        }
        while i < entries.len()
            invariant
                i <= entries@.len(),
                views == entry_views(entries@),
                whole == old(self)@.apply_all(views),
                whole == self@.apply_all(views.skip(i as int)).after(answer_views(answers@)),
            decreases entries@.len() - i,
        {
            let ghost rest = views.skip(i as int);
            let ghost done = answer_views(answers@);
            proof {
                assert(rest[0] == views[i as int]);
                assert(rest.drop_first() =~= views.skip(i + 1));
            }
            match self.apply(&entries[i]) {
                Err(e) => {
                    return Err(e);
                },
                Ok(answer) => {
                    answers.push(answer);
                    proof {
                        assert(answer_views(answers@) =~= done.push(answer@));
                        assert(done + (seq![answer@] + self@.apply_all(
                            views.skip(i + 1),
                        ).answers) =~= done.push(answer@) + self@.apply_all(
                            views.skip(i + 1),
                        ).answers);
                    }
                },
            }
            i += 1;
        }
        proof {
            assert(views.skip(i as int) =~= Seq::<LogEntryView>::empty());
            assert(answer_views(answers@) + Seq::<Option<Seq<char>>>::empty() =~= answer_views(
                answers@,
            ));
        }
        Ok(answers)
    }

    /// Applies the committed entries of `log` that follow the last applied
    /// one, as after a restart or when the committed index has gone up, and
    /// returns the answers. Where the log no longer holds the next entry to
    /// apply, the first entry that it does hold is refused.
    pub fn replay(&mut self, log: &LogStore) -> (r: Result<Vec<ClientResponse>, StoreError>)
        ensures
            final(self)@ == old(self)@.apply_all(
                log@.range(old(self)@.next_index(), log@.committed as int),
            ).state,
            match r {
                Ok(answers) => old(self)@.apply_all(
                    log@.range(old(self)@.next_index(), log@.committed as int),
                ).error is None && answer_views(answers@) == old(self)@.apply_all(
                    log@.range(old(self)@.next_index(), log@.committed as int),
                ).answers,
                Err(e) => old(self)@.apply_all(
                    log@.range(old(self)@.next_index(), log@.committed as int),
                ).error == Some(e),
            },
    {
        let applied = index_or_zero(self.last_applied);
        let entries = if applied == u64::MAX {
            let none: Vec<LogEntry> = Vec::new();
            assert(entry_views(none@) =~= log@.range(self@.next_index(), log@.committed as int));
            none
        } else {
            log.entries_between(applied + 1, log.committed())
        };
        self.apply_all(&entries)
    }

    /// Captures the present state as a snapshot, keeps a copy as the latest
    /// snapshot and returns it.
    pub fn begin_snapshot(&mut self) -> (r: Snapshot)
        ensures
            r@ == old(self)@.capture(),
            final(self)@ == (KvStoreView { snapshot: Some(old(self)@.capture()), ..old(self)@ }),
    {
        let snapshot = Snapshot {
            last_included: self.last_applied,
            data: self.data.clone(),
            sessions: self.sessions.clone(),
        };
        self.snapshot = Some(snapshot.clone());
        snapshot
    }

    /// Replaces the state by `snapshot`, which the caller announces as
    /// covering the log up to `marker`, and keeps it as the latest snapshot.
    /// A marker that is not the snapshot's own, or a snapshot older than the
    /// state, is refused and changes nothing.
    pub fn install_snapshot(&mut self, marker: Option<LogId>, snapshot: Snapshot) -> (r: Result<
        (),
        StoreError,
    >)
        ensures
            match r {
                Ok(_) => old(self)@.accepts(marker, snapshot@) && final(self)@ == old(
                    self,
                )@.install(snapshot@),
                Err(e) => !old(self)@.accepts(marker, snapshot@) && e
                    == StoreError::InvariantViolation && final(self)@ == old(self)@,
            },
    {
        if !same_id(marker, snapshot.last_included) {
            return Err(StoreError::InvariantViolation);
        }
        if index_or_zero(snapshot.last_included) < index_or_zero(self.last_applied) {
            return Err(StoreError::InvariantViolation);
        }
        self.data = snapshot.data.clone();
        self.sessions = snapshot.sessions.clone();
        self.last_applied = snapshot.last_included;
        self.snapshot = Some(snapshot);
        Ok(())
    }

    /// The latest snapshot captured or installed, with its marker.
    pub fn get_snapshot(&self) -> (r: Option<(Snapshot, Option<LogId>)>)
        ensures
            match r {
                Some(pair) => self@.snapshot == Some(pair.0@) && pair.1 == pair.0@.last_included,
                None => self@.snapshot is None,
            },
    {
        match &self.snapshot {
            Some(s) => Some((s.clone(), s.last_included)),
            None => None,
        }
    }
}

/// Idempotence: a command applied a second time, right after the first,
/// leaves the key-value map and the sessions as the first application left
/// them, and is given the answer that the first was given.
pub proof fn law_repeated_command_is_idempotent(
    state: KvStoreView,
    first: LogId,
    second: LogId,
    request: ClientRequestView,
)
    ensures
        state.step(first, request).is_replay(request),
        state.step(first, request).step(second, request).data == state.step(first, request).data,
        state.step(first, request).step(second, request).sessions == state.step(
            first,
            request,
        ).sessions,
        state.step(first, request).response_to(request) == state.response_to(request),
{
}

/// Deduplication: a command whose client has a session with the same or a
/// higher serial changes neither the key-value map nor the sessions, and is
/// given the answer recorded in that session.
pub proof fn law_replay_changes_nothing(state: KvStoreView, id: LogId, request: ClientRequestView)
    requires
        state.is_replay(request),
    ensures
        state.step(id, request).data == state.data,
        state.step(id, request).sessions == state.sessions,
        state.response_to(request) == state.sessions[request.client].response,
{
}

/// A command that was applied stays a replay whatever is applied after it,
/// and keeps its recorded answer as long as no newer command of its client
/// is applied.
pub proof fn law_replay_is_kept(
    state: KvStoreView,
    request: ClientRequestView,
    id: LogId,
    later: ClientRequestView,
)
    requires
        state.is_replay(request),
    ensures
        state.step(id, later).is_replay(request),
        later.client != request.client || state.is_replay(later) ==> state.step(
            id,
            later,
        ).response_to(request) == state.response_to(request),
{
}

/// Idempotence, for entries: where an entry is applied and the next entry
/// carries the same payload, that one is applied too, changes neither the
/// key-value map nor the sessions, and is given the same answer.
pub proof fn law_repeated_entry_is_idempotent(
    state: KvStoreView,
    first: LogEntryView,
    second: LogEntryView,
)
    requires
        state.apply(first) is Ok,
        second.index == first.index + 1,
        second.payload == first.payload,
    ensures
        state.apply(first)->Ok_0.0.apply(second) is Ok,
        state.apply(first)->Ok_0.0.apply(second)->Ok_0.0.data == state.apply(first)->Ok_0.0.data,
        state.apply(first)->Ok_0.0.apply(second)->Ok_0.0.sessions == state.apply(
            first,
        )->Ok_0.0.sessions,
        state.apply(first)->Ok_0.0.apply(second)->Ok_0.1 == state.apply(first)->Ok_0.1,
{
    let request = decoded(first.payload)->Ok_0;
    law_repeated_command_is_idempotent(
        state,
        LogId { term: first.term, index: first.index },
        LogId { term: second.term, index: second.index },
        request,
    );
}

/// Order: an entry is applied only if its index is the one that follows the
/// last applied index, and any other entry is refused as an invariant
/// violation. So of two entries applied one after the other, the second has
/// the index after the first's, and the applied index never goes back.
pub proof fn law_entries_apply_in_order(
    state: KvStoreView,
    first: LogEntryView,
    second: LogEntryView,
)
    ensures
        first.index != state.next_index() ==> state.apply(first) == Err::<
            (KvStoreView, Option<Seq<char>>),
            StoreError,
        >(StoreError::InvariantViolation),
        state.apply(first) is Ok ==> {
            let after = state.apply(first)->Ok_0.0;
            &&& first.index == state.next_index()
            &&& index_of_id(after.last_applied) == index_of_id(state.last_applied) + 1
            &&& after.apply(second) is Ok ==> second.index == first.index + 1
        },
{
}

/// Snapshot round trip: a machine that has applied nothing accepts the
/// snapshot captured from any state, under that snapshot's marker, and then
/// holds the key-value map, the sessions and the applied position of that
/// state.
pub proof fn law_snapshot_round_trip(source: KvStoreView)
    ensures
        KvStoreView::fresh().accepts(source.capture().last_included, source.capture()),
        KvStoreView::fresh().install(source.capture()).data == source.data,
        KvStoreView::fresh().install(source.capture()).sessions == source.sessions,
        KvStoreView::fresh().install(source.capture()).last_applied == source.last_applied,
{
}

/// The applied index never goes back: each applied entry raises it by one, an
/// installed snapshot does not lower it, and a refused call leaves it.
pub proof fn law_applied_index_never_goes_back(
    state: KvStoreView,
    entries: Seq<LogEntryView>,
    marker: Option<LogId>,
    snapshot: SnapshotView,
)
    ensures
        index_of_id(state.apply_all(entries).state.last_applied) == index_of_id(
            state.last_applied,
        ) + state.apply_all(entries).answers.len(),
        state.accepts(marker, snapshot) ==> index_of_id(state.install(snapshot).last_applied)
            >= index_of_id(state.last_applied),
    decreases entries.len(),
{
    if entries.len() > 0 {
        match state.apply(entries[0]) {
            Err(_) => {},
            Ok((next, _)) => {
                law_applied_index_never_goes_back(next, entries.drop_first(), marker, snapshot);
            },
        }
    }
}

/// What entries do to a state depends on its key-value map, its sessions and
/// its applied position alone.
pub proof fn lemma_apply_all_by_content(
    one: KvStoreView,
    other: KvStoreView,
    entries: Seq<LogEntryView>,
)
    requires
        one.same_content(other),
    ensures
        one.apply_all(entries).state.same_content(other.apply_all(entries).state),
        one.apply_all(entries).answers == other.apply_all(entries).answers,
        one.apply_all(entries).error == other.apply_all(entries).error,
    decreases entries.len(),
{
    if entries.len() > 0 {
        match one.apply(entries[0]) {
            Err(_) => {},
            Ok((next, _)) => {
                let other_next = other.apply(entries[0])->Ok_0.0;
                lemma_apply_all_by_content(next, other_next, entries.drop_first());
            },
        }
    }
}

/// Recovery: a machine that starts from the snapshot of a state and applies
/// the entries that follow reaches the key-value map, the sessions and the
/// applied position that the state itself reaches by applying them, with the
/// same answers and the same error, if any.
pub proof fn law_snapshot_then_replay(source: KvStoreView, entries: Seq<LogEntryView>)
    ensures
        KvStoreView::fresh().install(source.capture()).apply_all(entries).state.same_content(
            source.apply_all(entries).state,
        ),
        KvStoreView::fresh().install(source.capture()).apply_all(entries).answers
            == source.apply_all(entries).answers,
        KvStoreView::fresh().install(source.capture()).apply_all(entries).error
            == source.apply_all(entries).error,
{
    lemma_apply_all_by_content(KvStoreView::fresh().install(source.capture()), source, entries);
}

/// Applying entries in two runs is applying them in one: where the first run
/// is not stopped, the second goes on from the state that it reached.
pub proof fn law_apply_all_in_two_runs(
    state: KvStoreView,
    first: Seq<LogEntryView>,
    second: Seq<LogEntryView>,
)
    ensures
        state.apply_all(first + second) == if state.apply_all(first).error is None {
            state.apply_all(first).state.apply_all(second).after(state.apply_all(first).answers)
        } else {
            state.apply_all(first)
        },
    decreases first.len(),
{
    if first.len() == 0 {
        assert(first + second =~= second);
        let run = state.apply_all(second);
        assert(Seq::<Option<Seq<char>>>::empty() + run.answers =~= run.answers);
    } else {
        let both = first + second;
        assert(both[0] == first[0]);
        assert(both.drop_first() =~= first.drop_first() + second);
        match state.apply(first[0]) {
            Err(_) => {},
            Ok((next, answer)) => {
                law_apply_all_in_two_runs(next, first.drop_first(), second);
                let head = next.apply_all(first.drop_first());
                if head.error is None {
                    let tail = head.state.apply_all(second);
                    assert(seq![answer] + (head.answers + tail.answers) =~= (seq![answer]
                        + head.answers) + tail.answers);
                }
            },
        }
    }
}

/// Deleting a key that is not bound changes nothing in the key-value map.
pub proof fn law_delete_of_unbound_key(state: KvStoreView, request: ClientRequestView)
    requires
        request.operation is Delete,
        !state.data.contains_key(request.key),
    ensures
        state.data_after(request) == state.data,
{
    assert(state.data.remove(request.key) =~= state.data);
}

} // verus!

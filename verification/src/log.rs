//! The log storage: the node's vote, the entries that the consensus driver
//! has handed over, and the watermark below which entries are committed.
//!
//! Indices start at 1. The retained entries are contiguous: they follow the
//! last purged index and nothing is missing between them.

use vstd::prelude::*;
use crate::codec::{
    LogImage, decode_log, encode_log, entries_fit, law_log_image_round_trip, parse_log, ser_log,
};
use crate::types::{
    LogEntry, LogEntryView, StoreError, StoredVote, Vote, VoteView, entry_views,
};

verus! {

/// The log storage as contracts see it.
pub struct LogStoreView {
    /// The vote last saved, if any.
    pub vote: Option<VoteView>,
    /// The highest index known to be committed; 0 where none is.
    pub committed: u64,
    /// The highest index purged; 0 where nothing was purged.
    pub purged: u64,
    /// The retained entries, in log order.
    pub entries: Seq<LogEntryView>,
}

/// Whether the indices of `batch` rise by one from each entry to the next.
pub open spec fn contiguous(batch: Seq<LogEntryView>) -> bool {
    forall|i: int| 0 <= i < batch.len() ==> (#[trigger] batch[i]).index == batch[0].index + i
}

impl LogStoreView {
    /// The log that holds nothing.
    pub open spec fn empty() -> LogStoreView {
        LogStoreView { vote: None, committed: 0, purged: 0, entries: Seq::empty() }
    }

    /// What is persisted of the log besides the vote.
    pub open spec fn image(self) -> LogImage {
        LogImage { committed: self.committed, purged: self.purged, entries: self.entries }
    }

    /// The log that holds the vote `vote` and what `image` holds.
    pub open spec fn from_image(vote: Option<VoteView>, image: LogImage) -> LogStoreView {
        LogStoreView {
            vote,
            committed: image.committed,
            purged: image.purged,
            entries: image.entries,
        }
    }

    /// The index of the first retained entry, or of the first that may come.
    pub open spec fn first_index(self) -> int {
        self.purged + 1
    }

    /// The index of the last retained entry, or the last purged index where
    /// none is retained.
    pub open spec fn last_index(self) -> int {
        self.purged + self.entries.len()
    }

    /// Whether the entry at `index` is retained.
    pub open spec fn contains(self, index: int) -> bool {
        self.first_index() <= index <= self.last_index()
    }

    /// The retained entry at `index`.
    pub open spec fn entry_at(self, index: int) -> LogEntryView
        recommends
            self.contains(index),
    {
        self.entries[index - self.first_index()]
    }

    /// The invariant of the log: each retained entry stands at its index,
    /// and nothing above the committed index was purged.
    pub open spec fn well_formed(self) -> bool {
        &&& forall|i: int|
            0 <= i < self.entries.len() ==> (#[trigger] self.entries[i]).index
                == self.first_index() + i
        &&& self.purged <= self.committed
    }

    /// The retained entries with indices from `first` to `last`, both
    /// included.
    pub open spec fn range(self, first: int, last: int) -> Seq<LogEntryView> {
        let lo = if first < self.first_index() {
            self.first_index()
        } else {
            first
        };
        let hi = if last > self.last_index() {
            self.last_index()
        } else {
            last
        };
        if lo <= hi {
            self.entries.subrange(lo - self.first_index(), hi - self.first_index() + 1)
        } else {
            Seq::empty()
        }
    }

    /// Whether `batch` may be appended: it is empty, or it is contiguous and
    /// starts at a retained index or right after the last one.
    pub open spec fn admits(self, batch: Seq<LogEntryView>) -> bool {
        batch.len() == 0 || (contiguous(batch) && self.first_index() <= batch[0].index
            <= self.last_index() + 1)
    }

    /// Whether the log already holds an entry at the index of `entry` with
    /// the term of `entry`.
    pub open spec fn agrees(self, entry: LogEntryView) -> bool {
        self.contains(entry.index as int) && self.entry_at(entry.index as int).term == entry.term
    }

    /// Whether `j` is the position in `batch` of the first entry that the log
    /// does not agree with, or the length of `batch` where it agrees with all.
    pub open spec fn is_first_mismatch(self, batch: Seq<LogEntryView>, j: int) -> bool {
        &&& 0 <= j <= batch.len()
        &&& forall|k: int| 0 <= k < j ==> self.agrees(#[trigger] batch[k])
        &&& j < batch.len() ==> !self.agrees(batch[j])
    }

    /// The position that `is_first_mismatch` describes.
    pub open spec fn first_mismatch(self, batch: Seq<LogEntryView>) -> int {
        choose|j: int| self.is_first_mismatch(batch, j)
    }

    /// Whether appending `batch` would discard a committed entry: the first
    /// entry that the log does not agree with stands at a retained index that
    /// is not above the committed index.
    pub open spec fn overwrites_committed(self, batch: Seq<LogEntryView>) -> bool {
        let j = self.first_mismatch(batch);
        j < batch.len() && self.contains(batch[j].index as int) && batch[j].index
            <= self.committed
    }

    /// The entries once `batch` has been appended: unchanged where the log
    /// agrees with all of `batch`; else the entries below the first one that
    /// it does not agree with, followed by the batch from that one on.
    pub open spec fn entries_after_append(self, batch: Seq<LogEntryView>) -> Seq<LogEntryView> {
        let j = self.first_mismatch(batch);
        if j == batch.len() {
            self.entries
        } else {
            self.entries.take(batch[j].index - self.first_index()) + batch.skip(j)
        }
    }

    /// What `append` does with `batch`.
    pub open spec fn append(self, batch: Seq<LogEntryView>) -> Result<LogStoreView, StoreError> {
        if !self.admits(batch) || self.overwrites_committed(batch) {
            Err(StoreError::InvariantViolation)
        } else {
            Ok(LogStoreView { entries: self.entries_after_append(batch), ..self })
        }
    }

    /// The highest index that is both retained and committed, where there is
    /// one; an index below the first retained one where there is none.
    pub open spec fn last_protected(self) -> int {
        if self.committed < self.last_index() {
            self.committed as int
        } else {
            self.last_index()
        }
    }

    /// Whether discarding the entries from `from` on would discard a
    /// committed one.
    pub open spec fn truncation_loses_committed(self, from: int) -> bool {
        from <= self.last_protected() && self.first_index() <= self.last_protected()
    }

    /// What `truncate` does from `from` on.
    pub open spec fn truncate(self, from: int) -> Result<LogStoreView, StoreError> {
        if self.truncation_loses_committed(from) {
            Err(StoreError::InvariantViolation)
        } else if from <= self.last_index() {
            let keep = if from < self.first_index() {
                0
            } else {
                from - self.first_index()
            };
            Ok(LogStoreView { entries: self.entries.take(keep), ..self })
        } else {
            Ok(self)
        }
    }

    /// What `purge` does up to `up_to`.
    pub open spec fn purge(self, up_to: u64) -> Result<LogStoreView, StoreError> {
        if up_to > self.committed {
            Err(StoreError::InvariantViolation)
        } else if up_to <= self.purged {
            Ok(self)
        } else {
            let gone = if up_to > self.last_index() {
                self.entries.len() as int
            } else {
                up_to - self.purged
            };
            Ok(LogStoreView { purged: up_to, entries: self.entries.skip(gone), ..self })
        }
    }
}

/// Where the log agrees with the entries of `batch` before `j` and not with
/// the one at `j`, `j` is the first mismatch.
pub proof fn lemma_first_mismatch(log: LogStoreView, batch: Seq<LogEntryView>, j: int)
    requires
        log.is_first_mismatch(batch, j),
    ensures
        log.first_mismatch(batch) == j,
{
    let c = log.first_mismatch(batch);
    assert(log.is_first_mismatch(batch, c));
    if c < j {
        assert(log.agrees(batch[c]));
    } else if j < c {
        assert(log.agrees(batch[j]));
    }
}

proof fn lemma_mismatch_exists(log: LogStoreView, batch: Seq<LogEntryView>, k: int)
    requires
        0 <= k <= batch.len(),
        forall|i: int| 0 <= i < k ==> log.agrees(#[trigger] batch[i]),
    ensures
        log.is_first_mismatch(batch, log.first_mismatch(batch)),
    decreases batch.len() - k,
{
    if k == batch.len() || !log.agrees(batch[k]) {
        assert(log.is_first_mismatch(batch, k));
    } else {
        lemma_mismatch_exists(log, batch, k + 1);
    }
}

/// In a batch that the log admits, the first entry that the log does not
/// agree with stands at a retained index or right after the last one.
pub proof fn lemma_mismatch_in_reach(log: LogStoreView, batch: Seq<LogEntryView>)
    requires
        log.well_formed(),
        log.admits(batch),
    ensures
        log.is_first_mismatch(batch, log.first_mismatch(batch)),
        log.first_mismatch(batch) < batch.len() ==> log.first_index() <= batch[log.first_mismatch(
            batch,
        )].index <= log.last_index() + 1,
{
    lemma_mismatch_exists(log, batch, 0);
    let j = log.first_mismatch(batch);
    if j < batch.len() {
        assert(batch[j].index == batch[0].index + j);
        if j > 0 {
            assert(log.agrees(batch[j - 1]));
            assert(batch[j - 1].index == batch[0].index + (j - 1));
        }
    }
}

/// No gaps: appending, truncating and purging leave the retained entries
/// contiguous from the first retained index, and purge nothing above the
/// committed index.
pub proof fn law_log_stays_contiguous(
    log: LogStoreView,
    batch: Seq<LogEntryView>,
    from: int,
    up_to: u64,
)
    requires
        log.well_formed(),
    ensures
        log.append(batch) is Ok ==> log.append(batch)->Ok_0.well_formed(),
        log.truncate(from) is Ok ==> log.truncate(from)->Ok_0.well_formed(),
        log.purge(up_to) is Ok ==> log.purge(up_to)->Ok_0.well_formed(),
{
    if log.append(batch) is Ok {
        lemma_mismatch_in_reach(log, batch);
        let j = log.first_mismatch(batch);
        let after = log.append(batch)->Ok_0;
        if j < batch.len() {
            let keep = batch[j].index - log.first_index();
            assert forall|i: int| 0 <= i < after.entries.len() implies (
            #[trigger] after.entries[i]).index == after.first_index() + i by {
                if i < keep {
                    assert(after.entries[i] == log.entries[i]);
                } else {
                    assert(after.entries[i] == batch[j + (i - keep)]);
                    assert(batch[j + (i - keep)].index == batch[0].index + (j + (i - keep)));
                    assert(batch[j].index == batch[0].index + j);
                }
            }
        }
    }
    if log.truncate(from) is Ok {
        let after = log.truncate(from)->Ok_0;
        assert forall|i: int| 0 <= i < after.entries.len() implies (
        #[trigger] after.entries[i]).index == after.first_index() + i by {
            assert(after.entries[i] == log.entries[i]);
        }
    }
    if log.purge(up_to) is Ok {
        let after = log.purge(up_to)->Ok_0;
        if up_to > log.purged {
            let gone = after.purged - log.purged;
            assert forall|i: int| 0 <= i < after.entries.len() implies (
            #[trigger] after.entries[i]).index == after.first_index() + i by {
                assert(after.entries[i] == log.entries[i + gone]);
            }
        }
    }
}

/// Conflict resolution: where the first entry of a batch stands at a
/// retained index above the committed one and differs in term from the entry
/// that the log holds there, appending the batch keeps the entries below that
/// index and replaces all from that index on by the batch. Reading the log
/// from that index on then gives exactly the batch.
pub proof fn law_conflicting_suffix_is_replaced(log: LogStoreView, batch: Seq<LogEntryView>)
    requires
        log.well_formed(),
        batch.len() > 0,
        contiguous(batch),
        log.contains(batch[0].index as int),
        log.entry_at(batch[0].index as int).term != batch[0].term,
        batch[0].index > log.committed,
    ensures
        log.append(batch) is Ok,
        log.append(batch)->Ok_0.entries == log.entries.take(batch[0].index - log.first_index())
            + batch,
        log.append(batch)->Ok_0.range(batch[0].index as int, batch.last().index as int) == batch,
{
    lemma_first_mismatch(log, batch, 0);
    let after = log.append(batch)->Ok_0;
    assert(batch.skip(0) =~= batch);
    let keep = batch[0].index - log.first_index();
    assert(batch.last().index == batch[0].index + (batch.len() - 1));
    assert(after.entries.subrange(keep, keep + batch.len()) =~= batch);
}

/// A batch that the log already holds, index and term, changes nothing,
/// whatever the log holds after it.
pub proof fn law_held_entries_stay(log: LogStoreView, batch: Seq<LogEntryView>)
    requires
        log.well_formed(),
        log.admits(batch),
        forall|k: int| 0 <= k < batch.len() ==> log.agrees(#[trigger] batch[k]),
    ensures
        log.append(batch) == Ok::<LogStoreView, StoreError>(log),
{
    lemma_first_mismatch(log, batch, batch.len() as int);
}

/// Committed entries are never lost to an append or a truncation, and a
/// purge discards nothing above the committed index.
pub proof fn law_committed_entries_survive(
    log: LogStoreView,
    batch: Seq<LogEntryView>,
    from: int,
    up_to: u64,
    index: int,
)
    requires
        log.well_formed(),
        log.contains(index),
    ensures
        index <= log.committed && log.append(batch) is Ok ==> log.append(batch)->Ok_0.contains(
            index,
        ) && log.append(batch)->Ok_0.entry_at(index) == log.entry_at(index),
        index <= log.committed && log.truncate(from) is Ok ==> log.truncate(from)->Ok_0.contains(
            index,
        ) && log.truncate(from)->Ok_0.entry_at(index) == log.entry_at(index),
        index > log.committed && log.purge(up_to) is Ok ==> log.purge(up_to)->Ok_0.contains(index)
            && log.purge(up_to)->Ok_0.entry_at(index) == log.entry_at(index),
{
    if index <= log.committed && log.append(batch) is Ok {
        lemma_mismatch_in_reach(log, batch);
    }
}

/// A truncation from `from` is refused exactly where some retained entry at
/// or after `from` is committed.
pub proof fn law_truncation_guard(log: LogStoreView, from: int)
    ensures
        log.truncation_loses_committed(from) <==> exists|i: int|
            from <= i && #[trigger] log.contains(i) && i <= log.committed,
{
    if log.truncation_loses_committed(from) {
        let i = if from < log.first_index() {
            log.first_index()
        } else {
            from
        };
        assert(from <= i && log.contains(i) && i <= log.committed);
    }
}

/// Restart: a log rebuilt from its vote and from the image that was written
/// of it is the log that was written.
pub proof fn law_log_survives_restart(log: LogStoreView)
    requires
        entries_fit(log.entries),
    ensures
        parse_log(ser_log(log.image())) is Some,
        LogStoreView::from_image(log.vote, parse_log(ser_log(log.image()))->Some_0) == log,
{
    law_log_image_round_trip(log.image());
}

/// The log storage.
#[derive(Debug)]
pub struct LogStore {
    vote: Option<StoredVote>,
    committed: u64,
    purged: u64,
    entries: Vec<LogEntry>,
}

impl View for LogStore {
    type V = LogStoreView;

    closed spec fn view(&self) -> LogStoreView {
        LogStoreView {
            vote: match self.vote {
                Some(v) => Some(v@),
                None => None,
            },
            committed: self.committed,
            purged: self.purged,
            entries: entry_views(self.entries@),
        }
    }
}

fn check_contiguous(batch: &Vec<LogEntry>) -> (r: bool)
    ensures
        r == contiguous(entry_views(batch@)),
{
    let ghost views = entry_views(batch@);
    let mut i: usize = 1;
    while i < batch.len()
        invariant
            1 <= i,
            views == entry_views(batch@),
            forall|k: int| 0 <= k < i && k < views.len() ==> (#[trigger] views[k]).index
                == views[0].index + k,
        decreases batch@.len() - i,
    {
        let previous = batch[i - 1].index;
        if previous == u64::MAX || batch[i].index != previous + 1 {
            assert(views[i as int].index != views[0].index + i) by {
                assert(views[i - 1].index == views[0].index + (i - 1));
            }
            return false;
        }
        assert(views[i as int].index == views[0].index + i) by {
            assert(views[i - 1].index == views[0].index + (i - 1));
        }
        i += 1;
    }
    true
}

impl LogStore {
    #[verifier::type_invariant]
    spec fn well_formed(self) -> bool {
        self@.well_formed()
    }

    /// A log that holds nothing.
    pub fn new() -> (r: Self)
        ensures
            r@ == LogStoreView::empty(),
    {
        let r = LogStore { vote: None, committed: 0, purged: 0, entries: Vec::new() };
        assert(r@.entries =~= Seq::<LogEntryView>::empty());
        r
    }

    /// Rebuilds a log from what was persisted of it. Parts that do not make
    /// a well-formed log are refused.
    pub fn restore(vote: Option<Vote>, committed: u64, purged: u64, entries: Vec<LogEntry>) -> (r:
        Result<Self, StoreError>)
        ensures
            match r {
                Ok(log) => log@.well_formed() && log@.committed == committed && log@.purged
                    == purged && log@.entries == entry_views(entries@) && log@.vote == match vote {
                    Some(v) => Some(v@),
                    None => None,
                },
                Err(e) => e == StoreError::InvariantViolation && !(LogStoreView {
                    vote: None,
                    committed,
                    purged,
                    entries: entry_views(entries@),
                }).well_formed(),
            },
    {
        let ghost views = entry_views(entries@);
        if purged > committed {
            return Err(StoreError::InvariantViolation);
        }
        let mut i: usize = 0;
        while i < entries.len()
            invariant
                i <= entries@.len(),
                views == entry_views(entries@),
                forall|k: int| 0 <= k < i ==> (#[trigger] views[k]).index == purged + 1 + k,
            decreases entries@.len() - i,
        {
            let index = entries[i].index;
            if index <= purged || index - purged - 1 != i as u64 {
                proof {
                    let log = LogStoreView { vote: None, committed, purged, entries: views };
                    assert(log.entries[i as int].index != log.first_index() + i);
                }
                return Err(StoreError::InvariantViolation);
            }
            i += 1;
        }
        let vote = match vote {
            Some(v) => Some(StoredVote(v)),
            None => None,
        };
        Ok(LogStore { vote, committed, purged, entries })
    }

    /// Writes the image of the log: the committed and purged indices and the
    /// entries. `from_bytes` reads it back.
    pub fn to_bytes(&self) -> (r: Vec<u8>)
        ensures
            r@ == ser_log(self@.image()),
            parse_log(r@) == Some(self@.image()),
    {
        encode_log(self.committed, self.purged, &self.entries)
    }

    /// Rebuilds a log from its vote and its image. `None` where `bytes` hold
    /// no image, or one of a log that is not well formed.
    pub fn from_bytes(vote: Option<Vote>, bytes: &[u8]) -> (r: Option<Self>)
        ensures
            match r {
                Some(log) => parse_log(bytes@) is Some && log@.well_formed() && log@
                    == LogStoreView::from_image(
                    match vote {
                        Some(v) => Some(v@),
                        None => None,
                    },
                    parse_log(bytes@)->Some_0,
                ),
                None => parse_log(bytes@) is None || !LogStoreView::from_image(
                    None,
                    parse_log(bytes@)->Some_0,
                ).well_formed(),
            },
    {
        match decode_log(bytes) {
            None => None,
            Some((committed, purged, entries)) => match LogStore::restore(
                vote,
                committed,
                purged,
                entries,
            ) {
                Ok(log) => Some(log),
                Err(_) => None,
            },
        }
    }

    /// The vote last saved, if any.
    pub fn read_vote(&self) -> (r: Option<Vote>)
        ensures
            match r {
                Some(v) => self@.vote == Some(v@),
                None => self@.vote is None,
            },
    {
        match &self.vote {
            Some(v) => Some(v.0.clone()),
            None => None,
        }
    }

    /// Replaces the saved vote by `vote`.
    pub fn save_vote(&mut self, vote: Vote)
        ensures
            final(self)@ == (LogStoreView { vote: Some(vote@), ..old(self)@ }),
    {
        proof {
            use_type_invariant(&*self);
        }
        self.vote = Some(StoredVote(vote));
    }

    /// The highest index known to be committed; 0 where none is.
    pub fn committed(&self) -> (r: u64)
        ensures
            r == self@.committed,
    {
        self.committed
    }

    /// Raises the committed index to `index`. An index below the present one
    /// is refused and changes nothing.
    pub fn save_committed(&mut self, index: u64) -> (r: Result<(), StoreError>)
        ensures
            match r {
                Ok(_) => index >= old(self)@.committed && final(self)@ == (LogStoreView {
                    committed: index,
                    ..old(self)@
                }),
                Err(e) => index < old(self)@.committed && e == StoreError::InvariantViolation
                    && final(self)@ == old(self)@,
            },
    {
        proof {
            use_type_invariant(&*self);
        }
        if index < self.committed {
            return Err(StoreError::InvariantViolation);
        }
        self.committed = index;
        Ok(())
    }

    /// The highest index purged; 0 where nothing was purged.
    pub fn last_purged(&self) -> (r: u64)
        ensures
            r == self@.purged,
    {
        self.purged
    }

    /// The index of the last retained entry, or the last purged index where
    /// none is retained.
    pub fn last_index(&self) -> (r: u64)
        ensures
            r == self@.last_index(),
            self@.well_formed(),
    {
        proof {
            use_type_invariant(self);
        }
        let n = self.entries.len();
        if n == 0 {
            self.purged
        } else {
            assert(self@.entries[n - 1].index == self@.first_index() + (n - 1));
            self.entries[n - 1].index
        }
    }

    /// The number of retained entries.
    pub fn len(&self) -> (r: usize)
        ensures
            r == self@.entries.len(),
    {
        self.entries.len()
    }

    fn position(&self, index: u64) -> (r: Option<usize>)
        ensures
            self@.well_formed(),
            match r {
                Some(p) => self@.contains(index as int) && p == index - self@.first_index(),
                None => !self@.contains(index as int),
            },
    {
        proof {
            use_type_invariant(self);
        }
        let last = self.last_index();
        if index <= self.purged || index > last {
            None
        } else {
            let n = self.entries.len();
            let offset = index - self.purged - 1;
            assert(offset < n);
            Some(offset as usize)
        }
    }

    /// The retained entry at `index`, if there is one.
    pub fn entry(&self, index: u64) -> (r: Option<&LogEntry>)
        ensures
            match r {
                Some(e) => self@.contains(index as int) && e@ == self@.entry_at(index as int),
                None => !self@.contains(index as int),
            },
    {
        match self.position(index) {
            Some(p) => Some(&self.entries[p]),
            None => None,
        }
    }

    fn agrees(&self, entry: &LogEntry) -> (r: bool)
        ensures
            r == self@.agrees(entry@),
    {
        match self.position(entry.index) {
            Some(p) => self.entries[p].term == entry.term,
            None => false,
        }
    }

    /// Appends `batch`. Entries that the log already holds, index and term,
    /// stay as they are. From the first entry that it does not hold, the log
    /// drops what it has at and after that index and takes the rest of the
    /// batch. A batch with a gap, one that starts in the purged part or
    /// beyond the end, or one that would replace a committed entry is refused
    /// and changes nothing.
    pub fn append(&mut self, batch: Vec<LogEntry>) -> (r: Result<(), StoreError>)
        ensures
            match r {
                Ok(_) => old(self)@.append(entry_views(batch@)) == Ok::<
                    LogStoreView,
                    StoreError,
                >(final(self)@),
                Err(e) => old(self)@.append(entry_views(batch@)) == Err::<
                    LogStoreView,
                    StoreError,
                >(e) && final(self)@ == old(self)@,
            },
            final(self)@.well_formed(),
    {
        proof {
            use_type_invariant(&*self);
        }
        let ghost views = entry_views(batch@);
        let ghost before = self@;
        let n = batch.len();
        if n == 0 {
            proof {
                lemma_first_mismatch(before, views, 0);
            }
            return Ok(());
        }
        let last = self.last_index();
        let start = batch[0].index;
        if !check_contiguous(&batch) || start <= self.purged || (start > last && start - last
            != 1) {
            return Err(StoreError::InvariantViolation);
        }
        let mut j: usize = 0;
        while j < n && self.agrees(&batch[j])
            invariant
                0 <= j <= n,
                n == batch@.len(),
                views == entry_views(batch@),
                before == self@,
                forall|k: int| 0 <= k < j ==> before.agrees(#[trigger] views[k]),
            decreases n - j,
        {
            j += 1;
        }
        proof {
            lemma_first_mismatch(before, views, j as int);
        }
        if j == n {
            return Ok(());
        }
        let at = batch[j].index;
        assert(before.first_index() <= at <= before.last_index() + 1) by {
            assert(views[j as int].index == views[0].index + j);
            if j > 0 {
                assert(before.agrees(views[j - 1]));
                assert(views[j - 1].index == views[0].index + (j - 1));
            }
        }
        if at <= last && at <= self.committed {
            return Err(StoreError::InvariantViolation);
        }
        let keep = (at - self.purged - 1) as usize;
        let mut batch = batch;
        let mut tail = batch.split_off(j);
        let mut entries: Vec<LogEntry> = Vec::new();
        core::mem::swap(&mut self.entries, &mut entries);
        entries.truncate(keep);
        entries.append(&mut tail);
        proof {
            let after = entry_views(entries@);
            let want = before.entries.take(keep as int) + views.skip(j as int);
            assert(after =~= want);
            assert forall|i: int| 0 <= i < after.len() implies (#[trigger] after[i]).index
                == before.first_index() + i by {
                if i < keep {
                    assert(after[i] == before.entries[i]);
                } else {
                    assert(after[i] == views[j + (i - keep)]);
                    assert(views[j + (i - keep)].index == views[0].index + (j + (i - keep)));
                }
            }
        }
        core::mem::swap(&mut self.entries, &mut entries);
        Ok(())
    }

    /// Discards the entries at and after `from`. Where one of them is
    /// committed the call is refused and changes nothing.
    pub fn truncate(&mut self, from: u64) -> (r: Result<(), StoreError>)
        ensures
            match r {
                Ok(_) => old(self)@.truncate(from as int) == Ok::<LogStoreView, StoreError>(
                    final(self)@,
                ),
                Err(e) => old(self)@.truncate(from as int) == Err::<LogStoreView, StoreError>(e)
                    && final(self)@ == old(self)@,
            },
            final(self)@.well_formed(),
    {
        proof {
            use_type_invariant(&*self);
        }
        let ghost before = self@;
        let last = self.last_index();
        let top = if self.committed < last {
            self.committed
        } else {
            last
        };
        if from <= top && self.purged < top {
            return Err(StoreError::InvariantViolation);
        }
        if from > last {
            return Ok(());
        }
        let keep = if from <= self.purged {
            0
        } else {
            let n = self.entries.len();
            let offset = from - self.purged - 1;
            assert(offset < n);
            offset as usize
        };
        let mut entries: Vec<LogEntry> = Vec::new();
        core::mem::swap(&mut self.entries, &mut entries);
        entries.truncate(keep);
        proof {
            assert(entry_views(entries@) =~= before.entries.take(keep as int));
        }
        core::mem::swap(&mut self.entries, &mut entries);
        Ok(())
    }

    /// Discards the entries at and before `up_to` for good. An index above
    /// the committed one is refused and changes nothing.
    pub fn purge(&mut self, up_to: u64) -> (r: Result<(), StoreError>)
        ensures
            match r {
                Ok(_) => old(self)@.purge(up_to) == Ok::<LogStoreView, StoreError>(final(self)@),
                Err(e) => old(self)@.purge(up_to) == Err::<LogStoreView, StoreError>(e)
                    && final(self)@ == old(self)@,
            },
            final(self)@.well_formed(),
    {
        proof {
            use_type_invariant(&*self);
        }
        let ghost before = self@;
        if up_to > self.committed {
            return Err(StoreError::InvariantViolation);
        }
        if up_to <= self.purged {
            return Ok(());
        }
        let last = self.last_index();
        let n = self.entries.len();
        let gone = if up_to > last {
            n
        } else {
            let offset = up_to - self.purged;
            assert(offset <= n);
            offset as usize
        };
        let mut entries: Vec<LogEntry> = Vec::new();
        core::mem::swap(&mut self.entries, &mut entries);
        let rest = entries.split_off(gone);
        proof {
            assert(entry_views(rest@) =~= before.entries.skip(gone as int));
        }
        self.purged = up_to;
        self.entries = rest;
        Ok(())
    }

    /// Copies of the retained entries with indices from `first` to `last`,
    /// both included, in log order.
    pub fn entries_between(&self, first: u64, last: u64) -> (r: Vec<LogEntry>)
        ensures
            entry_views(r@) == self@.range(first as int, last as int),
    {
        proof {
            use_type_invariant(self);
        }
        let end = self.last_index();
        let n = self.entries.len();
        let mut out: Vec<LogEntry> = Vec::new();
        if last <= self.purged || first > end || first > last || n == 0 {
            assert(entry_views(out@) =~= self@.range(first as int, last as int));
            return out;
        }
        let lo: usize = if first <= self.purged {
            0
        } else {
            let offset = first - self.purged - 1;
            assert(offset < n);
            offset as usize
        };
        let hi: usize = if last >= end {
            n
        } else {
            let offset = last - self.purged;
            assert(offset <= n);
            offset as usize
        };
        let mut i: usize = lo;
        while i < hi
            invariant
                lo <= i <= hi <= n,
                n == self.entries@.len(),
                out@.len() == i - lo,
                forall|k: int| 0 <= k < i - lo ==> (#[trigger] out@[k])@ == self.entries@[lo + k]@,
            decreases hi - i,
        {
            out.push(self.entries[i].clone());
            i += 1;
        }
        assert(entry_views(out@) =~= self@.range(first as int, last as int));
        out
    }

    /// A reader that sees the log as it is now: every entry appended so far,
    /// and the vote.
    pub fn get_log_reader(&self) -> (r: LogReader)
        ensures
            r@ == self@,
            r@.well_formed(),
    {
        proof {
            use_type_invariant(self);
        }
        LogReader { log: self.clone() }
    }
}

impl Clone for LogStore {
    fn clone(&self) -> (r: Self)
        ensures
            r@ == self@,
    {
        proof {
            use_type_invariant(self);
        }
        let vote = match &self.vote {
            Some(v) => Some(v.clone()),
            None => None,
        };
        let mut entries: Vec<LogEntry> = Vec::new();
        let mut i: usize = 0;
        while i < self.entries.len()
            invariant
                i <= self.entries@.len(),
                entries@.len() == i,
                forall|k: int| 0 <= k < i ==> (#[trigger] entries@[k])@ == self.entries@[k]@,
            decreases self.entries@.len() - i,
        {
            entries.push(self.entries[i].clone());
            i += 1;
        }
        assert(entry_views(entries@) =~= entry_views(self.entries@));
        LogStore { vote, committed: self.committed, purged: self.purged, entries }
    }
}

/// A view of the log at one moment, for replication and catch-up. It is not
/// touched by what is appended, truncated or purged after it was made.
#[derive(Debug)]
pub struct LogReader {
    log: LogStore,
}

impl View for LogReader {
    type V = LogStoreView;

    closed spec fn view(&self) -> LogStoreView {
        self.log@
    }
}

impl LogReader {
    /// The vote as it was saved when the reader was made.
    pub fn read_vote(&self) -> (r: Option<Vote>)
        ensures
            match r {
                Some(v) => self@.vote == Some(v@),
                None => self@.vote is None,
            },
    {
        self.log.read_vote()
    }

    /// The highest index purged; 0 where nothing was purged.
    pub fn last_purged(&self) -> (r: u64)
        ensures
            r == self@.purged,
    {
        self.log.last_purged()
    }

    /// The index of the last entry, or the last purged index where there is
    /// none.
    pub fn last_index(&self) -> (r: u64)
        ensures
            r == self@.last_index(),
    {
        self.log.last_index()
    }

    /// The entry at `index`, if the reader holds one.
    pub fn entry(&self, index: u64) -> (r: Option<&LogEntry>)
        ensures
            match r {
                Some(e) => self@.contains(index as int) && e@ == self@.entry_at(index as int),
                None => !self@.contains(index as int),
            },
    {
        self.log.entry(index)
    }

    /// Copies of the entries with indices from `first` to `last`, both
    /// included, in log order.
    pub fn entries_between(&self, first: u64, last: u64) -> (r: Vec<LogEntry>)
        ensures
            entry_views(r@) == self@.range(first as int, last as int),
    {
        self.log.entries_between(first, last)
    }
}

} // verus!

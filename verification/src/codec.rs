//! The persisted layout: how a vote, the log and a snapshot are written as
//! bytes and read back.
//!
//! A number is eight bytes, least significant first. A run of bytes is its
//! length as a number, then the bytes. A text is the run of its UTF-8 bytes.
//! An optional value is one tag byte, 0 for none and 1 for some, then the
//! value. A list is its length as a number, then its items.

use vstd::prelude::*;
use vstd::bytes::{
    lemma_auto_spec_u64_to_from_le_bytes, spec_u64_from_le_bytes, spec_u64_to_le_bytes,
    u64_from_le_bytes, u64_to_le_bytes,
};
use vstd::slice::{slice_subrange, slice_to_vec};
use vstd::utf8::{
    decode_utf8, encode_utf8, encode_utf8_decode_utf8, encode_utf8_valid_utf8, valid_utf8,
};
use crate::types::{LogEntry, LogEntryView, Vote, VoteView, entry_views};

verus! {

/// Whether `part` stands in `bytes` at position `at`.
pub open spec fn holds(bytes: Seq<u8>, at: int, part: Seq<u8>) -> bool {
    0 <= at && at + part.len() <= bytes.len() && bytes.subrange(at, at + part.len()) == part
}

/// Where two parts stand one after the other, each stands at its place.
pub proof fn lemma_holds_both(bytes: Seq<u8>, at: int, first: Seq<u8>, second: Seq<u8>)
    requires
        holds(bytes, at, first + second),
    ensures
        holds(bytes, at, first),
        holds(bytes, at + first.len(), second),
{
    let whole = first + second;
    assert(bytes.subrange(at, at + first.len()) =~= whole.subrange(0, first.len() as int));
    assert(whole.subrange(0, first.len() as int) =~= first);
    assert(bytes.subrange(at + first.len(), at + first.len() + second.len()) =~= whole.subrange(
        first.len() as int,
        whole.len() as int,
    ));
    assert(whole.subrange(first.len() as int, whole.len() as int) =~= second);
}

/// The bytes of a number.
pub open spec fn ser_u64(x: u64) -> Seq<u8> {
    spec_u64_to_le_bytes(x)
}

/// The bytes of a run of bytes.
pub open spec fn ser_bytes(run: Seq<u8>) -> Seq<u8> {
    ser_u64(run.len() as u64) + run
}

/// The bytes of a text.
pub open spec fn ser_text(text: Seq<char>) -> Seq<u8> {
    ser_bytes(encode_utf8(text))
}

/// The bytes of an optional text.
pub open spec fn ser_opt_text(text: Option<Seq<char>>) -> Seq<u8> {
    match text {
        None => seq![0u8],
        Some(t) => seq![1u8] + ser_text(t),
    }
}

/// The number that stands in `bytes` at `at`, and the position after it.
pub open spec fn parse_u64(bytes: Seq<u8>, at: int) -> Option<(u64, int)> {
    if 0 <= at && at + 8 <= bytes.len() {
        Some((spec_u64_from_le_bytes(bytes.subrange(at, at + 8)), at + 8))
    } else {
        None
    }
}

/// The run of bytes that stands in `bytes` at `at`, and the position after
/// it.
pub open spec fn parse_bytes(bytes: Seq<u8>, at: int) -> Option<(Seq<u8>, int)> {
    match parse_u64(bytes, at) {
        Some((n, p)) => if p + n <= bytes.len() {
            Some((bytes.subrange(p, p + n), p + n))
        } else {
            None
        },
        None => None,
    }
}

/// The text that stands in `bytes` at `at`, and the position after it.
pub open spec fn parse_text(bytes: Seq<u8>, at: int) -> Option<(Seq<char>, int)> {
    match parse_bytes(bytes, at) {
        Some((run, p)) => if valid_utf8(run) {
            Some((decode_utf8(run), p))
        } else {
            None
        },
        None => None,
    }
}

/// The optional text that stands in `bytes` at `at`, and the position after
/// it.
pub open spec fn parse_opt_text(bytes: Seq<u8>, at: int) -> Option<(Option<Seq<char>>, int)> {
    if 0 <= at < bytes.len() {
        if bytes[at] == 0 {
            Some((None, at + 1))
        } else if bytes[at] == 1 {
            match parse_text(bytes, at + 1) {
                Some((t, p)) => Some((Some(t), p)),
                None => None,
            }
        } else {
            None
        }
    } else {
        None
    }
}

/// Whether the length of a run of bytes can be written as a number.
pub open spec fn bytes_fit(run: Seq<u8>) -> bool {
    run.len() <= u64::MAX
}

/// Whether the length of the UTF-8 form of a text can be written as a number.
pub open spec fn text_fits(text: Seq<char>) -> bool {
    bytes_fit(encode_utf8(text))
}

/// Whether an optional text can be written.
pub open spec fn opt_text_fits(text: Option<Seq<char>>) -> bool {
    match text {
        Some(t) => text_fits(t),
        None => true,
    }
}

/// A number that was written is read back.
pub proof fn lemma_read_back_u64(bytes: Seq<u8>, at: int, x: u64)
    requires
        holds(bytes, at, ser_u64(x)),
    ensures
        ser_u64(x).len() == 8,
        parse_u64(bytes, at) == Some((x, at + 8)),
{
    lemma_auto_spec_u64_to_from_le_bytes();
}

/// A run of bytes that was written is read back.
pub proof fn lemma_read_back_bytes(bytes: Seq<u8>, at: int, run: Seq<u8>)
    requires
        bytes_fit(run),
        holds(bytes, at, ser_bytes(run)),
    ensures
        ser_bytes(run).len() == 8 + run.len(),
        parse_bytes(bytes, at) == Some((run, at + ser_bytes(run).len())),
{
    lemma_auto_spec_u64_to_from_le_bytes();
    lemma_holds_both(bytes, at, ser_u64(run.len() as u64), run);
    lemma_read_back_u64(bytes, at, run.len() as u64);
}

/// A text that was written is read back.
pub proof fn lemma_read_back_text(bytes: Seq<u8>, at: int, text: Seq<char>)
    requires
        text_fits(text),
        holds(bytes, at, ser_text(text)),
    ensures
        parse_text(bytes, at) == Some((text, at + ser_text(text).len())),
{
    lemma_read_back_bytes(bytes, at, encode_utf8(text));
    encode_utf8_valid_utf8(text);
    encode_utf8_decode_utf8(text);
}

/// An optional text that was written is read back.
pub proof fn lemma_read_back_opt_text(bytes: Seq<u8>, at: int, text: Option<Seq<char>>)
    requires
        opt_text_fits(text),
        holds(bytes, at, ser_opt_text(text)),
    ensures
        parse_opt_text(bytes, at) == Some((text, at + ser_opt_text(text).len())),
{
    assert(bytes[at] == bytes.subrange(at, at + ser_opt_text(text).len())[0]);
    match text {
        None => {},
        Some(t) => {
            lemma_holds_both(bytes, at, seq![1u8], ser_text(t));
            lemma_read_back_text(bytes, at + 1, t);
        },
    }
}

pub(crate) fn put_u64(out: &mut Vec<u8>, x: u64)
    ensures
        final(out)@ == old(out)@ + ser_u64(x),
{
    let mut part = u64_to_le_bytes(x);
    out.append(&mut part);
}

fn put_bytes(out: &mut Vec<u8>, run: &[u8])
    ensures
        final(out)@ == old(out)@ + ser_bytes(run@),
        bytes_fit(run@),
{
    put_u64(out, run.len() as u64);
    let mut part = slice_to_vec(run);
    out.append(&mut part);
    assert(out@ =~= old(out)@ + ser_bytes(run@));
}

pub(crate) fn put_text(out: &mut Vec<u8>, text: &String)
    ensures
        final(out)@ == old(out)@ + ser_text(text@),
        text_fits(text@),
{
    put_bytes(out, text.as_str().as_bytes());
}

pub(crate) fn put_opt_text(out: &mut Vec<u8>, text: &Option<String>)
    ensures
        final(out)@ == old(out)@ + ser_opt_text(
            match text {
                Some(t) => Some(t@),
                None => None,
            },
        ),
        opt_text_fits(
            match text {
                Some(t) => Some(t@),
                None => None,
            },
        ),
{
    match text {
        None => {
            out.push(0u8);
            assert(out@ =~= old(out)@ + seq![0u8]);
        },
        Some(t) => {
            out.push(1u8);
            put_text(out, t);
            assert(out@ =~= old(out)@ + (seq![1u8] + ser_text(t@)));
        },
    }
}

pub(crate) fn get_u64(bytes: &[u8], at: usize) -> (r: Option<(u64, usize)>)
    ensures
        match r {
            Some((x, p)) => parse_u64(bytes@, at as int) == Some((x, p as int)),
            None => parse_u64(bytes@, at as int) is None,
        },
{
    let n = bytes.len();
    if at > n || n - at < 8 {
        return None;
    }
    let x = u64_from_le_bytes(slice_subrange(bytes, at, at + 8));
    Some((x, at + 8))
}

fn get_bytes(bytes: &[u8], at: usize) -> (r: Option<(Vec<u8>, usize)>)
    ensures
        match r {
            Some((run, p)) => parse_bytes(bytes@, at as int) == Some((run@, p as int)),
            None => parse_bytes(bytes@, at as int) is None,
        },
{
    match get_u64(bytes, at) {
        None => None,
        Some((n, p)) => {
            let room = bytes.len() - p;
            if n > room as u64 {
                return None;
            }
            let end = p + n as usize;
            Some((slice_to_vec(slice_subrange(bytes, p, end)), end))
        },
    }
}

/// `String::from_utf8`: the text that `bytes` are the UTF-8 form of, where
/// they are one.
#[verifier::external_body]
fn text_from_utf8(bytes: Vec<u8>) -> (r: Option<String>)
    ensures
        match r {
            Some(text) => valid_utf8(bytes@) && text@ == decode_utf8(bytes@),
            None => !valid_utf8(bytes@),
        },
{
    String::from_utf8(bytes).ok()
}

pub(crate) fn get_text(bytes: &[u8], at: usize) -> (r: Option<(String, usize)>)
    ensures
        match r {
            Some((text, p)) => parse_text(bytes@, at as int) == Some((text@, p as int)),
            None => parse_text(bytes@, at as int) is None,
        },
{
    match get_bytes(bytes, at) {
        None => None,
        Some((run, p)) => match text_from_utf8(run) {
            Some(text) => Some((text, p)),
            None => None,
        },
    }
}

pub(crate) fn get_opt_text(bytes: &[u8], at: usize) -> (r: Option<(Option<String>, usize)>)
    ensures
        match r {
            Some((text, p)) => parse_opt_text(bytes@, at as int) == Some(
                (
                    match text {
                        Some(t) => Some(t@),
                        None => None,
                    },
                    p as int,
                ),
            ),
            None => parse_opt_text(bytes@, at as int) is None,
        },
{
    if at >= bytes.len() {
        return None;
    }
    let tag = bytes[at];
    if tag == 0 {
        Some((None, at + 1))
    } else if tag == 1 {
        match get_text(bytes, at + 1) {
            Some((text, p)) => Some((Some(text), p)),
            None => None,
        }
    } else {
        None
    }
}

/// The bytes of a vote record.
pub open spec fn ser_vote(vote: VoteView) -> Seq<u8> {
    ser_u64(vote.term) + ser_opt_text(vote.voted_for)
}

/// The vote that `bytes` are the record of, where they are one from end to
/// end.
pub open spec fn parse_vote(bytes: Seq<u8>) -> Option<VoteView> {
    match parse_u64(bytes, 0) {
        Some((term, p)) => match parse_opt_text(bytes, p) {
            Some((voted_for, q)) => if q == bytes.len() {
                Some(VoteView { term, voted_for })
            } else {
                None
            },
            None => None,
        },
        None => None,
    }
}

/// Vote durability: the record of a vote is read back as that vote.
pub proof fn law_vote_record_round_trip(vote: VoteView)
    requires
        opt_text_fits(vote.voted_for),
    ensures
        parse_vote(ser_vote(vote)) == Some(vote),
{
    let bytes = ser_vote(vote);
    assert(bytes.subrange(0, bytes.len() as int) =~= bytes);
    lemma_holds_both(bytes, 0, ser_u64(vote.term), ser_opt_text(vote.voted_for));
    lemma_read_back_u64(bytes, 0, vote.term);
    lemma_read_back_opt_text(bytes, 8, vote.voted_for);
}

/// Writes the record of `vote`, which `decode_vote` reads back as that vote.
pub fn encode_vote(vote: &Vote) -> (r: Vec<u8>)
    ensures
        r@ == ser_vote(vote@),
        parse_vote(r@) == Some(vote@),
{
    let mut out: Vec<u8> = Vec::new();
    put_u64(&mut out, vote.term);
    put_opt_text(&mut out, &vote.voted_for);
    proof {
        assert(out@ =~= ser_vote(vote@));
        law_vote_record_round_trip(vote@);
    }
    out
}

/// Reads a vote record. `None` where `bytes` are no such record.
pub fn decode_vote(bytes: &[u8]) -> (r: Option<Vote>)
    ensures
        match r {
            Some(vote) => parse_vote(bytes@) == Some(vote@),
            None => parse_vote(bytes@) is None,
        },
{
    match get_u64(bytes, 0) {
        None => None,
        Some((term, p)) => match get_opt_text(bytes, p) {
            None => None,
            Some((voted_for, q)) => if q == bytes.len() {
                Some(Vote { term, voted_for })
            } else {
                None
            },
        },
    }
}

/// The bytes of some items, one after the other, where `ser` gives the bytes
/// of one.
pub open spec fn ser_list<T>(items: Seq<T>, ser: spec_fn(T) -> Seq<u8>) -> Seq<u8>
    decreases items.len(),
{
    if items.len() == 0 {
        Seq::empty()
    } else {
        ser(items[0]) + ser_list(items.drop_first(), ser)
    }
}

/// The `count` items that stand in `bytes` from `at` on, and the position
/// after them, where `parse` reads one.
pub open spec fn parse_list<T>(
    bytes: Seq<u8>,
    at: int,
    count: nat,
    parse: spec_fn(Seq<u8>, int) -> Option<(T, int)>,
) -> Option<(Seq<T>, int)>
    decreases count,
{
    if count == 0 {
        Some((Seq::empty(), at))
    } else {
        match parse(bytes, at) {
            Some((item, p)) => match parse_list(bytes, p, (count - 1) as nat, parse) {
                Some((rest, q)) => Some((seq![item] + rest, q)),
                None => None,
            },
            None => None,
        }
    }
}

/// Whether `parse` reads `item` back wherever the bytes that `ser` gives for
/// it stand.
pub open spec fn reads_back<T>(
    item: T,
    ser: spec_fn(T) -> Seq<u8>,
    parse: spec_fn(Seq<u8>, int) -> Option<(T, int)>,
) -> bool {
    forall|bytes: Seq<u8>, at: int| #[trigger]
        holds(bytes, at, ser(item)) ==> parse(bytes, at) == Some((item, at + ser(item).len()))
}

/// Items that were written are read back, where each of them is.
pub proof fn lemma_read_back_list<T>(
    bytes: Seq<u8>,
    at: int,
    items: Seq<T>,
    ser: spec_fn(T) -> Seq<u8>,
    parse: spec_fn(Seq<u8>, int) -> Option<(T, int)>,
)
    requires
        holds(bytes, at, ser_list(items, ser)),
        forall|i: int| 0 <= i < items.len() ==> reads_back(#[trigger] items[i], ser, parse),
    ensures
        parse_list(bytes, at, items.len(), parse) == Some(
            (items, at + ser_list(items, ser).len()),
        ),
    decreases items.len(),
{
    if items.len() > 0 {
        let first = items[0];
        let rest = items.drop_first();
        lemma_holds_both(bytes, at, ser(first), ser_list(rest, ser));
        assert(reads_back(first, ser, parse));
        assert(holds(bytes, at, ser(first)));
        assert forall|i: int| 0 <= i < rest.len() implies reads_back(
            #[trigger] rest[i],
            ser,
            parse,
        ) by {
            assert(rest[i] == items[i + 1]);
        }
        lemma_read_back_list(bytes, at + ser(first).len(), rest, ser, parse);
        assert(seq![first] + rest =~= items);
    }
}

pub(crate) proof fn lemma_ser_list_push<T>(items: Seq<T>, item: T, ser: spec_fn(T) -> Seq<u8>)
    ensures
        ser_list(items.push(item), ser) == ser_list(items, ser) + ser(item),
    decreases items.len(),
{
    let pushed = items.push(item);
    if items.len() == 0 {
        assert(pushed.drop_first() =~= items);
        assert(pushed[0] == item);
        assert(ser_list(items, ser) =~= Seq::<u8>::empty());
        assert(ser_list(pushed, ser) == ser(item) + ser_list(items, ser));
        assert(ser_list(pushed, ser) =~= ser_list(items, ser) + ser(item));
    } else {
        assert(pushed.drop_first() =~= items.drop_first().push(item));
        lemma_ser_list_push(items.drop_first(), item, ser);
        assert(ser_list(pushed, ser) =~= ser_list(items, ser) + ser(item));
    }
}

/// `done` followed by what was parsed after it.
pub open spec fn join<T>(done: Seq<T>, parsed: Option<(Seq<T>, int)>) -> Option<(Seq<T>, int)> {
    match parsed {
        Some((rest, q)) => Some((done + rest, q)),
        None => None,
    }
}

pub(crate) proof fn lemma_parse_list_start<T>(parsed: Option<(Seq<T>, int)>)
    ensures
        join(Seq::empty(), parsed) == parsed,
{
    match parsed {
        Some((rest, q)) => {
            assert(Seq::<T>::empty() + rest =~= rest);
        },
        None => {},
    }
}

pub(crate) proof fn lemma_parse_list_step<T>(
    bytes: Seq<u8>,
    at: int,
    count: nat,
    done: Seq<T>,
    whole: Option<(Seq<T>, int)>,
    parse: spec_fn(Seq<u8>, int) -> Option<(T, int)>,
)
    requires
        whole == join(done, parse_list(bytes, at, count, parse)),
    ensures
        count == 0 ==> whole == Some((done, at)),
        count > 0 ==> match parse(bytes, at) {
            Some((item, p)) => whole == join(
                done.push(item),
                parse_list(bytes, p, (count - 1) as nat, parse),
            ),
            None => whole is None,
        },
{
    if count == 0 {
        assert(done + Seq::<T>::empty() =~= done);
    } else {
        match parse(bytes, at) {
            Some((item, p)) => {
                match parse_list(bytes, p, (count - 1) as nat, parse) {
                    Some((rest, q)) => {
                        assert(done + (seq![item] + rest) =~= done.push(item) + rest);
                    },
                    None => {},
                }
            },
            None => {},
        }
    }
}

/// The bytes of a log entry.
pub open spec fn ser_entry(entry: LogEntryView) -> Seq<u8> {
    ser_u64(entry.index) + ser_u64(entry.term) + ser_bytes(entry.payload)
}

/// The log entry that stands in `bytes` at `at`, and the position after it.
pub open spec fn parse_entry(bytes: Seq<u8>, at: int) -> Option<(LogEntryView, int)> {
    match parse_u64(bytes, at) {
        Some((index, p)) => match parse_u64(bytes, p) {
            Some((term, q)) => match parse_bytes(bytes, q) {
                Some((payload, r)) => Some((LogEntryView { index, term, payload }, r)),
                None => None,
            },
            None => None,
        },
        None => None,
    }
}

/// `ser_entry` as a value.
pub open spec fn entry_writer() -> spec_fn(LogEntryView) -> Seq<u8> {
    |entry: LogEntryView| ser_entry(entry)
}

/// `parse_entry` as a value.
pub open spec fn entry_reader() -> spec_fn(Seq<u8>, int) -> Option<(LogEntryView, int)> {
    |bytes: Seq<u8>, at: int| parse_entry(bytes, at)
}

/// Whether each of the entries can be written.
pub open spec fn entries_fit(entries: Seq<LogEntryView>) -> bool {
    entries.len() <= u64::MAX && forall|i: int|
        0 <= i < entries.len() ==> bytes_fit((#[trigger] entries[i]).payload)
}

/// A log entry that was written is read back.
pub proof fn lemma_read_back_entry(bytes: Seq<u8>, at: int, entry: LogEntryView)
    requires
        bytes_fit(entry.payload),
        holds(bytes, at, ser_entry(entry)),
    ensures
        parse_entry(bytes, at) == Some((entry, at + ser_entry(entry).len())),
{
    let head = ser_u64(entry.index) + ser_u64(entry.term);
    lemma_holds_both(bytes, at, head, ser_bytes(entry.payload));
    lemma_holds_both(bytes, at, ser_u64(entry.index), ser_u64(entry.term));
    lemma_read_back_u64(bytes, at, entry.index);
    lemma_read_back_u64(bytes, at + 8, entry.term);
    lemma_read_back_bytes(bytes, at + 16, entry.payload);
}

fn put_entry(out: &mut Vec<u8>, entry: &LogEntry)
    ensures
        final(out)@ == old(out)@ + ser_entry(entry@),
        bytes_fit(entry@.payload),
{
    put_u64(out, entry.index);
    put_u64(out, entry.term);
    put_bytes(out, entry.payload.as_slice());
    assert(out@ =~= old(out)@ + ser_entry(entry@));
}

fn get_entry(bytes: &[u8], at: usize) -> (r: Option<(LogEntry, usize)>)
    ensures
        match r {
            Some((entry, p)) => parse_entry(bytes@, at as int) == Some((entry@, p as int)),
            None => parse_entry(bytes@, at as int) is None,
        },
{
    let (index, p) = match get_u64(bytes, at) {
        Some(found) => found,
        None => { return None; },
    };
    let (term, q) = match get_u64(bytes, p) {
        Some(found) => found,
        None => { return None; },
    };
    match get_bytes(bytes, q) {
        Some((payload, r)) => Some((LogEntry { index, term, payload }, r)),
        None => None,
    }
}

fn put_entries(out: &mut Vec<u8>, entries: &Vec<LogEntry>)
    ensures
        final(out)@ == old(out)@ + ser_list(entry_views(entries@), entry_writer()),
        entries_fit(entry_views(entries@)),
{
    let ghost views = entry_views(entries@);
    let mut i: usize = 0;
    assert(views.take(0) =~= Seq::<LogEntryView>::empty());
    assert(out@ =~= old(out)@ + ser_list(views.take(0), entry_writer()));
    while i < entries.len()
        invariant
            i <= entries@.len(),
            views == entry_views(entries@),
            out@ == old(out)@ + ser_list(views.take(i as int), entry_writer()),
            forall|k: int| 0 <= k < i ==> bytes_fit((#[trigger] views[k]).payload),
        decreases entries@.len() - i,
    {
        put_entry(out, &entries[i]);
        proof {
            lemma_ser_list_push(views.take(i as int), views[i as int], entry_writer());
            assert(views.take(i as int).push(views[i as int]) =~= views.take(i + 1));
            assert(out@ =~= old(out)@ + ser_list(views.take(i + 1), entry_writer()));
        }
        i += 1;
    }
    assert(views.take(i as int) =~= views);
}

fn get_entries(bytes: &[u8], at: usize, count: u64) -> (r: Option<(Vec<LogEntry>, usize)>)
    ensures
        match r {
            Some((entries, p)) => parse_list(bytes@, at as int, count as nat, entry_reader())
                == Some((entry_views(entries@), p as int)),
            None => parse_list(bytes@, at as int, count as nat, entry_reader()) is None,
        },
{
    let ghost whole = parse_list(bytes@, at as int, count as nat, entry_reader());
    let mut entries: Vec<LogEntry> = Vec::new();
    let mut p: usize = at;
    let mut i: u64 = 0;
    proof {
        lemma_parse_list_start(whole);
        assert(entry_views(entries@) =~= Seq::<LogEntryView>::empty());
    }
    while i < count
        invariant
            i <= count,
            whole == parse_list(bytes@, at as int, count as nat, entry_reader()),
            whole == join(
                entry_views(entries@),
                parse_list(bytes@, p as int, (count - i) as nat, entry_reader()),
            ),
        decreases count - i,
    {
        proof {
            lemma_parse_list_step(
                bytes@,
                p as int,
                (count - i) as nat,
                entry_views(entries@),
                whole,
                entry_reader(),
            );
            assert(entry_reader()(bytes@, p as int) == parse_entry(bytes@, p as int));
        }
        match get_entry(bytes, p) {
            None => { return None; },
            Some((entry, q)) => {
                let ghost before = entry_views(entries@);
                entries.push(entry);
                assert(entry_views(entries@) =~= before.push(entry@));
                p = q;
            },
        }
        i += 1;
    }
    proof {
        lemma_parse_list_step(bytes@, p as int, 0, entry_views(entries@), whole, entry_reader());
    }
    Some((entries, p))
}

/// What is persisted of the log besides the vote.
pub struct LogImage {
    pub committed: u64,
    pub purged: u64,
    pub entries: Seq<LogEntryView>,
}

/// The bytes of a log image.
pub open spec fn ser_log(image: LogImage) -> Seq<u8> {
    ser_u64(image.committed) + ser_u64(image.purged) + ser_u64(image.entries.len() as u64)
        + ser_list(image.entries, entry_writer())
}

/// The log image that `bytes` hold, where they hold one from end to end.
pub open spec fn parse_log(bytes: Seq<u8>) -> Option<LogImage> {
    match parse_u64(bytes, 0) {
        Some((committed, p)) => match parse_u64(bytes, p) {
            Some((purged, q)) => match parse_u64(bytes, q) {
                Some((count, r)) => match parse_list(bytes, r, count as nat, entry_reader()) {
                    Some((entries, end)) => if end == bytes.len() {
                        Some(LogImage { committed, purged, entries })
                    } else {
                        None
                    },
                    None => None,
                },
                None => None,
            },
            None => None,
        },
        None => None,
    }
}

/// A log image that was written is read back.
pub proof fn law_log_image_round_trip(image: LogImage)
    requires
        entries_fit(image.entries),
    ensures
        parse_log(ser_log(image)) == Some(image),
{
    let bytes = ser_log(image);
    let count = image.entries.len() as u64;
    let list = ser_list(image.entries, entry_writer());
    assert(bytes.subrange(0, bytes.len() as int) =~= bytes);
    let head3 = ser_u64(image.committed) + ser_u64(image.purged) + ser_u64(count);
    let head2 = ser_u64(image.committed) + ser_u64(image.purged);
    lemma_holds_both(bytes, 0, head3, list);
    lemma_holds_both(bytes, 0, head2, ser_u64(count));
    lemma_holds_both(bytes, 0, ser_u64(image.committed), ser_u64(image.purged));
    lemma_read_back_u64(bytes, 0, image.committed);
    lemma_read_back_u64(bytes, 8, image.purged);
    lemma_read_back_u64(bytes, 16, count);
    assert forall|i: int| 0 <= i < image.entries.len() implies reads_back(
        #[trigger] image.entries[i],
        entry_writer(),
        entry_reader(),
    ) by {
        let entry = image.entries[i];
        assert forall|b: Seq<u8>, a: int| #[trigger]
            holds(b, a, entry_writer()(entry)) implies entry_reader()(b, a) == Some(
            (entry, a + entry_writer()(entry).len()),
        ) by {
            lemma_read_back_entry(b, a, entry);
        }
    }
    lemma_read_back_list(bytes, 24, image.entries, entry_writer(), entry_reader());
}

/// Writes the image of a log with the given marks and entries, which
/// `decode_log` reads back as they are.
pub fn encode_log(committed: u64, purged: u64, entries: &Vec<LogEntry>) -> (r: Vec<u8>)
    ensures
        r@ == ser_log(LogImage { committed, purged, entries: entry_views(entries@) }),
        parse_log(r@) == Some(LogImage { committed, purged, entries: entry_views(entries@) }),
{
    let mut out: Vec<u8> = Vec::new();
    put_u64(&mut out, committed);
    put_u64(&mut out, purged);
    put_u64(&mut out, entries.len() as u64);
    put_entries(&mut out, entries);
    proof {
        let image = LogImage { committed, purged, entries: entry_views(entries@) };
        assert(out@ =~= ser_log(image));
        law_log_image_round_trip(image);
    }
    out
}

/// Reads a log image: the committed index, the purged index and the
/// entries. `None` where `bytes` hold no such image.
pub fn decode_log(bytes: &[u8]) -> (r: Option<(u64, u64, Vec<LogEntry>)>)
    ensures
        match r {
            Some((committed, purged, entries)) => parse_log(bytes@) == Some(
                LogImage { committed, purged, entries: entry_views(entries@) },
            ),
            None => parse_log(bytes@) is None,
        },
{
    let (committed, p) = match get_u64(bytes, 0) {
        Some(found) => found,
        None => { return None; },
    };
    let (purged, q) = match get_u64(bytes, p) {
        Some(found) => found,
        None => { return None; },
    };
    let (count, r) = match get_u64(bytes, q) {
        Some(found) => found,
        None => { return None; },
    };
    match get_entries(bytes, r, count) {
        Some((entries, end)) => if end == bytes.len() {
            Some((committed, purged, entries))
        } else {
            None
        },
        None => None,
    }
}

} // verus!

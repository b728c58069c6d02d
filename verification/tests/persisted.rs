use distributed_kv::codec::{decode_log, decode_vote, encode_log, encode_vote};
use distributed_kv::log::LogStore;
use distributed_kv::snapshot::Snapshot;
use distributed_kv::store::KvStore;
use distributed_kv::types::{LogEntry, LogId, Vote};

fn number(x: u64) -> Vec<u8> {
    x.to_le_bytes().to_vec()
}

fn entry_at(index: u64, term: u64, payload: &[u8]) -> LogEntry {
    LogEntry { index, term, payload: payload.to_vec() }
}

fn command(index: u64, payload: &str) -> LogEntry {
    entry_at(index, 1, payload.as_bytes())
}

#[test]
fn vote_record_bytes() {
    let vote = Vote { term: 7, voted_for: Some("node-2".to_string()) };
    let mut want = number(7);
    want.push(1);
    want.extend(number(6));
    want.extend(b"node-2");
    assert_eq!(encode_vote(&vote), want);

    let mut none = number(0x0102030405060708);
    none.push(0);
    assert_eq!(encode_vote(&Vote { term: 0x0102030405060708, voted_for: None }), none);
    assert_eq!(&none[..8], &[8, 7, 6, 5, 4, 3, 2, 1]);
}

#[test]
fn vote_record_round_trip() {
    for vote in [
        Vote { term: 7, voted_for: Some("node-2".to_string()) },
        Vote { term: 0, voted_for: None },
        Vote { term: u64::MAX, voted_for: Some(String::new()) },
        Vote { term: 3, voted_for: Some("n\u{f6}de-\u{1f5f3}".to_string()) },
    ] {
        assert_eq!(decode_vote(&encode_vote(&vote)), Some(vote));
    }
}

#[test]
fn vote_record_that_is_damaged() {
    let good = encode_vote(&Vote { term: 7, voted_for: Some("node-2".to_string()) });
    assert_eq!(decode_vote(&[]), None);
    assert_eq!(decode_vote(&good[..good.len() - 1]), None);
    assert_eq!(decode_vote(&good[..8]), None);
    let mut longer = good.clone();
    longer.push(0);
    assert_eq!(decode_vote(&longer), None);
    let mut tag = good.clone();
    tag[8] = 2;
    assert_eq!(decode_vote(&tag), None);
    let mut length = good.clone();
    length[9] = 7;
    assert_eq!(decode_vote(&length), None);
    let mut huge = good.clone();
    for b in &mut huge[9..17] {
        *b = 0xff;
    }
    assert_eq!(decode_vote(&huge), None);
    let mut text = good.clone();
    let last = text.len() - 1;
    text[last] = 0xff;
    assert_eq!(decode_vote(&text), None);
}

#[test]
fn log_image_bytes() {
    let entries = vec![entry_at(3, 2, b"ab"), entry_at(4, 2, b"")];
    let mut want = Vec::new();
    want.extend(number(9));
    want.extend(number(2));
    want.extend(number(2));
    want.extend(number(3));
    want.extend(number(2));
    want.extend(number(2));
    want.extend(b"ab");
    want.extend(number(4));
    want.extend(number(2));
    want.extend(number(0));
    assert_eq!(encode_log(9, 2, &entries), want);
    assert_eq!(decode_log(&want), Some((9, 2, entries)));
}

#[test]
fn log_image_that_is_damaged() {
    let good = encode_log(0, 0, &vec![entry_at(1, 1, b"x")]);
    assert_eq!(decode_log(&good[..good.len() - 1]), None);
    assert_eq!(decode_log(&[]), None);
    let mut longer = good.clone();
    longer.push(7);
    assert_eq!(decode_log(&longer), None);
    let mut count = good.clone();
    count[16] = 2;
    assert_eq!(decode_log(&count), None);
    let mut endless = good.clone();
    for b in &mut endless[16..24] {
        *b = 0xff;
    }
    assert_eq!(decode_log(&endless), None);
    assert_eq!(decode_log(&encode_log(5, 5, &Vec::new())), Some((5, 5, Vec::new())));
}

#[test]
fn log_survives_a_restart() {
    let mut log = LogStore::new();
    log.append((1..=6).map(|i| entry_at(i, 1, format!("p{i}").as_bytes())).collect()).unwrap();
    log.save_committed(4).unwrap();
    log.purge(2).unwrap();
    log.save_vote(Vote { term: 7, voted_for: Some("node-2".to_string()) });

    let vote_record = encode_vote(&log.read_vote().unwrap());
    let image = log.to_bytes();

    let restarted = LogStore::from_bytes(decode_vote(&vote_record), &image).unwrap();
    assert_eq!(
        restarted.read_vote(),
        Some(Vote { term: 7, voted_for: Some("node-2".to_string()) })
    );
    assert_eq!(restarted.committed(), 4);
    assert_eq!(restarted.last_purged(), 2);
    assert_eq!(restarted.last_index(), 6);
    assert_eq!(restarted.entries_between(0, u64::MAX), log.entries_between(0, u64::MAX));
    assert_eq!(restarted.to_bytes(), image);
}

#[test]
fn log_image_of_a_broken_log_is_refused() {
    let gap = encode_log(0, 0, &vec![entry_at(1, 1, b""), entry_at(3, 1, b"")]);
    assert!(LogStore::from_bytes(None, &gap).is_none());
    let misplaced = encode_log(5, 2, &vec![entry_at(2, 1, b"")]);
    assert!(LogStore::from_bytes(None, &misplaced).is_none());
    let purged_above_committed = encode_log(1, 2, &Vec::new());
    assert!(LogStore::from_bytes(None, &purged_above_committed).is_none());
    assert!(LogStore::from_bytes(None, b"junk").is_none());
    let fine = encode_log(5, 2, &vec![entry_at(3, 1, b"")]);
    assert!(LogStore::from_bytes(None, &fine).is_some());
}

#[test]
fn snapshot_blob_bytes() {
    let mut store = KvStore::new();
    store.apply(&command(1, r#"{"client":"c","serial":1,"key":"k","value":"v"}"#)).unwrap();
    store.apply(&command(2, r#"{"client":"d","serial":9,"key":"k","op":"get"}"#)).unwrap();
    let blob = store.begin_snapshot().to_bytes();
    let mut want = vec![1u8];
    want.extend(number(1));
    want.extend(number(2));
    want.extend(number(1));
    want.extend(number(1));
    want.extend(b"k");
    want.extend(number(1));
    want.extend(b"v");
    want.extend(number(2));
    want.extend(number(1));
    want.extend(b"c");
    want.extend(number(1));
    want.push(0);
    want.extend(number(1));
    want.extend(b"d");
    want.extend(number(9));
    want.push(1);
    want.extend(number(1));
    want.extend(b"v");
    assert_eq!(blob, want);
}

#[test]
fn snapshot_blob_round_trip() {
    let mut source = KvStore::new();
    source.apply(&command(1, r#"{"client":"a","serial":1,"key":"x","value":"1"}"#)).unwrap();
    source.apply(&command(2, r#"{"client":"b","serial":1,"key":"y","value":"2"}"#)).unwrap();
    source.apply(&command(3, r#"{"client":"a","serial":2,"key":"y","op":"get"}"#)).unwrap();
    source.apply(&command(4, r#"{"client":"b","serial":2,"key":"x","op":"delete"}"#)).unwrap();
    let blob = source.begin_snapshot().to_bytes();

    let received = Snapshot::from_bytes(&blob).unwrap();
    assert_eq!(received.last_included, Some(LogId { term: 1, index: 4 }));
    let mut target = KvStore::new();
    target.install_snapshot(received.last_included, received).unwrap();
    assert_eq!(target.data().len(), 1);
    assert_eq!(target.get(&"y".to_string()), Some(&"2".to_string()));
    assert_eq!(target.get(&"x".to_string()), None);
    assert_eq!(target.applied_state().0, source.applied_state().0);
    assert_eq!(
        target.sessions().get(&"a".to_string()),
        source.sessions().get(&"a".to_string())
    );
    assert_eq!(
        target.sessions().get(&"a".to_string()).unwrap().response.value,
        Some("2".to_string())
    );
    assert_eq!(target.sessions().get(&"b".to_string()).unwrap().serial, 2);
    assert_eq!(target.begin_snapshot().to_bytes(), blob);
}

#[test]
fn snapshot_blob_of_a_new_store() {
    let blob = KvStore::new().begin_snapshot().to_bytes();
    let mut want = vec![0u8];
    want.extend(number(0));
    want.extend(number(0));
    assert_eq!(blob, want);
    let snapshot = Snapshot::from_bytes(&blob).unwrap();
    assert_eq!(snapshot.last_included, None);
    assert_eq!(snapshot.data.len(), 0);
    assert_eq!(snapshot.sessions.len(), 0);
}

#[test]
fn snapshot_blob_that_is_damaged() {
    let mut store = KvStore::new();
    store.apply(&command(1, r#"{"client":"c","serial":1,"key":"k","value":"v"}"#)).unwrap();
    let good = store.begin_snapshot().to_bytes();
    assert!(Snapshot::from_bytes(&good).is_some());
    assert!(Snapshot::from_bytes(&[]).is_none());
    assert!(Snapshot::from_bytes(&good[..good.len() - 1]).is_none());
    let mut longer = good.clone();
    longer.push(0);
    assert!(Snapshot::from_bytes(&longer).is_none());
    let mut tag = good.clone();
    tag[0] = 9;
    assert!(Snapshot::from_bytes(&tag).is_none());
    let mut count = good.clone();
    count[17] = 2;
    assert!(Snapshot::from_bytes(&count).is_none());
}

#[test]
fn snapshot_blob_with_a_key_twice_keeps_the_last() {
    let mut blob = vec![0u8];
    blob.extend(number(2));
    for value in [b"1", b"2"] {
        blob.extend(number(1));
        blob.extend(b"k");
        blob.extend(number(1));
        blob.extend(value);
    }
    blob.extend(number(0));
    let snapshot = Snapshot::from_bytes(&blob).unwrap();
    assert_eq!(snapshot.data.len(), 1);
    assert_eq!(snapshot.data.get(&"k".to_string()), Some(&"2".to_string()));
}

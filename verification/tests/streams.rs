//! Values written and read a piece at a time.

use crossbank::backend::api::{Backend, KeyRange, Op, ScanRequest, Table};
use crossbank::key::encode_bytes;
use crossbank::locker::chunk::{chunk_key, ChunkPointer, FLAG_POSTCARD};
use crossbank::{Bank, Error, LazyLocker, LockerConfig, MemoryBackend};

fn opened(chunk_size: usize) -> (Bank<MemoryBackend>, LazyLocker<Vec<u8>>) {
    let mut bank = Bank::in_memory().unwrap();
    let config = LockerConfig::default().with_chunk_size(chunk_size);
    let locker = bank.lazy_locker_with("l", config).unwrap();
    (bank, locker)
}

fn chunk_rows(bank: &Bank<MemoryBackend>) -> usize {
    bank.backend()
        .scan(ScanRequest {
            table: Table::Chunks,
            range: KeyRange::all(),
            reverse: false,
            limit: 1000,
            want_values: false,
        })
        .unwrap()
        .items
        .len()
}

fn stream(bank: &mut Bank<MemoryBackend>, l: &mut LazyLocker<Vec<u8>>, key: &str, parts: &[&[u8]]) {
    let mut writer = l.writer(&mut bank.shared, key).unwrap();
    for part in parts {
        writer.write_chunk(l, &mut bank.shared, part).unwrap();
    }
    writer.finish(l, &mut bank.shared).unwrap();
}

#[test]
fn a_streamed_value_reads_back_whole_and_in_pieces() {
    let (mut bank, mut l) = opened(4);
    stream(&mut bank, &mut l, "k", &[b"ab", b"cdefg", b"hij"]);

    assert_eq!(
        l.get(&mut bank.shared, "k").unwrap(),
        Some(b"abcdefghij".to_vec())
    );
    assert_eq!(l.keys(), vec!["k"]);

    let mut reader = l.reader(bank.backend(), "k").unwrap().unwrap();
    assert_eq!(reader.len(), 10);
    let mut pieces = Vec::new();
    while let Some(piece) = reader.next_chunk(&l.res.inner, bank.backend()).unwrap() {
        pieces.push(piece);
    }
    assert_eq!(
        pieces,
        vec![b"abcd".to_vec(), b"efgh".to_vec(), b"ij".to_vec()]
    );
}

#[test]
fn an_empty_stream_is_an_empty_value() {
    let (mut bank, mut l) = opened(4);
    stream(&mut bank, &mut l, "k", &[]);
    assert_eq!(l.get(&mut bank.shared, "k").unwrap(), Some(Vec::new()));
    let reader = l.reader(bank.backend(), "k").unwrap().unwrap();
    assert!(reader.is_empty());
    assert!(l.reader(bank.backend(), "absent").unwrap().is_none());
}

#[test]
fn finishing_replaces_the_old_value_and_its_chunks() {
    let (mut bank, mut l) = opened(4);
    stream(&mut bank, &mut l, "k", &[&[1; 40]]);
    assert_eq!(chunk_rows(&bank), 10);
    stream(&mut bank, &mut l, "k", &[&[2; 8]]);
    assert_eq!(chunk_rows(&bank), 2);
    assert_eq!(l.get(&mut bank.shared, "k").unwrap(), Some(vec![2; 8]));
}

#[test]
fn an_abandoned_stream_leaves_nothing_behind() {
    let (mut bank, mut l) = opened(4);
    let mut writer = l.writer(&mut bank.shared, "k").unwrap();
    writer
        .write_chunk(&mut l, &mut bank.shared, &[9; 40])
        .unwrap();
    assert_eq!(chunk_rows(&bank), 10);
    writer.abort(&mut l, &mut bank.shared).unwrap();
    assert_eq!(chunk_rows(&bank), 0);
    assert_eq!(l.get(&mut bank.shared, "k").unwrap(), None);
}

/// Two streams at once own different chunks.
#[test]
fn streams_side_by_side_do_not_mix() {
    let (mut bank, mut l) = opened(2);
    let mut one = l.writer(&mut bank.shared, "one").unwrap();
    let mut two = l.writer(&mut bank.shared, "two").unwrap();
    one.write_chunk(&mut l, &mut bank.shared, b"aaaa").unwrap();
    two.write_chunk(&mut l, &mut bank.shared, b"bbbb").unwrap();
    one.finish(&mut l, &mut bank.shared).unwrap();
    two.finish(&mut l, &mut bank.shared).unwrap();
    assert_eq!(
        l.get(&mut bank.shared, "one").unwrap(),
        Some(b"aaaa".to_vec())
    );
    assert_eq!(
        l.get(&mut bank.shared, "two").unwrap(),
        Some(b"bbbb".to_vec())
    );
}

#[test]
fn a_missing_chunk_is_damage_not_an_end() {
    let (mut bank, mut l) = opened(4);
    stream(&mut bank, &mut l, "k", &[&[1; 12]]);
    let page = bank
        .backend()
        .scan(ScanRequest {
            table: Table::Chunks,
            range: KeyRange::all(),
            reverse: false,
            limit: 10,
            want_values: false,
        })
        .unwrap();
    bank.shared
        .backend
        .commit(vec![Op::Delete {
            table: Table::Chunks,
            key: page.items[1].0.clone(),
        }])
        .unwrap();
    assert!(matches!(
        l.get(&mut bank.shared, "k"),
        Err(Error::Corrupt(_))
    ));
    let mut reader = l.reader(bank.backend(), "k").unwrap().unwrap();
    assert!(reader.next_chunk(&l.res.inner, bank.backend()).is_ok());
    assert!(matches!(
        reader.next_chunk(&l.res.inner, bank.backend()),
        Err(Error::Corrupt(_))
    ));
}

/// A stream over a small value takes its key off the list of those known to be
/// small, so the next write drops the chunks.
#[test]
fn a_write_over_a_stream_drops_its_chunks() {
    let (mut bank, mut l) = opened(4);
    l.put(&mut bank.shared, "k", &vec![1]).unwrap();
    stream(&mut bank, &mut l, "k", &[b"abcdefghij"]);
    assert_eq!(chunk_rows(&bank), 3);
    l.put(&mut bank.shared, "k", &vec![2]).unwrap();
    assert_eq!(chunk_rows(&bank), 0);
    assert_eq!(l.get(&mut bank.shared, "k").unwrap(), Some(vec![2]));
}

/// Everything a reader of a key yields, and the length it declared.
fn read_out(bank: &Bank<MemoryBackend>, l: &LazyLocker<Vec<u8>>, key: &str) -> (u64, Vec<u8>) {
    let mut reader = l.reader(bank.backend(), key).unwrap().unwrap();
    let len = reader.len();
    let mut out = Vec::new();
    while let Some(piece) = reader.next_chunk(&l.res.inner, bank.backend()).unwrap() {
        out.extend_from_slice(&piece);
    }
    (len, out)
}

/// A caller does not have to know how a value came to be stored: put or streamed
/// in, inline or chunked, it is the value that is streamed out.
#[test]
fn a_put_value_is_streamed_out_as_itself() {
    for chunk_size in [1usize, 2, 3, 7, 64, 4096] {
        let (mut bank, mut l) = opened(chunk_size);
        for len in [0usize, 1, 5, 127, 128, 200, 1000] {
            let value: Vec<u8> = (0..len).map(|i| (i % 251) as u8).collect();
            l.put(&mut bank.shared, "k", &value).unwrap();
            assert_eq!(
                read_out(&bank, &l, "k"),
                (len as u64, value.clone()),
                "{len} bytes in chunks of {chunk_size}"
            );
            stream(&mut bank, &mut l, "k", &[&value]);
            assert_eq!(read_out(&bank, &l, "k"), (len as u64, value));
        }
    }
}

fn commit(bank: &mut Bank<MemoryBackend>, table: Table, key: Vec<u8>, value: Vec<u8>) {
    bank.shared
        .backend
        .commit(vec![Op::Put { table, key, value }])
        .unwrap();
}

/// A chunked value whose front is no length, or too long a one, is damage.
#[test]
fn a_value_without_its_length_is_not_streamed() {
    let (mut bank, l) = opened(64);
    let id = l.res.inner.id;
    for (bytes, why) in [
        (vec![0xff; 20], "chunked value has no length in front of it"),
        (
            vec![9, 1, 2],
            "chunked value is shorter than the length in front of it",
        ),
    ] {
        let pointer = ChunkPointer {
            value_id: 77,
            n_chunks: 1,
            total_len: bytes.len() as u64,
            flags: FLAG_POSTCARD,
        };
        let sealed = bank.chain.seal_slice(&bytes).unwrap();
        commit(&mut bank, Table::Chunks, chunk_key(77, 0), sealed);
        commit(&mut bank, Table::Records, encode_bytes(id, b"k"), pointer.encode());
        match l.reader(bank.backend(), "k") {
            Err(Error::Corrupt(text)) => assert_eq!(text, why),
            _ => panic!("expected damage"),
        }
    }
    // The chunk that holds the length is not there.
    let gone = ChunkPointer {
        value_id: 78,
        n_chunks: 1,
        total_len: 3,
        flags: FLAG_POSTCARD,
    };
    commit(&mut bank, Table::Records, encode_bytes(id, b"k"), gone.encode());
    match l.reader(bank.backend(), "k") {
        Err(Error::Corrupt(text)) => assert_eq!(text, "missing chunk 0 of 78"),
        _ => panic!("expected damage"),
    }
    // The same of an inline value.
    let sealed = bank.chain.seal_slice(&[5, 1]).unwrap();
    commit(&mut bank, Table::Records, encode_bytes(id, b"k"), sealed);
    assert!(matches!(
        l.reader(bank.backend(), "k"),
        Err(Error::Corrupt(_))
    ));
}

/// What follows a value is not the value's.
#[test]
fn what_follows_a_value_is_not_streamed() {
    let (mut bank, mut l) = opened(64);
    let id = l.res.inner.id;
    let parts: [&[u8]; 3] = [&[4, 10, 11], &[12, 13, 99], &[98]];
    for (seq, part) in parts.iter().enumerate() {
        let sealed = bank.chain.seal_slice(part).unwrap();
        commit(&mut bank, Table::Chunks, chunk_key(5, seq as u32), sealed);
    }
    let pointer = ChunkPointer {
        value_id: 5,
        n_chunks: 3,
        total_len: 7,
        flags: FLAG_POSTCARD,
    };
    commit(&mut bank, Table::Records, encode_bytes(id, b"k"), pointer.encode());
    assert_eq!(
        l.get(&mut bank.shared, "k").unwrap(),
        Some(vec![10, 11, 12, 13])
    );
    assert_eq!(read_out(&bank, &l, "k"), (4, vec![10, 11, 12, 13]));
}

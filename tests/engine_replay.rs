use logkv::engine::Engine;
use logkv::entry::Entry;
use std::collections::HashMap;

/// An engine over a log held in memory, appended to as a log file would be.
struct Store {
    file: Vec<u8>,
    state: Engine,
}

fn open(file: Vec<u8>) -> Store {
    let (state, _) = Engine::recover(&file);
    Store { file, state }
}

impl Store {
    fn get(&self, key: &[u8]) -> Option<Vec<u8>> {
        self.state.get(key)
    }

    fn set(&mut self, key: &[u8], val: &[u8]) -> bool {
        let rec = self.state.set_record(key, val);
        self.file.extend_from_slice(&rec);
        self.state.commit_set(key, val)
    }

    fn del(&mut self, key: &[u8]) -> bool {
        if let Some(rec) = self.state.del_record(key) {
            self.file.extend_from_slice(&rec);
        }
        self.state.commit_del(key)
    }

    fn close(self) -> Vec<u8> {
        self.file
    }
}

#[test]
fn key_value_can_open_and_close() {
    let kv = open(Vec::new());
    assert!(kv.close().is_empty());
}

#[test]
fn key_value_get_missing_key() {
    let kv = open(Vec::new());
    let value = kv.get(b"missing");
    assert!(value.is_none());
}

#[test]
fn key_value_can_set_and_get() {
    let mut kv = open(Vec::new());

    let updated = kv.set(b"key", b"value");
    assert!(!updated);

    let value = kv.get(b"key");
    assert_eq!(value, Some(b"value".to_vec()));
}

#[test]
fn key_value_can_set_update_existing_key() {
    let mut kv = open(Vec::new());

    kv.set(b"key", b"value1");
    let updated = kv.set(b"key", b"value2");
    assert!(updated);

    let value = kv.get(b"key");
    assert_eq!(value, Some(b"value2".to_vec()));
}

#[test]
fn key_value_can_delete_key() {
    let mut kv = open(Vec::new());

    kv.set(b"key", b"value");

    let deleted = kv.del(b"key");
    assert!(deleted);

    let value = kv.get(b"key");
    assert!(value.is_none());
}

#[test]
fn key_value_cant_delete_missing_key() {
    let mut kv = open(Vec::new());

    let deleted = kv.del(b"maybe");
    assert!(!deleted);
}

#[test]
fn replay_log_on_open() {
    let file = {
        let mut kv = open(Vec::new());
        kv.set(b"a", b"1");
        kv.set(b"a", b"2");
        kv.del(b"a");
        kv.set(b"b", b"3");
        kv.close()
    };

    let kv = open(file);

    assert!(kv.get(b"a").is_none());
    assert_eq!(kv.get(b"b"), Some(b"3".to_vec()));
}

#[test]
fn overwrite_persists() {
    let file = {
        let mut kv = open(Vec::new());
        kv.set(b"x", b"1");
        kv.set(b"x", b"2");
        kv.close()
    };

    let kv = open(file);
    assert_eq!(kv.get(b"x"), Some(b"2".to_vec()));
}

#[test]
fn delete_missing_does_not_affect_state() {
    let file = {
        let mut kv = open(Vec::new());
        assert!(!kv.del(b"nope"));
        kv.close()
    };

    let kv = open(file);
    assert!(kv.get(b"nope").is_none());
}

#[test]
fn kv_recovers_from_partial_wal() {
    let mut file = {
        let mut kv = open(Vec::new());
        kv.set(b"a", b"1");
        kv.close()
    };

    file.extend_from_slice(&[9, 9, 9]);

    let kv = open(file);
    assert_eq!(kv.get(b"a"), Some(b"1".to_vec()));
}

#[test]
fn recover_reports_valid_length() {
    let mut file = {
        let mut kv = open(Vec::new());
        kv.set(b"a", b"1");
        kv.set(b"b", b"22");
        kv.close()
    };
    assert_eq!(file.len(), 15 + 16);
    file.extend_from_slice(&[1, 2, 3, 4, 5]);
    let (state, valid) = Engine::recover(&file);
    assert_eq!(valid, 31);
    assert_eq!(state.get(b"b"), Some(b"22".to_vec()));
}

#[test]
fn bad_checksum_tail_is_ignored() {
    let base = {
        let mut kv = open(Vec::new());
        kv.set(b"a", b"1");
        kv.set(b"b", b"2");
        kv.close()
    };
    let mut bad = Entry::new(b"a".to_vec(), b"9".to_vec()).encode();
    bad[0] ^= 0xff;
    let mut file = base.clone();
    file.extend_from_slice(&bad);
    let (state, valid) = Engine::recover(&file);
    assert_eq!(valid, base.len());
    assert_eq!(state.get(b"a"), Some(b"1".to_vec()));
    assert_eq!(state.get(b"b"), Some(b"2".to_vec()));
}

#[test]
fn truncated_tail_is_ignored() {
    let base = {
        let mut kv = open(Vec::new());
        kv.set(b"k", b"v");
        kv.close()
    };
    let next = Entry::tombstone(b"k".to_vec()).encode();
    for cut in 0..next.len() {
        let mut file = base.clone();
        file.extend_from_slice(&next[..cut]);
        let kv = open(file);
        assert_eq!(kv.get(b"k"), Some(b"v".to_vec()));
    }
    let mut file = base.clone();
    file.extend_from_slice(&next);
    assert!(open(file).get(b"k").is_none());
}

#[test]
fn deleting_absent_key_appends_nothing() {
    let mut kv = open(Vec::new());
    kv.set(b"a", b"1");
    let before = kv.file.len();
    assert!(kv.state.del_record(b"b").is_none());
    assert!(!kv.del(b"b"));
    assert_eq!(kv.file.len(), before);
    assert!(kv.del(b"a"));
    assert_eq!(kv.file.len(), before + 14);
}

#[test]
fn set_record_is_an_entry() {
    let kv = open(Vec::new());
    assert_eq!(
        kv.state.set_record(b"a", b"bb"),
        vec![59, 37, 55, 31, 1, 0, 0, 0, 2, 0, 0, 0, 0, 97, 98, 98]
    );
}

#[test]
fn reopen_matches_plain_mapping() {
    let mut kv = open(Vec::new());
    let mut plain: HashMap<Vec<u8>, Vec<u8>> = HashMap::new();
    let mut seed: u32 = 12345;
    for _ in 0..300 {
        seed = seed.wrapping_mul(1103515245).wrapping_add(12345);
        let key = vec![b'k', (seed >> 16) as u8 % 7];
        let val = vec![(seed >> 8) as u8; ((seed >> 20) % 4) as usize];
        if (seed >> 24) % 3 == 0 {
            assert_eq!(kv.del(&key), plain.remove(&key).is_some());
        } else {
            assert_eq!(kv.set(&key, &val), plain.insert(key.clone(), val).is_some());
        }
    }
    let kv = open(kv.close());
    for k in 0..7u8 {
        let key = vec![b'k', k];
        assert_eq!(kv.get(&key), plain.get(&key).cloned());
    }
}

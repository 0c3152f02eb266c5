//! Whole stores, kept in memory: a machine takes the steps that the library hands out.

use passbox::commands::{
    add, ensure_store_gitignore, find_deleted, get, import_pass, imported_line, importing_line, ls,
    check_sync, may_have_pulled, read_secret_as, read_value, remember_remote, restore, set_mode,
    stored_line, targets, Restore,
};
use passbox::crypto::{
    decrypt, decrypt_line, encrypt, encrypt_line, is_small_order, key_from_wrap,
    unwrap_with_passphrase, wrap_with_passphrase, Recipient, StoreKey,
};
use passbox::disk::{
    is_file_name, join, name_of, parent_of, temporary_of, write_private, Listing, Step,
};
use passbox::errands::{exec, Child, Exec, ExecAction, ExecEvent};
use passbox::import::{self, imported, show, Fate};
use passbox::problem::Problem;
use passbox::project::{self, open_grants, Grant};
use passbox::store::{new_id, now, Mode, Secret, Store, DEFAULT_WINDOW_SECS, KEEP_VERSIONS};
use passbox::sync::{
    classify, configured_remote, remote_path, side, sync, Kind, Move, Report,
};
use serde_json::Value;
use std::collections::BTreeMap;

const PASSPHRASE: &str = "correct horse battery staple";

type Files = BTreeMap<String, (Vec<u8>, i128)>;

fn to_json(s: &Secret) -> Vec<u8> {
    let mut map = serde_json::Map::new();
    map.insert("name".into(), Value::from(s.name.clone()));
    map.insert("mode".into(), Value::from(s.mode.to_text()));
    map.insert("window_secs".into(), Value::from(s.window_secs));
    map.insert("lease_secs".into(), Value::from(s.lease_secs));
    map.insert("value".into(), Value::from(s.value.clone()));
    map.insert("created".into(), Value::from(s.created));
    map.insert("updated".into(), Value::from(s.updated));
    serde_json::to_vec(&Value::Object(map)).unwrap()
}

fn from_json(plain: &[u8]) -> Result<Secret, Problem> {
    let v: Value =
        serde_json::from_slice(plain).map_err(|e| Problem::Outside(e.to_string()))?;
    Ok(Secret {
        name: v["name"].as_str().unwrap().into(),
        mode: Mode::from_str(v["mode"].as_str().unwrap())?,
        window_secs: v["window_secs"].as_u64().unwrap(),
        lease_secs: v["lease_secs"].as_u64().unwrap(),
        value: v["value"].as_str().unwrap().into(),
        created: v["created"].as_u64().unwrap(),
        updated: v["updated"].as_u64().unwrap(),
    })
}

fn secret(name: &str, value: &str) -> Secret {
    Secret {
        name: name.to_string(),
        mode: Mode::Window,
        window_secs: DEFAULT_WINDOW_SECS,
        lease_secs: 0,
        value: value.to_string(),
        created: now(),
        updated: now(),
    }
}

/// A machine with a store, or room for one.
struct Machine {
    store: Store,
    files: Files,
    clock: i128,
}

impl Machine {
    fn empty(clock: i128) -> Self {
        Machine {
            store: Store {
                dir: "/home/x/.passbox".into(),
            },
            files: Files::new(),
            clock,
        }
    }

    fn with_passphrase(pass: &str) -> (Self, StoreKey) {
        let mut m = Machine::empty(0);
        let mut listing = m.listing();
        let (key, steps) = m.store.init(&mut listing).ok().unwrap();
        m.take(&steps);
        m.agrees(&listing);
        let steps = m
            .store
            .create_recovery_wrap_with_factor(&key, pass, Some(10))
            .ok()
            .unwrap();
        m.take(&steps);
        (m, key)
    }

    fn new() -> (Self, StoreKey) {
        Machine::with_passphrase("hunter2")
    }

    fn listing(&self) -> Listing {
        Listing::of(&self.files.keys().cloned().collect())
    }

    /// What the library expects to be there is what is there
    fn agrees(&self, listing: &Listing) {
        let held: Vec<String> = self.files.keys().cloned().collect();
        assert_eq!(listing.all(), held);
    }

    fn take(&mut self, steps: &[Step]) {
        for step in steps {
            self.clock += 1;
            match step {
                Step::MakeDir(_) => {}
                Step::Write { path, bytes } => {
                    self.files
                        .insert(path.clone(), (bytes.clone(), self.clock));
                }
                Step::Rename { from, to } => {
                    let file = self.files.remove(from).unwrap();
                    self.files.insert(to.clone(), file);
                }
                Step::Remove(path) => {
                    self.files.remove(path);
                }
                Step::RemoveTree(path) => {
                    let below = format!("{path}/");
                    self.files.retain(|k, _| k != path && !k.starts_with(&below));
                }
            }
        }
    }

    fn read(&self, path: &str) -> Option<&[u8]> {
        self.files.get(path).map(|f| f.0.as_slice())
    }

    fn text(&self, path: &str) -> Option<String> {
        self.read(path)
            .map(|b| String::from_utf8(b.to_vec()).unwrap())
    }

    fn recipient(&self) -> Recipient {
        let raw = self.text("wraps/recipient");
        self.store.recipient(raw.as_deref()).ok().unwrap()
    }

    fn put_at(&mut self, id: &str, s: &Secret, at: u64) {
        let index = self.text("names");
        let mut listing = self.listing();
        let r = self.recipient();
        let steps = self
            .store
            .put(&mut listing, id, &to_json(s), &s.name, &r, index.as_deref(), at)
            .ok()
            .unwrap();
        self.take(&steps);
        self.agrees(&listing);
    }

    fn put(&mut self, id: &str, s: &Secret) {
        self.put_at(id, s, now());
    }

    fn delete(&mut self, id: &str) {
        let mut listing = self.listing();
        let steps = self.store.delete(&mut listing, id, now());
        self.take(&steps);
        self.agrees(&listing);
    }

    fn load_path(&self, path: &str, key: &StoreKey) -> Result<Secret, Problem> {
        let plain = self.store.load_path(self.read(path).unwrap(), key)?;
        from_json(&plain)
    }

    fn load(&self, id: &str, key: &StoreKey) -> Result<Secret, Problem> {
        self.load_path(&format!("store/{id}.age"), key)
    }

    fn find(&self, name: &str, key: &StoreKey) -> Option<(String, Secret)> {
        let loaded = self
            .store
            .ids(&self.listing())
            .into_iter()
            .map(|id| {
                let s = self.load(&id, key);
                (id, s)
            })
            .collect();
        self.store.find(name, loaded).ok().unwrap()
    }

    fn names(&self, key: &StoreKey) -> Vec<String> {
        let loaded = self
            .store
            .ids(&self.listing())
            .iter()
            .map(|id| self.load(id, key))
            .collect();
        self.store.names(loaded).ok().unwrap()
    }

    fn versions(&self, id: &str) -> Vec<(u64, String)> {
        self.store.versions(&self.listing(), id)
    }

    fn side(files: &Files) -> Vec<(String, i128)> {
        files.iter().map(|(k, f)| (k.clone(), f.1)).collect()
    }

    fn sync(&mut self, remote: &mut Files) -> Report {
        let ours = side(&Machine::side(&self.files));
        let theirs = side(&Machine::side(remote));
        let mut listing = self.listing();
        let (report, moves) = sync(&self.store, "/far", &mut listing, &ours, &theirs, now())
            .ok()
            .unwrap();
        for m in &moves {
            match m {
                Move::Push(name) => {
                    let file = self.files[name].clone();
                    remote.insert(name.clone(), file);
                }
                Move::Pull(name) => {
                    let file = remote[name].clone();
                    self.files.insert(name.clone(), file);
                }
                Move::Local(step) => self.take(std::slice::from_ref(step)),
            }
        }
        self.agrees(&listing);
        if may_have_pulled(Kind::Directory, report.pulled) {
            let steps = self.store.index_clear(&self.listing());
            self.take(&steps);
        }
        report
    }

    // What the commands do

    fn unlock(&self, pass: &str) -> Result<StoreKey, Problem> {
        let wrap = self.read("wraps/recovery.age");
        self.store.unlock_with_passphrase(wrap, pass)
    }

    fn cli() -> Self {
        Machine::with_passphrase(PASSPHRASE).0
    }

    fn add_as(&mut self, name: &str, mode: Option<Mode>, piped: &str) -> Result<String, Problem> {
        let key = self.unlock(PASSPHRASE)?;
        let value = read_value(piped);
        let existing = self.find(name, &key);
        let (id, s) = add(name, &value, mode, None, existing, new_id(), now())?;
        self.put(&id, &s);
        Ok(stored_line(name, s.mode))
    }

    fn add(&mut self, name: &str, piped: &str) {
        self.add_as(name, None, piped).ok().unwrap();
    }

    fn get_as(&self, pass: &str, name: &str, for_agent: bool) -> Result<String, Problem> {
        let key = self.unlock(pass)?;
        let found = self.find(name, &key).map(|(_, s)| s);
        let whole = read_secret_as(name, found, for_agent)?;
        get(name, whole, None)
    }

    fn get(&self, name: &str) -> Result<String, Problem> {
        self.get_as(PASSPHRASE, name, false)
    }

    /// What a child is run with, or why it is not
    fn exec(
        &self,
        envs: &[&str],
        stdin: Option<&str>,
        command: &[&str],
    ) -> Result<(Child, Option<String>), Problem> {
        let envs = envs.iter().map(|e| e.to_string()).collect();
        let command = command.iter().map(|c| c.to_string()).collect();
        let mut flow = Exec::Start;
        let mut event = ExecEvent::Begin;
        loop {
            let (next, action) = exec(&envs, stdin, &command, flow, event);
            flow = next;
            event = match action {
                ExecAction::Read(name) => match self.get_as(PASSPHRASE, &name, true) {
                    Ok(value) => ExecEvent::Value(value),
                    Err(e) => ExecEvent::Failed(e),
                },
                ExecAction::Run { child, stdin } => return Ok((child, stdin)),
                ExecAction::Exit(code) => panic!("ended with {code} before it ran"),
                ExecAction::Fail(e) => return Err(e),
            };
        }
    }

    fn ls(&self) -> String {
        let index = self.text("names");
        let names = match self.store.index_read(index.as_deref()) {
            Some(names) => names,
            None => self.names(&self.unlock(PASSPHRASE).ok().unwrap()),
        };
        ls(&names, false)
    }

    fn rm(&mut self, name: &str) {
        let key = self.unlock(PASSPHRASE).ok().unwrap();
        let (id, _) = self.find(name, &key).unwrap();
        self.delete(&id);
        let index = self.text("names");
        let steps = self.store.index_remove(index.as_deref(), name);
        self.take(&steps);
    }

    fn restore(&mut self, name: &str, index: usize) -> Result<(), Problem> {
        let key = self.unlock(PASSPHRASE)?;
        let id = match self.find(name, &key) {
            Some((id, _)) => id,
            None => {
                let listing = self.listing();
                let files: Vec<(String, Option<Secret>)> = self
                    .store
                    .ids_with_files(&listing)
                    .into_iter()
                    .map(|id| {
                        let s = self.load(&id, &key).ok();
                        (id, s)
                    })
                    .collect();
                let mut versions: Vec<(String, Option<Secret>)> = Vec::new();
                for id in self.store.ids_with_versions(&listing) {
                    for (_, path) in self.versions(&id) {
                        versions.push((id.clone(), self.load_path(&path, &key).ok()));
                    }
                }
                find_deleted(name, &files, &versions)?
            }
        };
        let held = self.text("names");
        let mut listing = self.listing();
        match restore(&self.store, &listing, &id, name, Some(index))? {
            Restore::Lift => {
                let steps = self.store.lift(&mut listing, &id, name, held.as_deref());
                self.take(&steps);
            }
            Restore::Show(_) => panic!("an index was given"),
            Restore::Put(path) => {
                let bytes = self.read(&path).unwrap().to_vec();
                let steps = self.store.put_back(
                    &mut listing,
                    &id,
                    &bytes,
                    name,
                    held.as_deref(),
                    now(),
                );
                self.take(&steps);
            }
        }
        self.agrees(&listing);
        Ok(())
    }
}

// The index

/* The index exists so listing does not unlock the store. These pin the two halves of that: it
answers without a key, and it stays true as the store changes. */
#[test]
fn the_index_answers_without_a_key() {
    let mut m = Machine::empty(0);
    let steps = m
        .store
        .index_write(&vec!["b/two".to_string(), "a/one".to_string()]);
    m.take(&steps);
    assert_eq!(
        m.store.index_read(m.text("names").as_deref()).unwrap(),
        vec!["a/one".to_string(), "b/two".to_string()]
    );
}

#[test]
fn a_removed_name_leaves_the_index() {
    let mut m = Machine::empty(0);
    let steps = m
        .store
        .index_write(&vec!["a/one".to_string(), "b/two".to_string()]);
    m.take(&steps);
    let steps = m.store.index_remove(m.text("names").as_deref(), "a/one");
    m.take(&steps);
    assert_eq!(
        m.store.index_read(m.text("names").as_deref()).unwrap(),
        vec!["b/two".to_string()]
    );
}

#[test]
fn a_pull_invalidates_the_index() {
    let mut m = Machine::empty(0);
    let steps = m.store.index_write(&vec!["a/one".to_string()]);
    m.take(&steps);
    let steps = m.store.index_clear(&m.listing());
    m.take(&steps);
    assert!(m.store.index_read(m.text("names").as_deref()).is_none());
    let steps = m.store.index_clear(&m.listing()); // clearing twice is not an error
    m.take(&steps);
    assert!(m.files.is_empty());
}

#[test]
fn an_index_that_is_not_there_is_not_begun() {
    let m = Machine::empty(0);
    assert!(m.store.index_add(None, "a").is_empty());
    // One more name is read back with the others, and adding it again changes nothing
    let written = |steps: Vec<Step>| match steps.into_iter().next() {
        Some(Step::Write { bytes, .. }) => String::from_utf8(bytes).unwrap(),
        _ => panic!("nothing was written"),
    };
    let once = written(m.store.index_add(Some("c\r\na\na\n"), "b"));
    assert_eq!(m.store.index_read(Some(&once)).unwrap(), vec!["a", "b", "c"]);
    assert_eq!(written(m.store.index_add(Some(&once), "b")), once);
    assert!(m.store.index_remove(None, "a").is_empty());
    assert_eq!(m.store.index_read(Some("b\n\na\r\n")).unwrap(), vec!["b", "a"]);
    assert!(m.store.index_remove(Some("b\n"), "a").len() <= 2);
}

// The store

#[test]
fn round_trip_by_name() {
    let (mut m, key) = Machine::new();
    m.put(&new_id(), &secret("github/token", "ghp_abc"));

    let (_id, found) = m.find("github/token", &key).unwrap();
    assert_eq!(found.value, "ghp_abc");
    assert!(m.find("missing", &key).is_none());
}

#[test]
fn filename_never_holds_the_name() {
    let (mut m, _key) = Machine::new();
    m.put(&new_id(), &secret("github/token", "ghp_abc"));

    for id in m.store.ids(&m.listing()) {
        assert!(!id.contains("github"));
        assert!(!id.contains("token"));
        let raw = m.read(&format!("store/{id}.age")).unwrap();
        assert!(!String::from_utf8_lossy(raw).contains("github"));
    }
}

#[test]
fn wrong_passphrase_is_refused() {
    let (m, _key) = Machine::new();
    assert!(m.unlock("hunter3").is_err());
    assert!(m.unlock("hunter2").is_ok());
    assert_eq!(
        m.unlock("hunter3").err().unwrap().message(),
        "wrong passphrase: Decryption failed"
    );
    assert_eq!(
        m.store
            .unlock_with_passphrase(None, "hunter2")
            .err()
            .unwrap()
            .message(),
        "no recovery wrap"
    );
}

#[test]
fn overwrite_keeps_a_version() {
    let (mut m, key) = Machine::new();
    let id = new_id();
    m.put(&id, &secret("db", "old"));
    m.put(&id, &secret("db", "new"));

    assert_eq!(m.load(&id, &key).ok().unwrap().value, "new");
    assert_eq!(m.versions(&id).len(), 1);
    let (_, path) = m.versions(&id).remove(0);
    assert_eq!(m.load_path(&path, &key).ok().unwrap().value, "old");
}

#[test]
fn versions_are_trimmed() {
    let (mut m, key) = Machine::new();
    let id = new_id();
    let at = now();
    for i in 0..KEEP_VERSIONS + 4 {
        m.put_at(&id, &secret("db", &format!("v{i}")), at + i as u64);
    }
    assert_eq!(m.versions(&id).len(), KEEP_VERSIONS);
    // The newest are the ones that stay, oldest first
    let values: Vec<String> = m
        .versions(&id)
        .iter()
        .map(|(_, p)| m.load_path(p, &key).ok().unwrap().value)
        .collect();
    assert_eq!(values, vec!["v3", "v4", "v5", "v6", "v7"]);
}

/// However fast one write follows another, the values that are kept are the last ones replaced
#[test]
fn writes_of_one_second_keep_the_last_values() {
    let (mut m, key) = Machine::new();
    let id = new_id();
    for i in 0..8 {
        m.put_at(&id, &secret("db", &format!("v{i}")), 1_000);
    }
    let versions = m.versions(&id);
    let stamps: Vec<u64> = versions.iter().map(|v| v.0).collect();
    assert_eq!(stamps, vec![1_002, 1_003, 1_004, 1_005, 1_006]);
    let values: Vec<String> = versions
        .iter()
        .map(|(_, p)| m.load_path(p, &key).ok().unwrap().value)
        .collect();
    assert_eq!(values, vec!["v2", "v3", "v4", "v5", "v6"]);
}

/// A clock that was set back does not cost the value just replaced
#[test]
fn a_clock_set_back_loses_nothing() {
    let (mut m, key) = Machine::new();
    let id = new_id();
    for i in 0..7 {
        m.put_at(&id, &secret("db", &format!("v{i}")), 9_000 - 1_000 * i);
    }
    let versions = m.versions(&id);
    let values: Vec<String> = versions
        .iter()
        .map(|(_, p)| m.load_path(p, &key).ok().unwrap().value)
        .collect();
    assert_eq!(values, vec!["v1", "v2", "v3", "v4", "v5"]);
    assert_eq!(versions.last().unwrap().0, 8_005);
}

/// After the last second there is, the first free one is taken
#[test]
fn a_version_from_the_end_of_time_is_not_overwritten() {
    let (mut m, _key) = Machine::new();
    let id = new_id();
    m.put_at(&id, &secret("db", "v0"), 1_000);
    for stamp in [u64::MAX, 1_000] {
        let path = format!("store/.versions/{id}/{stamp}.age");
        m.files.insert(path, (vec![1], 1));
    }
    m.put_at(&id, &secret("db", "v1"), 1_000);
    let stamps: Vec<u64> = m.versions(&id).iter().map(|v| v.0).collect();
    assert_eq!(stamps, vec![1_000, 1_001, u64::MAX]);
}

#[test]
fn delete_leaves_a_tombstone_and_hides_the_id() {
    let (mut m, _key) = Machine::new();
    let id = new_id();
    m.put(&id, &secret("db", "v"));
    m.delete(&id);

    assert!(m.store.ids(&m.listing()).is_empty());
    assert!(m.read(&format!("store/{id}.tomb")).is_some());
    assert_eq!(m.versions(&id).len(), 1);
}

#[test]
fn writing_again_clears_the_tombstone() {
    let (mut m, key) = Machine::new();
    let id = new_id();
    m.put(&id, &secret("db", "v"));
    m.delete(&id);
    m.put(&id, &secret("db", "back"));

    assert_eq!(m.store.ids(&m.listing()).len(), 1);
    assert_eq!(m.load(&id, &key).ok().unwrap().value, "back");
}

fn prune(m: &mut Machine) -> usize {
    let mut listing = m.listing();
    let read: Vec<Option<String>> = m
        .store
        .tombs(&listing)
        .iter()
        .map(|p| m.text(p))
        .collect();
    let (n, steps) = m.store.prune_tombs(&mut listing, &read, now());
    m.take(&steps);
    m.agrees(&listing);
    n
}

#[test]
fn fresh_tombstones_survive_pruning() {
    let (mut m, _key) = Machine::new();
    let id = new_id();
    m.put(&id, &secret("db", "v"));
    m.delete(&id);

    assert_eq!(prune(&mut m), 0);
    let steps = write_private(&format!("store/{id}.tomb"), b"1");
    m.take(&steps);
    assert_eq!(prune(&mut m), 1);
    assert!(m.versions(&id).is_empty());
    assert!(m.read(&format!("store/{id}.tomb")).is_none());
    // One that does not say when counts as old
    let steps = write_private(&format!("store/{id}.tomb"), b"soon");
    m.take(&steps);
    assert_eq!(prune(&mut m), 1);
}

/// Only what has stood for its time goes, with the versions it guards
#[test]
fn pruning_takes_the_expired_and_nothing_else() {
    let (mut m, _key) = Machine::new();
    let ids: Vec<String> = (0..3).map(|_| new_id()).collect();
    for id in &ids {
        m.put(id, &secret(id, "v0"));
        m.put(id, &secret(id, "v1"));
    }
    m.delete(&ids[0]);
    m.delete(&ids[1]);
    let steps = write_private(&format!("store/{}.tomb", ids[0]), b"1");
    m.take(&steps);
    let mut expected = m.files.clone();
    expected.retain(|path, _| !path.contains(ids[0].as_str()));
    assert_eq!(prune(&mut m), 1);
    assert_eq!(m.files, expected);
    assert_eq!(m.versions(&ids[1]).len(), 2);
    assert_eq!(m.versions(&ids[2]).len(), 1);
}

#[test]
fn a_tampered_audit_line_is_refused() {
    let (m, key) = Machine::new();
    let line = encrypt_line(b"{\"at\":1}", &m.recipient()).ok().unwrap();

    assert!(decrypt_line(&line, &key).is_ok());
    assert_eq!(decrypt_line(&line, &key).ok().unwrap(), b"{\"at\":1}");

    let mut bytes = line.into_bytes();
    let last = bytes.len() - 1;
    bytes[last] = if bytes[last] == b'a' { b'b' } else { b'a' };
    let tampered = String::from_utf8(bytes).unwrap();
    assert!(decrypt_line(&tampered, &key).is_err());
    assert!(matches!(decrypt_line("zz", &key), Err(Problem::BadLine)));
}

/// A flipped byte must fail rather than hand back something that looks like a secret
#[test]
fn a_tampered_secret_file_is_refused() {
    let (mut m, key) = Machine::new();
    let id = new_id();
    m.put(&id, &secret("db", "swordfish"));

    let raw = &mut m.files.get_mut(&format!("store/{id}.age")).unwrap().0;
    let last = raw.len() - 1;
    raw[last] ^= 0x01;

    let opened = m.load(&id, &key);
    assert!(opened.is_err(), "a tampered file decrypted");
}

#[test]
fn a_truncated_secret_file_is_refused() {
    let (mut m, key) = Machine::new();
    let id = new_id();
    m.put(&id, &secret("db", "swordfish"));

    let raw = &mut m.files.get_mut(&format!("store/{id}.age")).unwrap().0;
    let half = raw.len() / 2;
    raw.truncate(half);

    assert!(m.load(&id, &key).is_err());
}

#[test]
fn a_tampered_recovery_wrap_is_refused() {
    let (mut m, _key) = Machine::new();
    let raw = &mut m.files.get_mut("wraps/recovery.age").unwrap().0;
    let last = raw.len() - 1;
    raw[last] ^= 0x01;

    assert!(m.unlock("hunter2").is_err());
}

#[test]
fn yubikey_recipients_accumulate_on_disk() {
    let (mut m, _key) = Machine::new();
    let held = |m: &Machine| {
        m.store
            .yubikey_recipients(m.text("wraps/yubikey.recipients").as_deref())
    };
    assert!(held(&m).is_empty());

    let path = m.store.yubikey_recipients_path();
    let path = path.strip_prefix("/home/x/.passbox/").unwrap().to_string();
    let steps = write_private(&path, b"age1yubikey1aaa\nage1yubikey1bbb\n");
    m.take(&steps);
    let all = m.store.yubikey_recipients(m.text(&path).as_deref());
    assert_eq!(all, vec!["age1yubikey1aaa", "age1yubikey1bbb"]);

    // Another joins them, and one that is there already does not
    let raw = m.text(&path);
    assert_eq!(
        m.store
            .with_yubikey_recipient(raw.as_deref(), "age1yubikey1ccc")
            .len(),
        3
    );
    let same = m
        .store
        .with_yubikey_recipient(raw.as_deref(), "age1yubikey1bbb");
    assert_eq!(same.len(), 2);
    let (count, steps) = m.store.add_yubikey_recipient(b"wrapped", &same);
    m.take(&steps);
    assert_eq!(count, 2);
    assert_eq!(m.read("wraps/yubikey.age"), Some(b"wrapped".as_slice()));
}

#[test]
fn a_yubikey_wrap_counts_as_a_way_off_this_mac() {
    let (mut m, _key) = Machine::new();
    assert!(
        m.store.has_portable_wrap(&m.listing()),
        "the test store has a passphrase wrap"
    );

    m.files.remove("wraps/recovery.age");
    assert!(!m.store.has_portable_wrap(&m.listing()));

    let steps = write_private("wraps/yubikey.age", b"x");
    m.take(&steps);
    assert!(m.store.has_portable_wrap(&m.listing()));
    assert!(m.store.has_yubikey_wrap(&m.listing()));
}

#[test]
fn init_refuses_twice() {
    let (m, _key) = Machine::new();
    let again = m.store.init(&mut m.listing());
    assert!(again.is_err());
    assert_eq!(
        again.err().unwrap().message(),
        "/home/x/.passbox is already initialised"
    );
}

#[test]
fn a_store_is_found() {
    let set = Store::open(Some("/s".into()), None).ok().unwrap();
    assert_eq!(set.dir, "/s");
    let home = Store::open(None, Some("/home/x".into())).ok().unwrap();
    assert_eq!(home.dir, "/home/x/.passbox");
    assert_eq!(home.recovery_path(), "/home/x/.passbox/wraps/recovery.age");
    assert_eq!(home.socket_path(), "/home/x/.passbox/broker.sock");
    assert_eq!(home.audit_path("mac"), "/home/x/.passbox/audit-mac.log");
    assert_eq!(home.se_wrap_path("mac"), "/home/x/.passbox/wraps/se-mac.json");
    assert_eq!(home.tomb_path("ab"), "/home/x/.passbox/store/ab.tomb");
    assert_eq!(
        Store::open(None, None).err().unwrap().message(),
        "HOME is not set"
    );
}

#[test]
fn the_enclave_wrap_is_this_machines() {
    let (mut m, _key) = Machine::new();
    let steps = m.store.create_se_wrap("mac", b"{}");
    m.take(&steps);
    assert!(m.store.has_se_wrap(&m.listing(), "mac"));
    assert!(!m.store.has_se_wrap(&m.listing(), "other"));
}

#[test]
fn names_of_files() {
    assert_eq!(join("/a", "b"), "/a/b");
    assert_eq!(join("/a/", "b"), "/a/b");
    assert_eq!(join("a", "/b"), "/b");
    assert_eq!(join("", "b"), "b");
    assert_eq!(name_of("a/b.age"), "b.age");
    assert_eq!(parent_of("a/b.age").as_deref(), Some("a"));
    assert_eq!(temporary_of("a/b.age"), "a/b.tmp");
    assert_eq!(temporary_of("a/names"), "a/names.tmp");
    assert_eq!(temporary_of("a/.hidden"), "a/.hidden.tmp");
    assert!(is_file_name("a/b") && !is_file_name("a/") && !is_file_name("a/.."));
}

/// Write through a temporary file so a crash cannot leave a half written secret
#[test]
fn a_write_is_whole() {
    let steps = write_private("store/ab.age", b"new");
    assert_eq!(steps.len(), 2);
    let mut m = Machine::empty(0);
    m.files.insert("store/ab.age".into(), (b"old".to_vec(), 0));
    m.take(&steps[..1]);
    assert_eq!(m.read("store/ab.age"), Some(b"old".as_slice()));
    m.take(&steps[1..]);
    assert_eq!(m.read("store/ab.age"), Some(b"new".as_slice()));
    assert!(m.read("store/ab.tmp").is_none());
}

// Encryption

#[test]
fn round_trip_x25519() {
    let key = StoreKey::generate();
    let recipients = vec![key.to_public()];

    let ct = encrypt(b"correct horse battery staple", &recipients)
        .ok()
        .unwrap();
    assert_ne!(ct, b"correct horse battery staple");
    let pt = decrypt(&ct, &key).ok().unwrap();
    assert_eq!(pt, b"correct horse battery staple");
}

fn header_of(file: &[u8]) -> Vec<String> {
    let text = String::from_utf8_lossy(file).into_owned();
    let head = text.split("\n--- ").next().unwrap();
    head.lines().map(|l| l.to_string()).collect()
}

/// A file is sealed to whom it was asked to be, and to nobody besides
#[test]
fn a_file_is_sealed_to_one_number() {
    let keys: Vec<StoreKey> = (0..3).map(|_| StoreKey::generate()).collect();
    for n in 1..4 {
        let to = keys[..n].iter().map(|k| k.to_public()).collect();
        let head = header_of(&encrypt(b"secret", &to).ok().unwrap());
        assert_eq!(head[0], "age-encryption.org/v1");
        for i in 0..n {
            assert!(head[1 + 2 * i].starts_with("-> X25519 "));
            assert_eq!((head[1 + 2 * i].len(), head[2 + 2 * i].len()), (10 + 43, 43));
        }
        assert!(!head[1 + 2 * n].starts_with("-> X25519 "));
        let stanzas = head.iter().filter(|l| l.starts_with("-> X25519 "));
        assert_eq!(stanzas.count(), n);
    }
    let line = encrypt_line(b"x", &keys[0].to_public()).ok().unwrap();
    let bytes: Vec<u8> = (0..line.len() / 2)
        .map(|i| u8::from_str_radix(&line[2 * i..2 * i + 2], 16).unwrap())
        .collect();
    let head = header_of(&bytes);
    let stanzas = head.iter().filter(|l| l.starts_with("-> X25519 "));
    assert_eq!(stanzas.count(), 1);
}

/// A wrap takes the work that was asked for, and without being asked no less than ten
#[test]
fn a_wrap_takes_one_work_factor() {
    let key = StoreKey::generate();
    for factor in [1, 11] {
        let wrap = wrap_with_passphrase(&key, PASSPHRASE, Some(factor)).ok().unwrap();
        let head = header_of(&wrap);
        let words: Vec<&str> = head[1].split(' ').collect();
        assert_eq!((words[0], words[1], words[2].len()), ("->", "scrypt", 22));
        assert_eq!(words[3], factor.to_string());
    }
    let store = Store { dir: "/s".into() };
    let steps = store.create_recovery_wrap(&key, PASSPHRASE).ok().unwrap();
    let Step::Write { bytes, .. } = &steps[0] else {
        panic!("nothing was written")
    };
    let head = header_of(bytes);
    let factor: u8 = head[1].rsplit(' ').next().unwrap().parse().unwrap();
    assert!((10..64).contains(&factor));
}

#[test]
fn refuses_empty_recipients() {
    assert!(encrypt(b"x", &vec![]).is_err());
    assert!(matches!(encrypt(b"x", &vec![]), Err(Problem::NoRecipients)));
}

#[test]
fn wrong_identity_fails() {
    let a = StoreKey::generate();
    let b = StoreKey::generate();
    let ct = encrypt(b"secret", &vec![a.to_public()]).ok().unwrap();
    assert!(decrypt(&ct, &b).is_err());
    // For several, each can open it
    let ct = encrypt(b"secret", &vec![a.to_public(), b.to_public()])
        .ok()
        .unwrap();
    assert_eq!(decrypt(&ct, &a).ok().unwrap(), b"secret");
    assert_eq!(decrypt(&ct, &b).ok().unwrap(), b"secret");
}

#[test]
fn keys_are_read_back() {
    let key = StoreKey::generate();
    let text = key.expose();
    assert!(text.starts_with("AGE-SECRET-KEY-1"));
    let again = StoreKey::parse(&text).ok().unwrap();
    let public = key.to_public().to_text();
    assert_eq!(again.to_public().to_text(), public);
    assert!(public.starts_with("age1"));
    let parsed = Recipient::parse(&format!(" {public}\n")).ok().unwrap();
    assert_eq!(parsed.to_text(), public);
    assert!(matches!(StoreKey::parse("nope"), Err(Problem::BadKey(_))));
    assert!(matches!(
        Recipient::parse("nope"),
        Err(Problem::BadRecipient(_))
    ));
    assert!(!is_small_order(&public));
    key.forget();
}

#[test]
fn a_wrap_gives_back_its_key() {
    let key = StoreKey::generate();
    let wrap = wrap_with_passphrase(&key, PASSPHRASE, Some(10)).ok().unwrap();
    let again = unwrap_with_passphrase(&wrap, PASSPHRASE).ok().unwrap();
    assert_eq!(again.expose(), key.expose());
    let text = format!("{}\n", key.expose());
    let m = Machine::empty(0);
    let by_token = m.store.unlock_with_yubikey(text.clone().into_bytes());
    assert_eq!(by_token.ok().unwrap().expose(), key.expose());
    let by_finger = m.store.unlock_with_se(text.into_bytes());
    assert_eq!(by_finger.ok().unwrap().expose(), key.expose());
    assert!(key_from_wrap(vec![0xff]).is_err());
    assert!(key_from_wrap(b"hello".to_vec()).is_err());
}

#[test]
fn a_copy_of_the_wrap_goes_elsewhere() {
    let (m, key) = Machine::new();
    let steps = m
        .store
        .export_recovery_wrap(&key, PASSPHRASE, "/mnt/stick/key.age", Some(10))
        .ok()
        .unwrap();
    match &steps[0] {
        Step::Write { path, bytes } => {
            assert_eq!(path, "/mnt/stick/key.tmp");
            let again = unwrap_with_passphrase(bytes, PASSPHRASE).ok().unwrap();
            assert_eq!(again.expose(), key.expose());
        }
        _ => panic!("not a write"),
    }
}

// Sync

#[test]
fn a_chosen_remote_outlives_the_shell() {
    let (mut m, _key) = Machine::new();
    assert!(configured_remote(m.text("remote").as_deref()).is_none());

    assert_eq!(remote_path(&m.store), "/home/x/.passbox/remote");
    let steps = remember_remote("/Volumes/stick/passbox");
    m.take(&steps);
    assert_eq!(
        configured_remote(m.text("remote").as_deref()).as_deref(),
        Some("/Volumes/stick/passbox")
    );
}

#[test]
fn each_side_gets_what_the_other_added() {
    let mut remote = Files::new();

    let (mut one, key) = Machine::new();
    one.put(&new_id(), &secret("from/one", "1"));
    one.sync(&mut remote);

    // The second machine joins by pulling the whole store, keys included
    let mut two = Machine::empty(1_000);
    two.sync(&mut remote);
    two.put(&new_id(), &secret("from/two", "2"));
    two.sync(&mut remote);
    one.sync(&mut remote);

    assert_eq!(one.names(&key), vec!["from/one", "from/two"]);
    assert_eq!(two.names(&key), vec!["from/one", "from/two"]);
}

#[test]
fn a_delete_on_one_side_reaches_the_other_and_stays_deleted() {
    let mut remote = Files::new();

    let (mut one, key) = Machine::new();
    let id = new_id();
    one.put(&id, &secret("banking/login", "swordfish"));
    one.sync(&mut remote);

    let mut two = Machine::empty(1_000);
    two.sync(&mut remote);
    assert_eq!(two.names(&key), vec!["banking/login"]);

    one.delete(&id);
    one.sync(&mut remote);
    two.sync(&mut remote);
    assert!(two.names(&key).is_empty());

    // The tombstone is what stops the far side putting it back
    two.sync(&mut remote);
    one.sync(&mut remote);
    assert!(one.names(&key).is_empty());
    assert!(two.names(&key).is_empty());
}

#[test]
fn the_losing_side_of_a_clash_is_kept() {
    let mut remote = Files::new();

    let (mut one, key) = Machine::new();
    let id = new_id();
    one.put(&id, &secret("db/pass", "first"));
    one.sync(&mut remote);

    let mut two = Machine::empty(1_000);
    two.sync(&mut remote);

    // Two writes the newer value, so one loses and keeps its own as a version
    two.put(&id, &secret("db/pass", "second"));
    two.sync(&mut remote);
    let report = one.sync(&mut remote);

    assert_eq!(one.load(&id, &key).ok().unwrap().value, "second");
    assert!(!one.versions(&id).is_empty());
    // A path counts once, and only the loser becomes a version
    assert_eq!(report.pulled, 1);
    assert_eq!(report.pushed, 0);
    let kept: Vec<String> = one
        .versions(&id)
        .iter()
        .map(|(_, p)| one.load_path(p, &key).ok().unwrap().value)
        .collect();
    assert_eq!(kept, vec!["first"]);
}

#[test]
fn syncing_twice_changes_nothing_the_second_time() {
    let mut remote = Files::new();

    let (mut one, _key) = Machine::new();
    one.put(&new_id(), &secret("a/b", "v"));

    let first = one.sync(&mut remote);
    assert_eq!((first.pushed, first.pulled), (3, 0));
    let before = one.files.clone();
    let second = one.sync(&mut remote);
    assert_eq!(
        second,
        Report {
            pushed: 0,
            pulled: 0
        }
    );
    assert_eq!(one.files, before);
}

/// An approval given on this Mac must not arrive on a machine you never touched
#[test]
fn grants_never_travel() {
    let mut remote = Files::new();
    let (mut one, key) = Machine::new();

    let grant = Grant {
        dir: "/x".into(),
        hash: "h".into(),
        secrets: vec!["a/b".into()],
        until: now() + 600,
    };
    let json = b"[{\"dir\":\"/x\"}]";
    let steps = project::save(json, &one.recipient(), "mac").ok().unwrap();
    one.take(&steps);
    assert_eq!(
        open_grants(one.read("grants-mac.age"), &key).as_deref(),
        Some(json.as_slice())
    );
    assert_eq!(project::load(Some(vec![grant.copy()]), now()).len(), 1);
    assert_eq!(project::load(Some(vec![grant]), now() + 601).len(), 0);
    assert_eq!(project::load(None, now()).len(), 0);
    one.sync(&mut remote);

    let leaked: Vec<&String> = remote.keys().filter(|n| n.starts_with("grants-")).collect();
    assert!(leaked.is_empty(), "{leaked:?}");
    assert!(!remote.is_empty());
}

fn to_grants(json: &[u8]) -> Vec<Grant> {
    let all: Value = serde_json::from_slice(json).unwrap();
    all.as_array()
        .unwrap()
        .iter()
        .map(|g| Grant {
            dir: g["dir"].as_str().unwrap().into(),
            hash: g["hash"].as_str().unwrap().into(),
            secrets: g["secrets"]
                .as_array()
                .unwrap()
                .iter()
                .map(|s| s.as_str().unwrap().into())
                .collect(),
            until: g["until"].as_u64().unwrap(),
        })
        .collect()
}

#[test]
fn grants_survive_a_round_trip_and_expired_ones_are_dropped() {
    let (mut m, key) = Machine::new();
    let grant = |dir: &str, secret: &str, until: u64| {
        let mut map = serde_json::Map::new();
        map.insert("dir".into(), Value::from(dir));
        map.insert("hash".into(), Value::from("h"));
        map.insert("secrets".into(), Value::from(vec![secret]));
        map.insert("until".into(), Value::from(until));
        Value::Object(map)
    };
    let live = grant("/x", "a", now() + 600);
    let dead = grant("/y", "b", 1);
    let json = serde_json::to_vec(&Value::Array(vec![live, dead])).unwrap();
    let steps = project::save(&json, &m.recipient(), "mac").ok().unwrap();
    m.take(&steps);

    let held = open_grants(m.read("grants-mac.age"), &key);
    let back = project::load(held.map(|json| to_grants(&json)), now());
    assert_eq!(back.len(), 1);
    assert_eq!(back[0].dir, "/x");

    // A file that another key wrote, or that was tampered with, grants nothing
    assert!(open_grants(m.read("grants-mac.age"), &StoreKey::generate()).is_none());
    assert!(open_grants(Some(b"junk"), &key).is_none());
    assert!(open_grants(None, &key).is_none());
}

#[test]
fn a_new_store_holds_nothing_to_grind() {
    let mut m = Machine::empty(0);
    let (_, steps) = m.store.init(&mut m.listing()).ok().unwrap();
    m.take(&steps);
    assert!(m.store.is_initialised(&m.listing()));
    assert!(!m.store.has_portable_wrap(&m.listing()));
    assert!(!m.store.has_se_wrap(&m.listing(), "mac"));
    assert_eq!(m.listing().all(), vec!["wraps/recipient"]);
}

#[test]
fn the_socket_and_the_versions_stay_at_home() {
    let mut remote = Files::new();

    let (mut one, _key) = Machine::new();
    let id = new_id();
    one.put(&id, &secret("a/b", "v1"));
    one.put(&id, &secret("a/b", "v2"));
    assert_eq!(one.versions(&id).len(), 1);
    one.files.insert("broker.sock".into(), (vec![], 1));

    one.sync(&mut remote);
    assert!(!remote.contains_key("broker.sock"));
    assert!(!remote.keys().any(|k| k.starts_with("store/.versions")));
}

#[test]
fn an_rclone_remote_is_not_treated_as_a_directory() {
    let (one, _key) = Machine::new();
    let ours = side(&Machine::side(&one.files));
    let theirs = side(&vec![]);
    let mut listing = one.listing();
    let refused = sync(&one.store, "b2:passbox", &mut listing, &ours, &theirs, now());
    assert!(refused.is_err());
    assert_eq!(
        refused.err().unwrap().message(),
        "b2:passbox looks like an rclone remote, not a directory"
    );
    one.agrees(&listing);
    assert_eq!(classify("b2:passbox"), Kind::Rclone);
}

// The commands

#[test]
fn add_get_and_list() {
    let mut cli = Machine::cli();
    cli.add("github/token", "ghp_abc");
    cli.add("banking/login", "swordfish");

    assert_eq!(cli.get("github/token").ok().unwrap(), "ghp_abc");
    assert_eq!(cli.ls(), "banking/login\ngithub/token\n");
}

#[test]
fn nothing_on_disk_reveals_a_name() {
    let mut cli = Machine::cli();
    cli.add("github/token", "ghp_abc");

    for (name, (raw, _)) in cli.files.iter().filter(|(k, _)| k.starts_with("store/")) {
        assert!(!name.contains("github"), "{name} holds the secret name");
        let text = String::from_utf8_lossy(raw);
        assert!(
            !text.contains("github"),
            "{name} holds the name in the clear"
        );
        assert!(
            !text.contains("ghp_abc"),
            "{name} holds the value in the clear"
        );
    }
}

/// Replacing a value must not widen access
#[test]
fn replacing_a_value_keeps_the_mode() {
    let mut cli = Machine::cli();
    cli.add_as("banking/login", Some(Mode::Never), "old")
        .ok()
        .unwrap();
    let out = cli.add_as("banking/login", None, "new").ok().unwrap();

    assert!(out.contains("never"), "mode was reset: {out}");
    assert_eq!(cli.get("banking/login").ok().unwrap(), "new");
}

#[test]
fn an_explicit_mode_still_wins() {
    let mut cli = Machine::cli();
    cli.add("db/pass", "v");
    let key = cli.unlock(PASSPHRASE).ok().unwrap();
    for name in targets(&cli.names(&key), "db/pass").ok().unwrap() {
        let (id, s) = cli.find(&name, &key).unwrap();
        cli.put(&id, &set_mode(s, Mode::Never, None, None, now()));
    }
    assert_eq!(cli.find("db/pass", &key).unwrap().1.mode, Mode::Never);
    let out = cli.add_as("db/pass", Some(Mode::Open), "v2").ok().unwrap();
    assert!(out.contains("open"), "{out}");
}

#[test]
fn an_overwrite_is_recoverable() {
    let mut cli = Machine::cli();
    cli.add("github/token", "good");
    cli.add("github/token", "bad");
    assert_eq!(cli.get("github/token").ok().unwrap(), "bad");

    cli.restore("github/token", 0).ok().unwrap();
    assert_eq!(cli.get("github/token").ok().unwrap(), "good");
}

#[test]
fn a_deleted_secret_is_still_recoverable() {
    let mut cli = Machine::cli();
    cli.add("banking/login", "swordfish");
    cli.rm("banking/login");

    assert_eq!(cli.ls(), "");
    assert!(cli.get("banking/login").is_err());

    cli.restore("banking/login", 0).ok().unwrap();
    assert_eq!(cli.get("banking/login").ok().unwrap(), "swordfish");
    assert_eq!(
        cli.restore("banking/login", 9).err().unwrap().message(),
        "no version 9"
    );
    assert_eq!(
        cli.restore("nope", 0).err().unwrap().message(),
        "no secret named nope"
    );
}

#[test]
fn a_listing_stays_true_while_there_is_an_index() {
    let mut cli = Machine::cli();
    cli.add("b", "1");
    let key = cli.unlock(PASSPHRASE).ok().unwrap();
    let steps = cli.store.index_write(&cli.names(&key));
    cli.take(&steps);
    cli.add("a", "2");
    assert_eq!(cli.text("names").unwrap(), "a\nb");
    assert_eq!(cli.ls(), "a\nb\n");
    cli.rm("b");
    assert_eq!(cli.ls(), "a\n");
    cli.restore("b", 0).ok().unwrap();
    assert_eq!(cli.ls(), "a\nb\n");
}

#[test]
fn a_wrong_passphrase_is_refused() {
    let mut cli = Machine::cli();
    cli.add("github/token", "ghp_abc");

    let err = cli
        .get_as("wrong", "github/token", false)
        .err()
        .unwrap()
        .message();
    assert!(err.contains("passphrase"), "{err}");
    assert!(!err.contains("ghp_abc"));
}

#[test]
fn an_empty_value_is_refused() {
    let mut cli = Machine::cli();
    let refused = cli.add_as("empty", None, "");
    assert!(refused.is_err());
    assert_eq!(
        refused.err().unwrap().message(),
        "refusing to store an empty value"
    );
}

/// The value that a child gets in its environment
#[test]
fn exec_injects_into_the_child_environment() {
    let mut cli = Machine::cli();
    cli.add("github/token", "ghp_abc");

    let (child, stdin) = cli
        .exec(
            &["GITHUB_TOKEN=github/token"],
            None,
            &["sh", "-c", "printf %s \"$GITHUB_TOKEN\""],
        )
        .ok()
        .unwrap();
    assert_eq!(child.program, "sh");
    assert_eq!(child.args, vec!["-c", "printf %s \"$GITHUB_TOKEN\""]);
    let out = vec![("GITHUB_TOKEN".to_string(), "ghp_abc".to_string())];
    assert_eq!(child.vars, out);
    assert_eq!(stdin, None);
}

/// The value that a child gets on its standard input
#[test]
fn exec_pipes_a_secret_on_stdin() {
    let mut cli = Machine::cli();
    cli.add("db/password", "swordfish");

    let (child, out) = cli
        .exec(&[], Some("db/password"), &["cat"])
        .ok()
        .unwrap();
    assert_eq!((child.program.as_str(), child.vars.len()), ("cat", 0));
    assert_eq!(out.unwrap(), "swordfish");
}

/// The mode is enforced by passbox, not by the Enclave, so it holds with no hardware
#[test]
fn exec_refuses_a_never_secret() {
    let mut cli = Machine::cli();
    cli.add_as("banking/login", Some(Mode::Never), "swordfish")
        .ok()
        .unwrap();

    let err = cli
        .exec(&["P=banking/login"], None, &["sh", "-c", "echo $P"])
        .err()
        .unwrap()
        .message();
    assert!(err.contains("never"), "{err}");
    assert!(!err.contains("swordfish"));

    assert_eq!(cli.get("banking/login").ok().unwrap(), "swordfish");
}

/// A synced delete leaves the file in place with a tombstone over it, which `restore` must find
#[test]
fn a_secret_deleted_on_another_machine_can_still_be_restored() {
    let mut remote = Files::new();
    let mut one = Machine::cli();
    one.add("github/token", "ghp_abc");
    one.sync(&mut remote);

    let mut two = Machine::empty(1_000);
    two.sync(&mut remote);
    assert_eq!(two.get("github/token").ok().unwrap(), "ghp_abc");

    two.rm("github/token");
    two.sync(&mut remote);
    one.sync(&mut remote);
    assert_eq!(one.ls(), "");

    one.restore("github/token", 0).ok().unwrap();
    assert_eq!(one.get("github/token").ok().unwrap(), "ghp_abc");
}

/// Sync is off until asked for, so a fresh store holds nothing worth grinding away at offline
#[test]
fn sync_is_refused_until_it_is_enabled() {
    let mut cli = Machine::cli();
    cli.add("a/b", "v");

    // The store this test builds is headless, so it already carries a recovery wrap
    cli.files.remove("wraps/recovery.age");

    let listing = cli.listing();
    let err = check_sync(
        false,
        cli.store.is_initialised(&listing),
        cli.store.has_portable_wrap(&listing),
    );
    let err = err.err().unwrap().message();
    assert!(err.contains("sync is off"), "{err}");
}

/// What a restore replaces is the newest version afterwards
#[test]
fn a_restore_keeps_what_it_replaces() {
    let mut cli = Machine::cli();
    cli.add("a", "one");
    cli.add("a", "two");
    cli.restore("a", 0).ok().unwrap();
    assert_eq!(cli.get("a").ok().unwrap(), "one");
    let key = cli.unlock(PASSPHRASE).ok().unwrap();
    let (id, _) = cli.find("a", &key).unwrap();
    let (_, newest) = cli.versions(&id).pop().unwrap();
    assert_eq!(cli.load_path(&newest, &key).ok().unwrap().value, "two");
}

#[test]
fn the_store_gitignore_keeps_the_enclave_wraps_out_of_a_backup() {
    let mut cli = Machine::cli();
    cli.add("a/b", "v");

    let ignore = ensure_store_gitignore(&cli.listing()).unwrap();
    assert!(ignore.contains("wraps/se-*.json"), "{ignore}");
    cli.files.insert(".gitignore".into(), (vec![], 1));
    assert!(ensure_store_gitignore(&cli.listing()).is_none());
}

#[test]
fn the_store_gitignore_leaves_out_what_stays_home() {
    let cli = Machine::cli();
    let ignore = ensure_store_gitignore(&cli.listing()).unwrap();
    assert!(ignore.contains("broker.sock"), "{ignore}");
    assert!(ignore.contains("store/.versions/"), "{ignore}");
    assert!(ignore.lines().any(|l| l == "names"), "{ignore}");
    assert!(ignore.lines().any(|l| l == "remote"), "{ignore}");
}

/// Bring entries across, each with the value that `pass` shows
fn bring(cli: &mut Machine, all: &Vec<String>, prefix: Option<&str>, shown: &str) -> String {
    let key = cli.unlock(PASSPHRASE).ok().unwrap();
    let picked = import_pass(all, prefix, "/pass").ok().unwrap();
    let held: Vec<Option<String>> = picked
        .iter()
        .map(|n| cli.find(n, &key).map(|(id, _)| id))
        .collect();
    let (fates, report) = import::import(&held, false);
    for (i, fate) in fates.iter().enumerate() {
        if *fate != Fate::Skip {
            let value = show(true, shown.as_bytes().to_vec(), "").ok().unwrap();
            let held = held[i].clone();
            let (id, s) = imported(&picked[i], &value, Mode::Window, held, new_id(), now());
            cli.put(&id, &s);
        }
    }
    format!(
        "{}\n{}",
        importing_line(picked.len(), all.len()),
        imported_line(report)
    )
}

/* pass entries carry `key: value` lines under the password, and they are read back by field, so the
import has to keep the whole body rather than the first line. */
#[test]
fn importing_from_pass_keeps_the_whole_entry() {
    let mut cli = Machine::cli();
    let files: Vec<String> = ["bean/hl-mainnet-pk", "bean/fred-api-key", "beanstalk/other"]
        .iter()
        .map(|n| format!("{n}.gpg"))
        .collect();
    let all = import::entries(&files);
    let shown = "topsecret\nlogin: gb\nurl: https://example.com";
    let note = bring(&mut cli, &all, Some("bean"), shown);
    assert!(note.contains("importing 2 of 3"), "{note}");

    // The namespace filter must not have dragged in beanstalk
    assert_eq!(cli.ls(), "bean/fred-api-key\nbean/hl-mainnet-pk\n");

    let body = cli.get("bean/hl-mainnet-pk").ok().unwrap();
    assert_eq!(body, "topsecret\nlogin: gb\nurl: https://example.com");
}

#[test]
fn importing_twice_skips_what_is_already_there() {
    let mut cli = Machine::cli();
    let all = import::entries(&vec!["solo.gpg".to_string()]);

    assert!(bring(&mut cli, &all, None, "value").contains("imported 1, skipped 0"));
    let second = bring(&mut cli, &all, None, "value");
    assert!(second.contains("imported 0, skipped 1"), "{second}");
}

#[test]
fn a_missing_secret_fails_loudly() {
    let cli = Machine::cli();
    let err = cli.get("nope").err().unwrap().message();
    assert!(err.contains("no secret named nope"), "{err}");
}

//! One age file per secret. The filename is a random id, the name lives inside the ciphertext.

use crate::crypto::{
    decrypt, key_from_wrap, unwrap_with_passphrase, wrap_with_passphrase, Recipient, StoreKey,
};
use crate::disk::{
    acts, add_step, add_steps, append_steps, join, lemma_names_a_file, lemma_names_add,
    names_a_file, names_after, path_join, private_dir, temporary, write_acts, write_private, Act,
    Listing, Step,
};
use crate::header::works_at;
use crate::number::{decimal, to_decimal};
use crate::order::join_texts;
use crate::outside::{
    age_open, age_public, age_recipient_fault, clock, hex_encode, hex_text, is_public_of,
    random_bytes, scrypt_open, small_order, text_of, wipe_text, work_factor_ok,
};
use crate::problem::Problem;
use crate::text::{
    cat2, cat3, each_trimmed, has_text, lines, nonempty, nonempty_texts, same, seen, texts, to_lines,
    trim, trim_each, trimmed,
};
use vstd::prelude::*;
use vstd::string::*;
use vstd::utf8::{decode_utf8, encode_utf8, valid_utf8};

verus! {

/// How long one approval lasts for a secret in window mode, unless the secret says otherwise.
pub const DEFAULT_WINDOW_SECS: u64 = 300;

/// How many earlier values of a secret are kept.
pub const KEEP_VERSIONS: usize = 5;

/// How long a tombstone stands: ninety days.
pub const TOMB_TTL_SECS: u64 = 7_776_000;

/// When a secret is released to an agent.
#[derive(Clone, Copy, PartialEq, Eq, Debug, Structural)]
pub enum Mode {
    /// No prompt, for a token an agent reads all day
    Open,
    /// One prompt per agent and secret per window
    Window,
    /// A prompt on every read
    Always,
    /// Never released to an agent, interactive `get` only
    Never,
}

impl Mode {
    /// The word for a mode.
    pub open spec fn word(self) -> Seq<char> {
        match self {
            Mode::Open => "open"@,
            Mode::Window => "window"@,
            Mode::Always => "always"@,
            Mode::Never => "never"@,
        }
    }

    /// The word for a mode.
    pub fn to_text(self) -> (r: String)
        ensures
            r@ == self.word(),
    {
        match self {
            Mode::Open => "open".to_string(),
            Mode::Window => "window".to_string(),
            Mode::Always => "always".to_string(),
            Mode::Never => "never".to_string(),
        }
    }

    /// The mode that a word stands for.
    pub fn from_str(s: &str) -> (r: Result<Mode, Problem>)
        ensures
            match r {
                Ok(mode) => s@ == mode.word(),
                Err(Problem::UnknownMode(word)) => word@ == s@ && forall|mode: Mode|
                    s@ != #[trigger] mode.word(),
                Err(_) => false,
            },
    {
        if same(s, "open") {
            Ok(Mode::Open)
        } else if same(s, "window") {
            Ok(Mode::Window)
        } else if same(s, "always") {
            Ok(Mode::Always)
        } else if same(s, "never") {
            Ok(Mode::Never)
        } else {
            Err(Problem::UnknownMode(s.to_string()))
        }
    }
}

/// No two modes share a word, so a mode is read back as it was written.
pub proof fn a_mode_is_read_back(a: Mode, b: Mode)
    requires
        a.word() == b.word(),
    ensures
        a == b,
{
    reveal_strlit("open");
    reveal_strlit("window");
    reveal_strlit("always");
    reveal_strlit("never");
    assert("open"@[0] == 'o' && "window"@[0] == 'w' && "always"@[0] == 'a' && "never"@[0] == 'n');
}

/// A secret, as it stands inside its file.
pub struct Secret {
    pub name: String,
    pub mode: Mode,
    pub window_secs: u64,
    /// How long the broker may keep this value after one approval. A window still asks for a
    /// fingerprint when it lapses, which no unattended job can answer. A lease holds the one value
    /// instead of the store key, so the job keeps running and the approval it got extends to that
    /// secret alone. Zero means no lease.
    pub lease_secs: u64,
    pub value: String,
    pub created: u64,
    pub updated: u64,
}

impl Secret {
    /// The same secret again.
    pub fn copy(&self) -> (r: Secret)
        ensures
            r == *self,
    {
        Secret {
            name: self.name.clone(),
            mode: self.mode,
            window_secs: self.window_secs,
            lease_secs: self.lease_secs,
            value: self.value.clone(),
            created: self.created,
            updated: self.updated,
        }
    }

    /// Overwrite the value before the secret goes.
    pub fn wipe(&mut self)
        ensures
            final(self).value@ == Seq::<char>::empty(),
            *final(self) == (Secret { value: final(self).value, ..*old(self) }),
    {
        wipe_text(&mut self.value);
    }
}

/// Seconds since the epoch, from a reading of the clock. A clock set before the epoch reads zero.
pub fn seconds(reading: Option<u64>) -> (r: u64)
    ensures
        r == match reading {
            Some(secs) => secs,
            None => 0,
        },
{
    match reading {
        Some(secs) => secs,
        None => 0,
    }
}

/// The time now, in seconds since the epoch.
pub fn now() -> (r: u64) {
    seconds(clock())
}

/// The id for sixteen bytes.
pub fn id_of(bytes: [u8; 16]) -> (r: String)
    ensures
        r@ == hex_text(bytes@),
        r@.len() == 32,
{
    hex_encode(bytes.as_slice())
}

/// A random id: thirty-two hexadecimal digits that say nothing of what they name.
pub fn new_id() -> (r: String)
    ensures
        r@.len() == 32,
        exists|bytes: Seq<u8>| bytes.len() == 16 && r@ == #[trigger] hex_text(bytes),
{
    let bytes = random_bytes();
    assert(bytes@.len() == 16);
    id_of(bytes)
}

/// The name of this machine, from what `hostname -s` printed.
pub open spec fn host(stdout: Option<Seq<u8>>) -> Seq<char> {
    match stdout {
        Some(bytes) => if valid_utf8(bytes) && trim(decode_utf8(bytes)).len() > 0 {
            trim(decode_utf8(bytes))
        } else {
            "unknown"@
        },
        None => "unknown"@,
    }
}

/// The name of this machine, from what `hostname -s` printed.
pub fn hostname(stdout: Option<Vec<u8>>) -> (r: String)
    ensures
        r@ == host(
            match stdout {
                Some(bytes) => Some(bytes@),
                None => None,
            },
        ),
{
    match stdout {
        Some(bytes) => match text_of(bytes) {
            Some(text) => {
                let name = trimmed(text.as_str());
                if crate::text::to_chars(name.as_str()).len() > 0 {
                    name
                } else {
                    "unknown".to_string()
                }
            },
            None => "unknown".to_string(),
        },
        None => "unknown".to_string(),
    }
}

// ---------------------------------------------------------------------------------------------
// Where things are, below the store's directory

/// The file of a secret.
pub open spec fn secret_file(id: Seq<char>) -> Seq<char> {
    path_join("store"@, id + ".age"@)
}

/// The tombstone of a secret.
pub open spec fn tomb_file(id: Seq<char>) -> Seq<char> {
    path_join("store"@, id + ".tomb"@)
}

/// Where the earlier values of a secret are.
pub open spec fn version_dir(id: Seq<char>) -> Seq<char> {
    path_join("store/.versions"@, id)
}

/// An earlier value of a secret, by when it was replaced.
pub open spec fn version_file(id: Seq<char>, stamp: int) -> Seq<char> {
    path_join(version_dir(id), decimal(stamp) + ".age"@)
}

pub(crate) fn secret_name(id: &str) -> (r: String)
    ensures
        r@ == secret_file(id@),
{
    join("store", cat2(id, ".age").as_str())
}

pub(crate) fn tomb_name(id: &str) -> (r: String)
    ensures
        r@ == tomb_file(id@),
{
    join("store", cat2(id, ".tomb").as_str())
}

pub(crate) fn version_place(id: &str) -> (r: String)
    ensures
        r@ == version_dir(id@),
{
    join("store/.versions", id)
}

pub(crate) fn version_name(id: &str, stamp: u64) -> (r: String)
    ensures
        r@ == version_file(id@, stamp as int),
{
    let n = to_decimal(stamp);
    join(version_place(id).as_str(), cat2(n.as_str(), ".age").as_str())
}

/// A store, by the directory it is in.
pub struct Store {
    pub dir: String,
}

impl Store {
    /// The store that the environment names, or the one in the home directory.
    pub fn open(set: Option<String>, home: Option<String>) -> (r: Result<Store, Problem>)
        ensures
            match r {
                Ok(store) => match set {
                    Some(dir) => store.dir@ == dir@,
                    None => home matches Some(h) && store.dir@ == path_join(h@, ".passbox"@),
                },
                Err(Problem::HomeNotSet) => set is None && home is None,
                Err(_) => false,
            },
    {
        match set {
            Some(dir) => Ok(Store { dir }),
            None => match home {
                Some(h) => Ok(Store { dir: join(h.as_str(), ".passbox") }),
                None => Err(Problem::HomeNotSet),
            },
        }
    }

    /// Where the secrets are.
    pub fn secrets_dir(&self) -> (r: String)
        ensures
            r@ == path_join(self.dir@, "store"@),
    {
        join(self.dir.as_str(), "store")
    }

    /// Where their earlier values are.
    pub fn versions_dir(&self) -> (r: String)
        ensures
            r@ == path_join(path_join(self.dir@, "store"@), ".versions"@),
    {
        join(self.secrets_dir().as_str(), ".versions")
    }

    /// Where the wraps of the store key are.
    pub fn wraps_dir(&self) -> (r: String)
        ensures
            r@ == path_join(self.dir@, "wraps"@),
    {
        join(self.dir.as_str(), "wraps")
    }

    /// The public half of the store key, in the clear.
    pub fn recipient_path(&self) -> (r: String)
        ensures
            r@ == path_join(path_join(self.dir@, "wraps"@), "recipient"@),
    {
        join(self.wraps_dir().as_str(), "recipient")
    }

    /// The wrap that a passphrase opens.
    pub fn recovery_path(&self) -> (r: String)
        ensures
            r@ == path_join(path_join(self.dir@, "wraps"@), "recovery.age"@),
    {
        join(self.wraps_dir().as_str(), "recovery.age")
    }

    /// Opened by the token rather than by a passphrase, so the file is inert on its own.
    pub fn yubikey_wrap_path(&self) -> (r: String)
        ensures
            r@ == path_join(path_join(self.dir@, "wraps"@), "yubikey.age"@),
    {
        join(self.wraps_dir().as_str(), "yubikey.age")
    }

    /// Recipients are public, so they sit in the clear beside the wrap they opened.
    pub fn yubikey_recipients_path(&self) -> (r: String)
        ensures
            r@ == path_join(path_join(self.dir@, "wraps"@), "yubikey.recipients"@),
    {
        join(self.wraps_dir().as_str(), "yubikey.recipients")
    }

    /// One wrap per machine, because a Secure Enclave key cannot leave the Mac that made it.
    pub fn se_wrap_path(&self, host: &str) -> (r: String)
        ensures
            r@ == path_join(path_join(self.dir@, "wraps"@), "se-"@ + host@ + ".json"@),
    {
        join(self.wraps_dir().as_str(), cat3("se-", host, ".json").as_str())
    }

    /// Where the broker listens.
    pub fn socket_path(&self) -> (r: String)
        ensures
            r@ == path_join(self.dir@, "broker.sock"@),
    {
        join(self.dir.as_str(), "broker.sock")
    }

    /// Per machine, so two Macs never append to the same file through a syncer.
    pub fn audit_path(&self, host: &str) -> (r: String)
        ensures
            r@ == path_join(self.dir@, "audit-"@ + host@ + ".log"@),
    {
        join(self.dir.as_str(), cat3("audit-", host, ".log").as_str())
    }

    /// Where the index of names is.
    pub fn index_path(&self) -> (r: String)
        ensures
            r@ == path_join(self.dir@, "names"@),
    {
        join(self.dir.as_str(), "names")
    }

    /// Where the file of a secret is.
    pub fn secret_path(&self, id: &str) -> (r: String)
        ensures
            r@ == path_join(path_join(self.dir@, "store"@), id@ + ".age"@),
    {
        join(self.secrets_dir().as_str(), cat2(id, ".age").as_str())
    }

    /// Where the tombstone of a secret is.
    pub fn tomb_path(&self, id: &str) -> (r: String)
        ensures
            r@ == path_join(path_join(self.dir@, "store"@), id@ + ".tomb"@),
    {
        join(self.secrets_dir().as_str(), cat2(id, ".tomb").as_str())
    }

    /// Whether there is a store: its recipient is there.
    pub fn is_initialised(&self, listing: &Listing) -> (r: bool)
        ensures
            r == listing@.contains("wraps/recipient"@),
    {
        listing.has("wraps/recipient")
    }

    /// Whether a passphrase opens the store.
    pub fn has_recovery_wrap(&self, listing: &Listing) -> (r: bool)
        ensures
            r == listing@.contains("wraps/recovery.age"@),
    {
        listing.has("wraps/recovery.age")
    }

    /// Whether a token opens the store.
    pub fn has_yubikey_wrap(&self, listing: &Listing) -> (r: bool)
        ensures
            r == listing@.contains("wraps/yubikey.age"@),
    {
        listing.has("wraps/yubikey.age")
    }

    /// Whether this machine's Secure Enclave opens the store.
    pub fn has_se_wrap(&self, listing: &Listing, host: &str) -> (r: bool)
        ensures
            r == listing@.contains("wraps/se-"@ + host@ + ".json"@),
    {
        listing.has(cat3("wraps/se-", host, ".json").as_str())
    }

    /// Whether a wrap opens the store away from this Mac. Sync is worth nothing without one.
    pub fn has_portable_wrap(&self, listing: &Listing) -> (r: bool)
        ensures
            r == opens_elsewhere(listing@),
    {
        self.has_recovery_wrap(listing) || self.has_yubikey_wrap(listing)
    }

    /// The directories of a new store and its recipient.
    pub open spec fn init_acts(recipient: Seq<char>) -> Seq<Act> {
        seq![
            Act::MakeDir(""@),
            Act::MakeDir("store"@),
            Act::MakeDir("store/.versions"@),
            Act::MakeDir("wraps"@),
        ] + write_acts("wraps/recipient"@, encode_utf8(recipient))
    }

    /// Generate the store key and write no wrap. The recipient stays in the clear so writing a
    /// secret never needs an unlock. The caller decides which wraps to add.
    pub fn init(&self, listing: &mut Listing) -> (r: Result<(StoreKey, Vec<Step>), Problem>)
        ensures
            match r {
                Ok((key, steps)) => {
                    &&& !old(listing)@.contains("wraps/recipient"@)
                    &&& age_public(key@) matches Ok(public) && acts(steps@) == Self::init_acts(
                        public,
                    )
                    &&& final(listing)@ == names_after(old(listing)@, acts(steps@))
                },
                Err(Problem::AlreadyInitialised(dir)) => old(listing)@.contains("wraps/recipient"@)
                    && dir@ == self.dir@ && final(listing)@ == old(listing)@,
                Err(_) => false,
            },
    {
        if self.is_initialised(listing) {
            return Err(Problem::AlreadyInitialised(self.dir.clone()));
        }
        let ghost names = listing@;
        let key = StoreKey::generate();
        let mut steps: Vec<Step> = Vec::new();
        assert(acts(steps@) =~= Seq::<Act>::empty());
        assert(names_after(names, acts(steps@)) == listing@);
        add_step(&mut steps, listing, private_dir(""));
        add_step(&mut steps, listing, private_dir("store"));
        add_step(&mut steps, listing, private_dir("store/.versions"));
        add_step(&mut steps, listing, private_dir("wraps"));
        let ghost made = acts(steps@);
        assert(made =~= seq![
            Act::MakeDir(""@),
            Act::MakeDir("store"@),
            Act::MakeDir("store/.versions"@),
            Act::MakeDir("wraps"@),
        ]);
        let public = key.to_public().to_text();
        proof {
            lemma_wrap_files();
        }
        let written = write_private("wraps/recipient", public.as_str().as_bytes());
        add_steps(&mut steps, listing, written);
        proof {
            lemma_names_add(names, made, acts(written@));
            assert(names_after(names, made + acts(written@)) == listing@);
            assert(acts(steps@) =~= Self::init_acts(public@));
            assert(is_public_of(public@, key@));
        }
        Ok((key, steps))
    }

    /// The wrap that makes the store readable away from this Mac, which makes it both what syncing
    /// needs and the one file worth attacking in a synced copy. It is written when the user asks
    /// for sync, never before.
    pub fn create_recovery_wrap(&self, key: &StoreKey, passphrase: &str) -> (r: Result<
        Vec<Step>,
        Problem,
    >)
        ensures
            r matches Ok(steps) && exists|file: Seq<u8>| #[trigger]
                wraps(file, passphrase@, key@) && works_at(file, None) && acts(steps@)
                    == write_acts("wraps/recovery.age"@, file),
    {
        self.create_recovery_wrap_with_factor(key, passphrase, None)
    }

    /// The same with a work factor of the caller's. age calibrates scrypt to about a second of
    /// work on this machine, which is the right default and the wrong thing to pay over and over in
    /// a test suite.
    pub fn create_recovery_wrap_with_factor(
        &self,
        key: &StoreKey,
        passphrase: &str,
        log_n: Option<u8>,
    ) -> (r: Result<Vec<Step>, Problem>)
        requires
            work_factor_ok(log_n),
        ensures
            r matches Ok(steps) && exists|file: Seq<u8>| #[trigger]
                wraps(file, passphrase@, key@) && works_at(file, log_n) && acts(steps@)
                    == write_acts("wraps/recovery.age"@, file),
    {
        proof {
            lemma_wrap_files();
        }
        self.export_recovery_wrap(key, passphrase, "wraps/recovery.age", log_n)
    }

    /// The same wrap written wherever the caller wants it, for a backup that never syncs.
    pub fn export_recovery_wrap(
        &self,
        key: &StoreKey,
        passphrase: &str,
        to: &str,
        log_n: Option<u8>,
    ) -> (r: Result<Vec<Step>, Problem>)
        requires
            work_factor_ok(log_n),
            names_a_file(to@),
        ensures
            r matches Ok(steps) && exists|file: Seq<u8>| #[trigger]
                wraps(file, passphrase@, key@) && works_at(file, log_n) && acts(steps@)
                    == write_acts(to@, file),
    {
        match wrap_with_passphrase(key, passphrase, log_n) {
            Ok(file) => {
                assert(wraps(file@, passphrase@, key@));
                Ok(write_private(to, file.as_slice()))
            },
            Err(e) => Err(e),
        }
    }

    /// Open the store key with a passphrase, from what the recovery wrap holds.
    pub fn unlock_with_passphrase(&self, wrapped: Option<&[u8]>, passphrase: &str) -> (r: Result<
        StoreKey,
        Problem,
    >)
        ensures
            match r {
                Ok(key) => wrapped matches Some(file) && scrypt_open(file@, passphrase@) matches Some(
                    plain,
                ) && valid_utf8(plain) && key@ == trim(decode_utf8(plain)),
                Err(Problem::NoRecoveryWrap) => wrapped is None,
                Err(Problem::WrongPassphrase(_)) => wrapped is Some,
                Err(Problem::RecoveryIsNotAKey) => wrapped matches Some(file) && scrypt_open(
                    file@,
                    passphrase@,
                ) matches Some(plain) && !valid_utf8(plain),
                Err(Problem::BadKey(_)) => wrapped matches Some(file) && scrypt_open(
                    file@,
                    passphrase@,
                ) matches Some(plain) && valid_utf8(plain) && age_public(
                    trim(decode_utf8(plain)),
                ) is Err,
                Err(_) => false,
            },
    {
        match wrapped {
            Some(file) => unwrap_with_passphrase(file, passphrase),
            None => Err(Problem::NoRecoveryWrap),
        }
    }

    /// The store key, from what the token found in its wrap. The token prompts for a touch itself.
    pub fn unlock_with_yubikey(&self, plain: Vec<u8>) -> (r: Result<StoreKey, Problem>)
        ensures
            match r {
                Ok(key) => valid_utf8(plain@) && key@ == trim(decode_utf8(plain@)) && age_public(
                    key@,
                ) is Ok,
                Err(Problem::WrapIsNotAKey) => !valid_utf8(plain@),
                Err(Problem::BadKey(why)) => valid_utf8(plain@) && age_public(
                    trim(decode_utf8(plain@)),
                ) == Err::<Seq<char>, Seq<char>>(why@),
                Err(_) => false,
            },
    {
        key_from_wrap(plain)
    }

    /// The store key, from what the Secure Enclave found in its wrap after a fingerprint.
    pub fn unlock_with_se(&self, plain: Vec<u8>) -> (r: Result<StoreKey, Problem>)
        ensures
            match r {
                Ok(key) => valid_utf8(plain@) && key@ == trim(decode_utf8(plain@)) && age_public(
                    key@,
                ) is Ok,
                Err(Problem::WrapIsNotAKey) => !valid_utf8(plain@),
                Err(Problem::BadKey(why)) => valid_utf8(plain@) && age_public(
                    trim(decode_utf8(plain@)),
                ) == Err::<Seq<char>, Seq<char>>(why@),
                Err(_) => false,
            },
    {
        key_from_wrap(plain)
    }

    /// The recipient that secrets are encrypted to, from what its file holds.
    pub fn recipient(&self, raw: Option<&str>) -> (r: Result<Recipient, Problem>)
        requires
            raw matches Some(text) ==> !small_order(trim(text@)),
        ensures
            match r {
                Ok(to) => raw matches Some(text) && age_recipient_fault(trim(text@)) is None && to@
                    == trim(text@),
                Err(Problem::NoStore(dir)) => raw is None && dir@ == self.dir@,
                Err(Problem::BadRecipient(why)) => raw matches Some(text) && age_recipient_fault(
                    trim(text@),
                ) == Some(why@),
                Err(_) => false,
            },
    {
        match raw {
            Some(text) => Recipient::parse(text),
            None => Err(Problem::NoStore(self.dir.clone())),
        }
    }

    /// The tokens a wrap is for, from the file that lists them: its lines, trimmed, without the
    /// empty ones.
    pub fn yubikey_recipients(&self, raw: Option<&str>) -> (r: Vec<String>)
        ensures
            texts(r@) == tokens_in(seen(raw)),
    {
        match raw {
            Some(text) => nonempty_texts(&trim_each(&to_lines(text))),
            None => {
                let r: Vec<String> = Vec::new();
                assert(texts(r@) =~= Seq::<Seq<char>>::empty());
                r
            },
        }
    }

    /// The tokens to wrap to when one is added. age takes any number of recipients, so a second
    /// token joins the wrap rather than replacing it.
    pub fn with_yubikey_recipient(&self, raw: Option<&str>, recipient: &str) -> (r: Vec<String>)
        ensures
            texts(r@) == tokens_with(seen(raw), recipient@),
    {
        let mut all = self.yubikey_recipients(raw);
        let recipient = trimmed(recipient);
        let ghost held = texts(all@);
        if !has_text(&all, recipient.as_str()) {
            all.push(recipient);
            assert(texts(all@) =~= held.push(recipient@));
        }
        all
    }

    /// Put the wrap for the tokens in place, and the list of them beside it. Returns how many
    /// there are.
    pub fn add_yubikey_recipient(&self, wrapped: &[u8], all: &Vec<String>) -> (r: (
        usize,
        Vec<Step>,
    ))
        ensures
            r.0 == all@.len(),
            acts(r.1@) == write_acts("wraps/yubikey.age"@, wrapped@) + write_acts(
                "wraps/yubikey.recipients"@,
                encode_utf8(crate::order::join(texts(all@), "\n"@)),
            ),
    {
        proof {
            lemma_wrap_files();
        }
        let mut steps = write_private("wraps/yubikey.age", wrapped);
        let list = join_texts(all, "\n");
        let more = write_private("wraps/yubikey.recipients", list.as_str().as_bytes());
        append_steps(&mut steps, more);
        (all.len(), steps)
    }

    /// Put the wrap for this machine's Secure Enclave in place.
    pub fn create_se_wrap(&self, host: &str, wrap: &[u8]) -> (r: Vec<Step>)
        ensures
            acts(r@) == write_acts("wraps/se-"@ + host@ + ".json"@, wrap@),
    {
        let path = cat3("wraps/se-", host, ".json");
        proof {
            reveal_strlit(".json");
            lemma_names_a_file("wraps/se-"@ + host@, ".json"@);
        }
        write_private(path.as_str(), wrap)
    }

    /// What the file of a secret holds for the store key: the secret as JSON.
    pub fn load_path(&self, raw: &[u8], key: &StoreKey) -> (r: Result<Vec<u8>, Problem>)
        ensures
            match r {
                Ok(plain) => age_open(raw@, key@) == Some(plain@),
                Err(Problem::Age(_)) => age_open(raw@, key@) is None,
                Err(_) => false,
            },
    {
        decrypt(raw, key)
    }
}

/// `file` is the wrap of `key` that `passphrase` opens.
pub open spec fn wraps(file: Seq<u8>, passphrase: Seq<char>, key: Seq<char>) -> bool {
    scrypt_open(file, passphrase) == Some(encode_utf8(key))
}

proof fn lemma_wrap_files()
    ensures
        names_a_file("wraps/recipient"@),
        names_a_file("wraps/recovery.age"@),
        names_a_file("wraps/yubikey.age"@),
        names_a_file("wraps/yubikey.recipients"@),
{
    reveal_strlit("wraps/recipient");
    reveal_strlit("wraps/recovery.age");
    reveal_strlit("wraps/yubikey.age");
    reveal_strlit("wraps/yubikey.recipients");
    let a = "wraps/recipient"@;
    assert(a =~= a.take(12) + a.skip(12));
    lemma_names_a_file(a.take(12), a.skip(12));
    let b = "wraps/recovery.age"@;
    assert(b =~= b.take(15) + b.skip(15));
    lemma_names_a_file(b.take(15), b.skip(15));
    let c = "wraps/yubikey.age"@;
    assert(c =~= c.take(14) + c.skip(14));
    lemma_names_a_file(c.take(14), c.skip(14));
    let d = "wraps/yubikey.recipients"@;
    assert(d =~= d.take(21) + d.skip(21));
    lemma_names_a_file(d.take(21), d.skip(21));
}

/// A wrap that is not written stays as it was.
proof fn lemma_other_name(names: Set<Seq<char>>, path: Seq<char>, bytes: Seq<u8>, other: Seq<char>)
    requires
        other != path,
        other.len() > 0,
        other.last() != 'p',
    ensures
        names_after(names, write_acts(path, bytes)).contains(other) == names.contains(other),
{
    reveal_strlit(".tmp");
    reveal_with_fuel(names_after, 3);
    let w = write_acts(path, bytes);
    assert(w.drop_last() =~= seq![w[0]]);
    assert(seq![w[0]].drop_last() =~= Seq::<Act>::empty());
    assert(temporary(path).last() == 'p');
}

/// A new store opens nowhere else: making it writes no wrap that an attacker could take away and
/// grind at, whatever the machine.
pub proof fn a_new_store_holds_nothing_to_grind(
    names: Set<Seq<char>>,
    recipient: Seq<char>,
    host: Seq<char>,
)
    ensures
        ({
            let after = names_after(names, Store::init_acts(recipient));
            &&& after.contains("wraps/recovery.age"@) == names.contains("wraps/recovery.age"@)
            &&& after.contains("wraps/yubikey.age"@) == names.contains("wraps/yubikey.age"@)
            &&& after.contains("wraps/se-"@ + host + ".json"@) == names.contains(
                "wraps/se-"@ + host + ".json"@,
            )
        }),
{
    reveal_strlit("wraps/recipient");
    reveal_strlit("wraps/recovery.age");
    reveal_strlit("wraps/yubikey.age");
    reveal_strlit("wraps/se-");
    reveal_strlit(".json");
    let made = seq![
        Act::MakeDir(""@),
        Act::MakeDir("store"@),
        Act::MakeDir("store/.versions"@),
        Act::MakeDir("wraps"@),
    ];
    let bytes = encode_utf8(recipient);
    assert(names_after(names, made) == names) by {
        reveal_with_fuel(names_after, 5);
        assert(made.drop_last() =~= seq![made[0], made[1], made[2]]);
        assert(made.drop_last().drop_last() =~= seq![made[0], made[1]]);
        assert(made.drop_last().drop_last().drop_last() =~= seq![made[0]]);
        assert(made.drop_last().drop_last().drop_last().drop_last() =~= Seq::<Act>::empty());
    }
    lemma_names_add(names, made, write_acts("wraps/recipient"@, bytes));
    let se = "wraps/se-"@ + host + ".json"@;
    assert(se.last() == 'n');
    assert("wraps/recipient"@.last() == 't');
    assert("wraps/recovery.age"@.last() == 'e');
    assert("wraps/yubikey.age"@.last() == 'e');
    lemma_other_name(names, "wraps/recipient"@, bytes, "wraps/recovery.age"@);
    lemma_other_name(names, "wraps/recipient"@, bytes, "wraps/yubikey.age"@);
    lemma_other_name(names, "wraps/recipient"@, bytes, se);
}

// ---------------------------------------------------------------------------------------------
// The tokens that open a store

/// The tokens that a wrap is for, from what the file that lists them holds.
pub open spec fn tokens_in(raw: Option<Seq<char>>) -> Seq<Seq<char>> {
    match raw {
        Some(text) => nonempty(each_trimmed(lines(text))),
        None => Seq::empty(),
    }
}

/// The tokens that a wrap is for once one was added.
pub open spec fn tokens_with(raw: Option<Seq<char>>, recipient: Seq<char>) -> Seq<Seq<char>> {
    let held = tokens_in(raw);
    if held.contains(trim(recipient)) {
        held
    } else {
        held.push(trim(recipient))
    }
}

/// A second token joins the first: whoever opened the store still does, in the same place, the new one
/// does too, nobody else does, and one that did already is not counted twice.
pub proof fn a_second_token_joins_the_first(raw: Option<Seq<char>>, recipient: Seq<char>, i: int)
    ensures
        0 <= i < tokens_in(raw).len() ==> tokens_with(raw, recipient)[i] == tokens_in(raw)[i],
        tokens_with(raw, recipient).contains(trim(recipient)),
        tokens_with(raw, recipient).len() <= tokens_in(raw).len() + 1,
        tokens_in(raw).contains(trim(recipient)) ==> tokens_with(raw, recipient) == tokens_in(raw),
        !tokens_in(raw).contains(trim(recipient)) ==> tokens_with(raw, recipient).len()
            == tokens_in(raw).len() + 1,
{
    let held = tokens_in(raw);
    if !held.contains(trim(recipient)) {
        assert(held.push(trim(recipient))[held.len() as int] == trim(recipient));
    }
}

/// The list of tokens is read back as it was written, so that each one that is added finds all that
/// were added before it.
pub proof fn listed_tokens_are_read_back(all: Seq<Seq<char>>)
    requires
        forall|i: int|
            0 <= i < all.len() ==> (#[trigger] all[i]).len() > 0 && !all[i].contains('\n') && trim(
                all[i],
            ) == all[i],
    ensures
        tokens_in(Some(crate::order::join(all, "\n"@))) == all,
{
    assert forall|i: int| 0 <= i < all.len() implies (#[trigger] all[i]).last() != '\r' by {
        crate::text::lemma_trim(all[i]);
    }
    crate::order::joined_lines_are_read_back(all);
    assert(each_trimmed(all) =~= all);
}

/// A machine is called what it says it is, without the space around it, and unknown where it says
/// nothing that can be read.
pub proof fn a_machine_is_called_what_it_says(bytes: Seq<u8>)
    ensures
        valid_utf8(bytes) && trim(decode_utf8(bytes)).len() > 0 ==> host(Some(bytes)) == trim(
            decode_utf8(bytes),
        ),
        !valid_utf8(bytes) || trim(decode_utf8(bytes)).len() == 0 ==> host(Some(bytes)) == "unknown"@,
        host(None) == "unknown"@,
{
}

/// A store opens elsewhere with either wrap: a passphrase's or a token's is enough.
pub proof fn either_wrap_opens_elsewhere(names: Set<Seq<char>>)
    ensures
        names.contains("wraps/recovery.age"@) ==> opens_elsewhere(names),
        names.contains("wraps/yubikey.age"@) ==> opens_elsewhere(names),
        opens_elsewhere(names) ==> names.contains("wraps/recovery.age"@) || names.contains(
            "wraps/yubikey.age"@,
        ),
{
}

/// A file opens the store away from the Mac that made it.
pub open spec fn opens_elsewhere(names: Set<Seq<char>>) -> bool {
    names.contains("wraps/recovery.age"@) || names.contains("wraps/yubikey.age"@)
}

} // verus!

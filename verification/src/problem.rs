//! What can go wrong, and the words a person is told it in.

use vstd::prelude::*;
use vstd::string::*;

verus! {

/// How a management key is changed to one the plugin can use.
pub const MANAGEMENT_KEY_FIX: &'static str = " on a new token and on a factory reset, so this\nis the state a new YubiKey arrives in. Change it, which touches the PIV\napplet only and leaves OpenPGP keys alone:\n\n    ykman piv access change-management-key -a tdes -n 010203040506070801020304050607080102030405060708\n";

/// A refusal or a failure.
pub enum Problem {
    /// A file with nobody to open it was asked for
    NoRecipients,
    /// age refused, for the reason it gives
    Age(String),
    /// The text is no age identity, for the reason given
    BadKey(String),
    /// The text is no age recipient, for the reason given
    BadRecipient(String),
    /// The passphrase did not open the wrap
    WrongPassphrase(String),
    /// What the wrap held is not text
    WrapIsNotAKey,
    /// What the recovery wrap held is not text
    RecoveryIsNotAKey,
    /// A line of the audit log is not hexadecimal
    BadLine,
    /// There is no home directory to look in
    HomeNotSet,
    /// Nothing here opens with a passphrase
    NoRecoveryWrap,
    /// There is a store in this directory already
    AlreadyInitialised(String),
    /// There is no store in this directory
    NoStore(String),
    /// A destination that looks like an rclone remote was given for a directory
    NotADirectory(String),
    /// rclone could not be started
    NoRclone,
    /// rclone gave up
    RcloneFailed,
    /// `pass` refused, for the reason it gives
    PassFailed(String),
    /// What `pass` printed is not text
    EntryIsNotText,
    /// There is no secret of this name
    NoSecret(String),
    /// The secret is not for agents
    MarkedNever(String),
    /// No secret bears this name or lies under it
    NothingUnder(String),
    /// Everything these names match is not for agents
    OnlyNever(String),
    /// The broker refused, for the reason it gives
    Broker(String),
    /// The broker refused and gave no reason
    Refused,
    /// The broker agreed and sent nothing
    NoValue,
    /// The Secure Enclave helper gave up, for the reason it gives
    Helper(String),
    /// There is no tool of this name
    NoTool(String),
    /// A tool was called without naming a secret
    SecretRequired,
    /// A tool was called without a command
    CommandRequired,
    /// The text is no plugin recipient, for the reason given
    NotARecipient(String, String),
    /// The recipient is for another plugin
    OtherPlugin(String, String),
    /// The plugin is missing and cannot be offered
    PluginMissing,
    /// The plugin was offered and declined
    InstallDeclined,
    /// The plugin could not be installed
    InstallFailed,
    /// GPG holds the card, and goes on holding it
    ScdaemonHolds,
    /// GPG was told to let go of the card and did not
    ScdaemonRuns,
    /// The token was not provisioned
    GenerateFailed,
    /// The token's management key is not one the plugin can use
    ManagementKey(String),
    /// Nothing opens the store away from this Mac
    SyncIsOff,
    /// Neither of two choices
    NotOneOrTwo(String),
    /// None of four choices
    NotOneToFour(String),
    /// Nothing was typed
    NothingGiven,
    /// A variable without a secret
    NotAPair(String),
    /// There is nothing to run
    NoCommand,
    /// The broker was started and never listened
    NoSocket,
    /// The passphrase is too short
    ShortPassphrase,
    /// The passphrase was typed in two ways
    PassphrasesDiffer,
    /// This machine opens the store already
    AlreadyBound(String),
    /// There is no token to wrap to
    NoToken,
    /// Provisioning the token was declined
    GenerateDeclined,
    /// There is no value to store
    EmptyValue,
    /// `pass` has nothing
    NoEntries(String),
    /// `pass` has nothing of this name
    NoEntryMatches(String, String),
    /// The value was typed in two ways
    ValuesDiffer,
    /// The secret has no such field
    NoField(String, String),
    /// The secret was never replaced
    NoVersions(String),
    /// The secret was not replaced that often
    NoVersion(String),
    /// What the file holds is no secret
    NotASecret,
    /// Something outside failed, for the reason it gives
    Outside(String),
    /// The word is no mode
    UnknownMode(String),
}

impl Problem {
    /// The words for this problem.
    pub open spec fn words(self) -> Seq<char> {
        match self {
            Problem::NoRecipients => "no recipients, refusing to write an unreadable file"@,
            Problem::Age(why) => why@,
            Problem::BadKey(why) => "bad store key: "@ + why@,
            Problem::BadRecipient(why) => "bad recipient file: "@ + why@,
            Problem::WrongPassphrase(why) => "wrong passphrase: "@ + why@,
            Problem::WrapIsNotAKey => "the wrap is not a key"@,
            Problem::RecoveryIsNotAKey => "recovery wrap is not a key"@,
            Problem::BadLine => "the line is not hexadecimal"@,
            Problem::HomeNotSet => "HOME is not set"@,
            Problem::NoRecoveryWrap => "no recovery wrap"@,
            Problem::AlreadyInitialised(dir) => dir@ + " is already initialised"@,
            Problem::NoStore(dir) => "no store at "@ + dir@ + ", run `passbox init`"@,
            Problem::NotADirectory(remote) => remote@
                + " looks like an rclone remote, not a directory"@,
            Problem::NoRclone => "rclone is not on PATH, install it or point PASSBOX_REMOTE at a directory"@,
            Problem::RcloneFailed => "rclone bisync failed, try once with --resync"@,
            Problem::PassFailed(why) => why@,
            Problem::EntryIsNotText => "entry is not text"@,
            Problem::NoSecret(name) => "no secret named "@ + name@,
            Problem::MarkedNever(name) => name@ + " is marked never, refusing"@,
            Problem::NothingUnder(p) => "no secret named "@ + p@ + ", and nothing under "@ + p@ + "/"@,
            Problem::OnlyNever(names) => names@ + " matched only secrets marked never"@,
            Problem::Broker(why) => why@,
            Problem::Refused => "refused"@,
            Problem::NoValue => "broker sent no value"@,
            Problem::Helper(why) => why@,
            Problem::NoTool(name) => "no tool named "@ + name@,
            Problem::SecretRequired => "secret is required"@,
            Problem::CommandRequired => "command is required"@,
            Problem::NotARecipient(text, why) => text@ + " is not an age recipient: "@ + why@,
            Problem::OtherPlugin(text, name) => text@ + " is a "@ + name@ + " recipient, not a YubiKey one"@,
            Problem::PluginMissing => "age-plugin-yubikey is not on PATH, install it with `brew install age-plugin-yubikey`"@,
            Problem::InstallDeclined => "install it with `brew install age-plugin-yubikey` and run this again"@,
            Problem::InstallFailed => "brew could not install age-plugin-yubikey"@,
            Problem::ScdaemonHolds => "stop it with `gpgconf --kill scdaemon` and run this again"@,
            Problem::ScdaemonRuns => "scdaemon is still running, stop it with `gpgconf --kill scdaemon`"@,
            Problem::GenerateFailed => "age-plugin-yubikey --generate did not finish"@,
            Problem::ManagementKey(algorithm) => "the PIV management key is "@ + algorithm@
                + ", and age-plugin-yubikey can only use TDES.\nFirmware 5.7 sets "@ + algorithm@
                + MANAGEMENT_KEY_FIX@,
            Problem::SyncIsOff => "sync is off. No other machine could open this store, because the key is held by this Mac's Secure Enclave alone. Add a way in first: `passbox sync --enable` for a recovery passphrase, or `passbox yubikey-add` for a token."@,
            Problem::NotOneOrTwo(said) => "expected 1 or 2, got "@ + said@,
            Problem::NotOneToFour(said) => "expected 1 to 4, got "@ + said@,
            Problem::NothingGiven => "nothing given"@,
            Problem::NotAPair(pair) => "expected VAR=secret, got "@ + pair@,
            Problem::NoCommand => "no command to run"@,
            Problem::NoSocket => "the broker never opened its socket"@,
            Problem::ShortPassphrase => "use at least 12 characters, a copy of this leaves the Mac"@,
            Problem::PassphrasesDiffer => "passphrases do not match"@,
            Problem::AlreadyBound(wrap) => "this Mac is already bound, its wrap is "@ + wrap@,
            Problem::NoToken => "no YubiKey recipient found, is the token plugged in?"@,
            Problem::GenerateDeclined => "run `age-plugin-yubikey --generate` when ready, then try again"@,
            Problem::EmptyValue => "refusing to store an empty value"@,
            Problem::NoEntries(dir) => "no pass entries under "@ + dir@,
            Problem::NoEntryMatches(prefix, n) => "nothing in pass matches "@ + prefix@ + ", of "@ + n@ + " entries"@,
            Problem::ValuesDiffer => "values do not match"@,
            Problem::NoField(name, field) => name@ + " has no field "@ + field@,
            Problem::NoVersions(name) => "no earlier versions of "@ + name@,
            Problem::NoVersion(index) => "no version "@ + index@,
            Problem::NotASecret => "secret file is not valid json"@,
            Problem::Outside(why) => why@,
            Problem::UnknownMode(word) => "unknown mode "@ + word@
                + ", expected open, window, always or never"@,
        }
    }

    /// The words for this problem.
    pub fn message(&self) -> (r: String)
        ensures
            r@ == self.words(),
    {
        match self {
            Problem::NoRecipients => "no recipients, refusing to write an unreadable file".to_string(),
            Problem::Age(why) => why.clone(),
            Problem::BadKey(why) => crate::text::cat2("bad store key: ", why.as_str()),
            Problem::BadRecipient(why) => crate::text::cat2("bad recipient file: ", why.as_str()),
            Problem::WrongPassphrase(why) => crate::text::cat2("wrong passphrase: ", why.as_str()),
            Problem::WrapIsNotAKey => "the wrap is not a key".to_string(),
            Problem::RecoveryIsNotAKey => "recovery wrap is not a key".to_string(),
            Problem::BadLine => "the line is not hexadecimal".to_string(),
            Problem::HomeNotSet => "HOME is not set".to_string(),
            Problem::NoRecoveryWrap => "no recovery wrap".to_string(),
            Problem::AlreadyInitialised(dir) => crate::text::cat2(dir.as_str(), " is already initialised"),
            Problem::NoStore(dir) => crate::text::cat3("no store at ", dir.as_str(), ", run `passbox init`"),
            Problem::NotADirectory(remote) => crate::text::cat2(
                remote.as_str(),
                " looks like an rclone remote, not a directory",
            ),
            Problem::NoRclone => "rclone is not on PATH, install it or point PASSBOX_REMOTE at a directory".to_string(),
            Problem::RcloneFailed => "rclone bisync failed, try once with --resync".to_string(),
            Problem::PassFailed(why) => why.clone(),
            Problem::EntryIsNotText => "entry is not text".to_string(),
            Problem::NoSecret(name) => crate::text::cat2("no secret named ", name.as_str()),
            Problem::MarkedNever(name) => crate::text::cat2(name.as_str(), " is marked never, refusing"),
            Problem::NothingUnder(p) => crate::text::cat5(
                "no secret named ",
                p.as_str(),
                ", and nothing under ",
                p.as_str(),
                "/",
            ),
            Problem::OnlyNever(names) => crate::text::cat2(names.as_str(), " matched only secrets marked never"),
            Problem::Broker(why) => why.clone(),
            Problem::Refused => "refused".to_string(),
            Problem::NoValue => "broker sent no value".to_string(),
            Problem::Helper(why) => why.clone(),
            Problem::NoTool(name) => crate::text::cat2("no tool named ", name.as_str()),
            Problem::SecretRequired => "secret is required".to_string(),
            Problem::CommandRequired => "command is required".to_string(),
            Problem::NotARecipient(text, why) => crate::text::cat3(
                text.as_str(),
                " is not an age recipient: ",
                why.as_str(),
            ),
            Problem::OtherPlugin(text, name) => crate::text::cat4(
                text.as_str(),
                " is a ",
                name.as_str(),
                " recipient, not a YubiKey one",
            ),
            Problem::PluginMissing => "age-plugin-yubikey is not on PATH, install it with `brew install age-plugin-yubikey`".to_string(),
            Problem::InstallDeclined => "install it with `brew install age-plugin-yubikey` and run this again".to_string(),
            Problem::InstallFailed => "brew could not install age-plugin-yubikey".to_string(),
            Problem::ScdaemonHolds => "stop it with `gpgconf --kill scdaemon` and run this again".to_string(),
            Problem::ScdaemonRuns => "scdaemon is still running, stop it with `gpgconf --kill scdaemon`".to_string(),
            Problem::GenerateFailed => "age-plugin-yubikey --generate did not finish".to_string(),
            Problem::ManagementKey(algorithm) => crate::text::cat5(
                "the PIV management key is ",
                algorithm.as_str(),
                ", and age-plugin-yubikey can only use TDES.\nFirmware 5.7 sets ",
                algorithm.as_str(),
                MANAGEMENT_KEY_FIX,
            ),
            Problem::SyncIsOff => "sync is off. No other machine could open this store, because the key is held by this Mac's Secure Enclave alone. Add a way in first: `passbox sync --enable` for a recovery passphrase, or `passbox yubikey-add` for a token.".to_string(),
            Problem::NotOneOrTwo(said) => crate::text::cat2(
                "expected 1 or 2, got ",
                said.as_str(),
            ),
            Problem::NotOneToFour(said) => crate::text::cat2(
                "expected 1 to 4, got ",
                said.as_str(),
            ),
            Problem::NothingGiven => "nothing given".to_string(),
            Problem::NotAPair(pair) => crate::text::cat2(
                "expected VAR=secret, got ",
                pair.as_str(),
            ),
            Problem::NoCommand => "no command to run".to_string(),
            Problem::NoSocket => "the broker never opened its socket".to_string(),
            Problem::ShortPassphrase => "use at least 12 characters, a copy of this leaves the Mac".to_string(),
            Problem::PassphrasesDiffer => "passphrases do not match".to_string(),
            Problem::AlreadyBound(wrap) => crate::text::cat2(
                "this Mac is already bound, its wrap is ",
                wrap.as_str(),
            ),
            Problem::NoToken => "no YubiKey recipient found, is the token plugged in?".to_string(),
            Problem::GenerateDeclined => "run `age-plugin-yubikey --generate` when ready, then try again".to_string(),
            Problem::EmptyValue => "refusing to store an empty value".to_string(),
            Problem::NoEntries(dir) => crate::text::cat2(
                "no pass entries under ",
                dir.as_str(),
            ),
            Problem::NoEntryMatches(prefix, n) => crate::text::cat5(
                "nothing in pass matches ",
                prefix.as_str(),
                ", of ",
                n.as_str(),
                " entries",
            ),
            Problem::ValuesDiffer => "values do not match".to_string(),
            Problem::NoField(name, field) => crate::text::cat3(
                name.as_str(),
                " has no field ",
                field.as_str(),
            ),
            Problem::NoVersions(name) => crate::text::cat2(
                "no earlier versions of ",
                name.as_str(),
            ),
            Problem::NoVersion(index) => crate::text::cat2(
                "no version ",
                index.as_str(),
            ),
            Problem::NotASecret => "secret file is not valid json".to_string(),
            Problem::Outside(why) => why.clone(),
            Problem::UnknownMode(word) => crate::text::cat3(
                "unknown mode ",
                word.as_str(),
                ", expected open, window, always or never",
            ),
        }
    }
}

/// The text holds this, at some place.
pub open spec fn says(text: Seq<char>, what: Seq<char>) -> bool {
    exists|i: int|
        0 <= i && i + what.len() <= text.len() && #[trigger] text.subrange(i, i + what.len()) == what
}

proof fn lemma_says(a: Seq<char>, what: Seq<char>, b: Seq<char>)
    ensures
        says(a + what + b, what),
        says(what + b, what),
        says(a + what, what),
{
    let s = a + what + b;
    assert(s.subrange(a.len() as int, (a.len() + what.len()) as int) =~= what);
    let t = what + b;
    assert(t.subrange(0int, 0int + what.len()) =~= what);
    let u = a + what;
    assert(u.subrange(a.len() as int, (a.len() + what.len()) as int) =~= what);
}

/// A message names what it is about: whatever a problem was given to tell of stands in its words.
pub proof fn a_message_names_what_it_is_about(x: String, y: String)
    ensures
        says(Problem::NoSecret(x).words(), x@),
        says(Problem::MarkedNever(x).words(), x@),
        says(Problem::NothingUnder(x).words(), x@),
        says(Problem::OnlyNever(x).words(), x@),
        says(Problem::NoField(x, y).words(), x@),
        says(Problem::NoField(x, y).words(), y@),
        says(Problem::NoVersions(x).words(), x@),
        says(Problem::NoVersion(x).words(), x@),
        says(Problem::NoStore(x).words(), x@),
        says(Problem::AlreadyInitialised(x).words(), x@),
        says(Problem::AlreadyBound(x).words(), x@),
        says(Problem::NotADirectory(x).words(), x@),
        says(Problem::NoTool(x).words(), x@),
        says(Problem::NotAPair(x).words(), x@),
        says(Problem::NoEntries(x).words(), x@),
        says(Problem::NoEntryMatches(x, y).words(), x@),
        says(Problem::NoEntryMatches(x, y).words(), y@),
        says(Problem::NotARecipient(x, y).words(), x@),
        says(Problem::NotARecipient(x, y).words(), y@),
        says(Problem::OtherPlugin(x, y).words(), x@),
        says(Problem::OtherPlugin(x, y).words(), y@),
        says(Problem::NotOneOrTwo(x).words(), x@),
        says(Problem::NotOneToFour(x).words(), x@),
        says(Problem::UnknownMode(x).words(), x@),
        says(Problem::ManagementKey(x).words(), x@),
        says(Problem::BadKey(x).words(), x@),
        says(Problem::BadRecipient(x).words(), x@),
        says(Problem::WrongPassphrase(x).words(), x@),
        Problem::Age(x).words() == x@,
        Problem::PassFailed(x).words() == x@,
        Problem::Broker(x).words() == x@,
        Problem::Helper(x).words() == x@,
        Problem::Outside(x).words() == x@,
{
    let e = Seq::<char>::empty();
    lemma_says("no secret named "@, x@, e);
    lemma_says(e, x@, " is marked never, refusing"@);
    assert(Problem::NothingUnder(x).words() =~= "no secret named "@ + x@ + (", and nothing under "@ + x@
        + "/"@));
    lemma_says("no secret named "@, x@, ", and nothing under "@ + x@ + "/"@);
    lemma_says(e, x@, " matched only secrets marked never"@);
    assert(Problem::NoField(x, y).words() =~= x@ + (" has no field "@ + y@));
    lemma_says(e, x@, " has no field "@ + y@);
    lemma_says(x@ + " has no field "@, y@, e);
    lemma_says("no earlier versions of "@, x@, e);
    lemma_says("no version "@, x@, e);
    lemma_says("no store at "@, x@, ", run `passbox init`"@);
    lemma_says(e, x@, " is already initialised"@);
    lemma_says("this Mac is already bound, its wrap is "@, x@, e);
    lemma_says(e, x@, " looks like an rclone remote, not a directory"@);
    lemma_says("no tool named "@, x@, e);
    lemma_says("expected VAR=secret, got "@, x@, e);
    lemma_says("no pass entries under "@, x@, e);
    assert(Problem::NoEntryMatches(x, y).words() =~= "nothing in pass matches "@ + x@ + (", of "@ + y@
        + " entries"@));
    lemma_says("nothing in pass matches "@, x@, ", of "@ + y@ + " entries"@);
    lemma_says("nothing in pass matches "@ + x@ + ", of "@, y@, " entries"@);
    assert(Problem::NotARecipient(x, y).words() =~= x@ + (" is not an age recipient: "@ + y@));
    lemma_says(e, x@, " is not an age recipient: "@ + y@);
    lemma_says(x@ + " is not an age recipient: "@, y@, e);
    assert(Problem::OtherPlugin(x, y).words() =~= x@ + (" is a "@ + y@
        + " recipient, not a YubiKey one"@));
    lemma_says(e, x@, " is a "@ + y@ + " recipient, not a YubiKey one"@);
    lemma_says(x@ + " is a "@, y@, " recipient, not a YubiKey one"@);
    lemma_says("expected 1 or 2, got "@, x@, e);
    lemma_says("expected 1 to 4, got "@, x@, e);
    lemma_says("unknown mode "@, x@, ", expected open, window, always or never"@);
    let tail = ", and age-plugin-yubikey can only use TDES.\nFirmware 5.7 sets "@ + x@
        + MANAGEMENT_KEY_FIX@;
    assert(Problem::ManagementKey(x).words() =~= "the PIV management key is "@ + x@ + tail);
    lemma_says("the PIV management key is "@, x@, tail);
    lemma_says("bad store key: "@, x@, e);
    lemma_says("bad recipient file: "@, x@, e);
    lemma_says("wrong passphrase: "@, x@, e);
}

} // verus!

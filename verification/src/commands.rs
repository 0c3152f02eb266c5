//! What each command decides, given what it was told and what it found.

use crate::disk::{
    acts, add_steps, append_steps, lemma_names_a_file, lemma_names_add, name_of, names_after,
    parent, parent_of, write_acts, write_private, Act, Listing, Step,
};
use crate::history::{keep_acts, stamped, untomb_acts, versions_of};
use crate::import::{select, selection};
use crate::index::index_add_acts;
use crate::number::{decimal, parse, parse_up_to, to_decimal};
use crate::lookup::{first_failure, names_of};
use crate::order::{in_order, sort_dedup, sorted};
use crate::outside::{lower, to_lower, work_factor_ok};
use crate::problem::Problem;
use crate::promises::plain_id;
use crate::store::{
    secret_file, secret_name, tomb_file, tomb_name, version_dir, Mode, Secret, Store,
    DEFAULT_WINDOW_SECS,
};
use crate::sync::{Kind, Report};
use crate::table::{deep, Table};
use crate::text::{
    cat4, cat5, lines, same, seen, split_at_first, split_once, texts, to_chars, to_lines, trim,
    trim_end_of, trimmed, trimmed_end_of,
};
use crate::tree::{render, tree, ways_of};
use crate::yubikey::{agrees, is_yes};
use vstd::prelude::*;
use vstd::string::*;
use vstd::utf8::encode_utf8;

verus! {

/// The fewest characters of a passphrase, since a copy of what it opens leaves the Mac.
pub const MIN_PASSPHRASE: usize = 12;

// ---------------------------------------------------------------------------------------------
// Git

/// What git leaves alone: it carries the encrypted secrets and nothing that opens them. The Enclave
/// wraps are useless off the Mac that made them, so they stay out, and the index never leaves, nor
/// does the destination, since each machine picks its own.
pub const GITIGNORE: &'static str =
    "broker.sock\nstore/.versions/\nwraps/se-*.json\ngrants-*.age\nnames\nremote\n";

/// What to write to the store's `.gitignore`, where there is none yet.
pub fn ensure_store_gitignore(listing: &Listing) -> (r: Option<String>)
    ensures
        match r {
            Some(text) => !listing@.contains(".gitignore"@) && text@ == GITIGNORE@,
            None => listing@.contains(".gitignore"@),
        },
{
    if listing.has(".gitignore") {
        None
    } else {
        Some(GITIGNORE.to_string())
    }
}

/// The commands that keep a history alongside the copy. A subject naming an entry would undo the
/// encrypted names.
pub open spec fn push_commands() -> Seq<Seq<Seq<char>>> {
    seq![
        seq!["add"@, "-A"@],
        seq!["commit"@, "-m"@, "update"@],
        seq!["push"@],
    ]
}

/// The commands that keep a history alongside the copy, where the store is a repository.
pub fn git_push(repository: bool) -> (r: Vec<Vec<String>>)
    ensures
        r@.map_values(|c: Vec<String>| texts(c@)) == if repository {
            push_commands()
        } else {
            Seq::empty()
        },
{
    let mut r: Vec<Vec<String>> = Vec::new();
    if repository {
        let mut a: Vec<String> = Vec::new();
        a.push("add".to_string());
        a.push("-A".to_string());
        let mut b: Vec<String> = Vec::new();
        b.push("commit".to_string());
        b.push("-m".to_string());
        b.push("update".to_string());
        let mut c: Vec<String> = Vec::new();
        c.push("push".to_string());
        assert(texts(a@) =~= seq!["add"@, "-A"@]);
        assert(texts(b@) =~= seq!["commit"@, "-m"@, "update"@]);
        assert(texts(c@) =~= seq!["push"@]);
        r.push(a);
        r.push(b);
        r.push(c);
    }
    assert(r@.map_values(|c: Vec<String>| texts(c@)) =~= if repository {
        push_commands()
    } else {
        Seq::empty()
    });
    r
}

// ---------------------------------------------------------------------------------------------
// Syncing

/// Whether a sync can go ahead: turning it on always can. An empty directory is a machine joining,
/// and the wrap it needs arrives with the pull.
pub fn check_sync(enable: bool, initialised: bool, portable: bool) -> (r: Result<(), Problem>)
    ensures
        match r {
            Ok(_) => enable || !initialised || portable,
            Err(Problem::SyncIsOff) => !enable && initialised && !portable,
            Err(_) => false,
        },
{
    if !enable && initialised && !portable {
        Err(Problem::SyncIsOff)
    } else {
        Ok(())
    }
}

/// Whether a sync may have brought names this machine has never seen. git only pushes.
pub fn may_have_pulled(kind: Kind, pulled: usize) -> (r: bool)
    ensures
        r == match kind {
            Kind::Git => false,
            Kind::Rclone => true,
            Kind::Directory => pulled > 0,
        },
{
    match kind {
        Kind::Git => false,
        Kind::Rclone => true,
        Kind::Directory => pulled > 0,
    }
}

/// What a sync with a directory did, in words.
pub fn sync_line(report: Report, remote: &str) -> (r: String)
    ensures
        r@ == decimal(report.pushed as int) + " sent, "@ + decimal(report.pulled as int)
            + " received, "@ + remote@,
{
    let sent = to_decimal(report.pushed as u64);
    let got = to_decimal(report.pulled as u64);
    cat5(sent.as_str(), " sent, ", got.as_str(), " received, ", remote)
}

/// How a copy is opened elsewhere.
#[derive(Clone, Copy, PartialEq, Eq, Debug, Structural)]
pub enum WayIn {
    Yubikey,
    Passphrase,
}

/// How a copy is opened elsewhere, by the answer.
pub fn read_way(answer: &str) -> (r: Result<WayIn, Problem>)
    ensures
        match r {
            Ok(WayIn::Yubikey) => trim(answer@) == "1"@,
            Ok(WayIn::Passphrase) => trim(answer@) == "2"@,
            Err(Problem::NotOneOrTwo(said)) => said@ == trim(answer@) && said@ != "1"@ && said@
                != "2"@,
            Err(_) => false,
        },
{
    let said = trimmed(answer);
    if same(said.as_str(), "1") {
        proof {
            lemma_digits_differ();
        }
        Ok(WayIn::Yubikey)
    } else if same(said.as_str(), "2") {
        Ok(WayIn::Passphrase)
    } else {
        Err(Problem::NotOneOrTwo(said))
    }
}

proof fn lemma_digits_differ()
    ensures
        "1"@ != "2"@,
{
    reveal_strlit("1");
    reveal_strlit("2");
    assert("1"@[0] != "2"@[0]);
}

/// Where a copy goes.
#[derive(Clone, Copy, PartialEq, Eq, Debug, Structural)]
pub enum Destination {
    ICloud,
    Directory,
    Git,
    Rclone,
}

impl Destination {
    /// What is typed for it.
    pub open spec fn digit(self) -> Seq<char> {
        match self {
            Destination::ICloud => "1"@,
            Destination::Directory => "2"@,
            Destination::Git => "3"@,
            Destination::Rclone => "4"@,
        }
    }
}

/// Where a copy goes, by the answer.
pub fn read_destination(answer: &str) -> (r: Result<Destination, Problem>)
    ensures
        match r {
            Ok(d) => trim(answer@) == d.digit(),
            Err(Problem::NotOneToFour(said)) => said@ == trim(answer@) && forall|d: Destination|
                said@ != #[trigger] d.digit(),
            Err(_) => false,
        },
{
    let said = trimmed(answer);
    if same(said.as_str(), "1") {
        Ok(Destination::ICloud)
    } else if same(said.as_str(), "2") {
        Ok(Destination::Directory)
    } else if same(said.as_str(), "3") {
        Ok(Destination::Git)
    } else if same(said.as_str(), "4") {
        Ok(Destination::Rclone)
    } else {
        Err(Problem::NotOneToFour(said))
    }
}

/// Whether a destination that was chosen before is to be changed.
pub fn changes_remote(answer: &str) -> (r: bool)
    ensures
        r == agrees(answer@),
{
    is_yes(answer)
}

/// What was typed at a prompt, which cannot be nothing.
pub fn prompt(answer: &str) -> (r: Result<String, Problem>)
    ensures
        match r {
            Ok(text) => text@ == trim(answer@) && text@.len() > 0,
            Err(Problem::NothingGiven) => trim(answer@).len() == 0,
            Err(_) => false,
        },
{
    let text = trimmed(answer);
    if to_chars(text.as_str()).len() == 0 {
        return Err(Problem::NothingGiven);
    }
    Ok(text)
}

/// Remember a destination, so a later bare `sync` cannot surprise anybody.
pub fn remember_remote(remote: &str) -> (r: Vec<Step>)
    ensures
        acts(r@) == write_acts("remote"@, encode_utf8(trim(remote@))),
{
    proof {
        reveal_strlit("remote");
        assert("remote"@ =~= Seq::<char>::empty() + "remote"@);
        lemma_names_a_file(Seq::empty(), "remote"@);
    }
    let text = trimmed(remote);
    write_private("remote", text.as_str().as_bytes())
}

/// A destination that was remembered is the one that is read back.
pub proof fn a_chosen_remote_outlives_the_shell(remote: Seq<char>)
    requires
        trim(remote).len() > 0,
    ensures
        crate::sync::chosen_remote(Some(trim(remote))) == Some(trim(remote)),
{
    crate::text::lemma_trim(remote);
}

// ---------------------------------------------------------------------------------------------
// Who asks, and which way

/// Who asks. It is advisory, since the broker cannot verify it, and the prompt shows it beside the
/// secret's name.
pub fn agent(set: Option<String>) -> (r: String)
    ensures
        r@ == match set {
            Some(name) => name@,
            None => "passbox"@,
        },
{
    match set {
        Some(name) => name,
        None => "passbox".to_string(),
    }
}

/// Whether a read goes through the broker, which owns windows and the audit log. Without an Enclave
/// there is nothing to prompt with, and where nobody is at the keyboard there is no finger.
pub fn through_broker(headless: bool, has_se_wrap: bool) -> (r: bool)
    ensures
        r == (!headless && has_se_wrap),
{
    !headless && has_se_wrap
}

/// What reading a secret comes to, for a person or for an agent.
pub open spec fn reads_as(
    name: Seq<char>,
    found: Option<Secret>,
    for_agent: bool,
    r: Result<String, Problem>,
) -> bool {
    match r {
        Ok(value) => found matches Some(secret) && value@ == secret.value@ && !(for_agent
            && secret.mode == Mode::Never),
        Err(Problem::NoSecret(n)) => found is None && n@ == name,
        Err(Problem::MarkedNever(n)) => found matches Some(secret) && for_agent && secret.mode
            == Mode::Never && n@ == name,
        Err(_) => false,
    }
}

/// What is released where the passphrase is all that guards it: the value, but for an agent not one
/// marked `never`.
pub fn read_secret_as(name: &str, found: Option<Secret>, for_agent: bool) -> (r: Result<
    String,
    Problem,
>)
    ensures
        reads_as(name@, found, for_agent, r),
{
    match found {
        Some(secret) => {
            let mut secret = secret;
            if for_agent && secret.mode == Mode::Never {
                secret.wipe();
                return Err(Problem::MarkedNever(name.to_string()));
            }
            let value = secret.value.clone();
            secret.wipe();
            Ok(value)
        },
        None => Err(Problem::NoSecret(name.to_string())),
    }
}

/// What an agent is handed where the passphrase is all that guards it.
pub fn agent_read_secret(name: &str, found: Option<Secret>) -> (r: Result<String, Problem>)
    ensures
        match r {
            Ok(value) => found matches Some(secret) && value@ == secret.value@ && secret.mode
                != Mode::Never,
            Err(Problem::NoSecret(n)) => found is None && n@ == name@,
            Err(Problem::MarkedNever(n)) => found matches Some(secret) && secret.mode == Mode::Never
                && n@ == name@,
            Err(_) => false,
        },
{
    read_secret_as(name, found, true)
}

/// The names that an agent is shown: the broker's answer, one to a line, or where there is no
/// broker those of all that was loaded.
pub fn agent_list_names(
    store: &Store,
    answer: Option<&str>,
    loaded: Vec<Result<Secret, Problem>>,
) -> (r: Result<Vec<String>, Problem>)
    ensures
        match answer {
            Some(text) => r matches Ok(names) && texts(names@) == lines(text@),
            None => match r {
                Ok(names) => {
                    &&& first_failure(loaded@) == loaded@.len()
                    &&& sorted(texts(names@))
                    &&& texts(names@).to_multiset() == names_of(loaded@).to_multiset()
                },
                Err(e) => first_failure(loaded@) < loaded@.len() && loaded@[first_failure(
                    loaded@,
                )] == Err::<Secret, Problem>(e),
            },
        },
{
    match answer {
        Some(text) => Ok(to_lines(text)),
        None => store.names(loaded),
    }
}

/// A variable and the secret it is to hold.
pub fn split_env(pair: &str) -> (r: Result<(String, String), Problem>)
    ensures
        match r {
            Ok((var, name)) => split_once(pair@, '=') == Some((var@, name@)),
            Err(Problem::NotAPair(p)) => split_once(pair@, '=') is None && p@ == pair@,
            Err(_) => false,
        },
{
    match split_at_first(pair, '=') {
        Some(parts) => Ok(parts),
        None => Err(Problem::NotAPair(pair.to_string())),
    }
}

/// A program and its arguments.
pub fn split_command(command: &Vec<String>) -> (r: Result<(String, Vec<String>), Problem>)
    ensures
        match r {
            Ok((program, args)) => command@.len() > 0 && program@ == command@[0]@ && texts(args@)
                == texts(command@).drop_first(),
            Err(Problem::NoCommand) => command@.len() == 0,
            Err(_) => false,
        },
{
    if command.len() == 0 {
        return Err(Problem::NoCommand);
    }
    let mut args: Vec<String> = Vec::new();
    let mut i: usize = 1;
    while i < command.len()
        invariant
            1 <= i <= command@.len(),
            texts(args@) == texts(command@).subrange(1, i as int),
        decreases command@.len() - i,
    {
        let ghost before = texts(args@);
        args.push(command[i].clone());
        assert(texts(args@) =~= before.push(command@[i as int]@));
        assert(texts(args@) =~= texts(command@).subrange(1, i + 1));
        i = i + 1;
    }
    assert(texts(command@).subrange(1, i as int) =~= texts(command@).drop_first());
    Ok((command[0].clone(), args))
}

/// How a child gets its secret: in a variable, with nothing on stdin, or else on stdin.
pub enum Handover {
    Variable(String),
    Stdin,
}

/// How a child that an agent runs gets its secret.
pub fn run_child(env_var: Option<String>) -> (r: Handover)
    ensures
        r == match env_var {
            Some(var) => Handover::Variable(var),
            None => Handover::Stdin,
        },
{
    match env_var {
        Some(var) => Handover::Variable(var),
        None => Handover::Stdin,
    }
}

/// How this program ends after a child did: a child that was killed counts as one that failed.
pub fn exit_code(code: Option<i32>) -> (r: i32)
    ensures
        r == match code {
            Some(c) => c,
            None => 1,
        },
{
    match code {
        Some(c) => c,
        None => 1,
    }
}

// ---------------------------------------------------------------------------------------------
// The audit log

/// The lines that hold anything.
pub open spec fn records_in(text: Seq<Seq<char>>) -> Seq<Seq<char>> {
    text.filter(|l: Seq<char>| trim(l).len() > 0)
}

/// The last of the records that stand in an audit log.
pub open spec fn last_records(text: Seq<char>, tail: int, r: Seq<Seq<char>>) -> bool {
    let all = records_in(lines(text));
    r == if tail < all.len() {
        all.skip(all.len() - tail)
    } else {
        all
    }
}

/// The last records of the audit log, newest last.
pub fn audit(text: &str, tail: usize) -> (r: Vec<String>)
    ensures
        last_records(text@, tail as int, texts(r@)),
{
    let read = to_lines(text);
    let ghost given = texts(read@);
    let ghost keep = |l: Seq<char>| trim(l).len() > 0;
    let mut all: Vec<String> = Vec::new();
    let mut i: usize = 0;
    proof {
        reveal(Seq::filter);
        assert(texts(all@) =~= given.take(0).filter(keep));
    }
    while i < read.len()
        invariant
            i <= read@.len(),
            given == texts(read@),
            keep == (|l: Seq<char>| trim(l).len() > 0),
            texts(all@) == given.take(i as int).filter(keep),
        decreases read@.len() - i,
    {
        let ghost before = texts(all@);
        if to_chars(trimmed(read[i].as_str()).as_str()).len() > 0 {
            all.push(read[i].clone());
            assert(texts(all@) =~= before.push(read@[i as int]@));
        }
        proof {
            reveal(Seq::filter);
            assert(given.take(i + 1).drop_last() =~= given.take(i as int));
            assert(given.take(i + 1).last() == read@[i as int]@);
        }
        i = i + 1;
    }
    assert(given.take(i as int) =~= given);
    let from: usize = if tail < all.len() {
        all.len() - tail
    } else {
        0
    };
    let ghost whole = texts(all@);
    let mut out: Vec<String> = Vec::new();
    let mut j: usize = from;
    while j < all.len()
        invariant
            from <= j <= all@.len(),
            whole == texts(all@),
            texts(out@) == whole.subrange(from as int, j as int),
        decreases all@.len() - j,
    {
        let ghost before = texts(out@);
        out.push(all[j].clone());
        assert(texts(out@) =~= before.push(all@[j as int]@));
        assert(texts(out@) =~= whole.subrange(from as int, j + 1));
        j = j + 1;
    }
    assert(whole.subrange(from as int, j as int) =~= whole.skip(from as int));
    assert(whole.skip(0) =~= whole);
    out
}

// ---------------------------------------------------------------------------------------------
// Keys and passphrases

/// Whether a new store needs a passphrase: where the Enclave did not take the key, nothing else
/// holds it, and where nobody is at the keyboard a fingerprint is no use.
pub fn init(headless: bool, bound: bool) -> (r: bool)
    ensures
        r == (headless || !bound),
{
    headless || !bound
}

/// Whether a passphrase will do.
pub open spec fn takes_passphrase(pass: Seq<char>, r: Result<(), Problem>) -> bool {
    match r {
        Ok(_) => pass.len() >= MIN_PASSPHRASE,
        Err(Problem::ShortPassphrase) => pass.len() < MIN_PASSPHRASE,
        Err(_) => false,
    }
}

/// Whether a passphrase is long enough, counted in characters.
pub fn new_passphrase(pass: &str) -> (r: Result<(), Problem>)
    ensures
        takes_passphrase(pass@, r),
{
    if to_chars(pass).len() < MIN_PASSPHRASE {
        Err(Problem::ShortPassphrase)
    } else {
        Ok(())
    }
}

/// Whether a passphrase was typed the same twice.
pub fn confirm_passphrase(pass: &str, again: &str) -> (r: Result<(), Problem>)
    ensures
        match r {
            Ok(_) => pass@ == again@,
            Err(Problem::PassphrasesDiffer) => pass@ != again@,
            Err(_) => false,
        },
{
    if same(pass, again) {
        Ok(())
    } else {
        Err(Problem::PassphrasesDiffer)
    }
}

/// The work factor to weaken the key derivation to. Only a debug build will, so a release binary
/// cannot be talked into it.
pub fn test_work_factor(debug: bool, set: Option<String>) -> (r: Option<u8>)
    ensures
        r == if debug {
            match set {
                Some(text) => match parse(text@, u8::MAX as int) {
                    Some(n) => Some(n as u8),
                    None => None,
                },
                None => None,
            }
        } else {
            None
        },
{
    if !debug {
        return None;
    }
    match set {
        Some(text) => match parse_up_to(text.as_str(), 255) {
            Some(n) => {
                proof {
                    crate::number::lemma_parse_bounds(text@, 255);
                }
                Some(n as u8)
            },
            None => None,
        },
        None => None,
    }
}

/// Whether age takes a work factor.
pub fn work_factor_fits(log_n: Option<u8>) -> (r: bool)
    ensures
        r == work_factor_ok(log_n),
{
    match log_n {
        Some(n) => n > 0 && n as u32 + 12 <= usize::BITS,
        None => true,
    }
}

/// How this machine gets at the key: by the token where there is one to use, and else by the
/// passphrase.
pub open spec fn binds(
    bound: Option<String>,
    has_yubikey_wrap: bool,
    plugin: bool,
    r: Result<WayIn, Problem>,
) -> bool {
    match r {
        Ok(WayIn::Yubikey) => bound is None && has_yubikey_wrap && plugin,
        Ok(WayIn::Passphrase) => bound is None && !(has_yubikey_wrap && plugin),
        Err(Problem::AlreadyBound(wrap)) => bound == Some(wrap),
        Err(_) => false,
    }
}

/// Whether this machine can be bound, and by which way in. A Mac that is bound already is not bound
/// again.
pub fn machine_add(bound: Option<String>, has_yubikey_wrap: bool, plugin: bool) -> (r: Result<
    WayIn,
    Problem,
>)
    ensures
        binds(bound, has_yubikey_wrap, plugin, r),
{
    match bound {
        Some(wrap) => Err(Problem::AlreadyBound(wrap)),
        None => if has_yubikey_wrap && plugin {
            Ok(WayIn::Yubikey)
        } else {
            Ok(WayIn::Passphrase)
        },
    }
}

/// The recipient to wrap to: the first on the token that is plugged in.
pub fn first_recipient(found: &Vec<String>) -> (r: Result<String, Problem>)
    ensures
        match r {
            Ok(recipient) => found@.len() > 0 && recipient@ == found@[0]@,
            Err(Problem::NoToken) => found@.len() == 0,
            Err(_) => false,
        },
{
    if found.len() == 0 {
        return Err(Problem::NoToken);
    }
    Ok(found[0].clone())
}

/// Whether to provision a token, by the answer.
pub fn accept_generate(answer: &str) -> (r: Result<(), Problem>)
    ensures
        match r {
            Ok(_) => agrees(answer@),
            Err(Problem::GenerateDeclined) => !agrees(answer@),
            Err(_) => false,
        },
{
    if is_yes(answer) {
        Ok(())
    } else {
        Err(Problem::GenerateDeclined)
    }
}

// ---------------------------------------------------------------------------------------------
// Writing secrets

/// What adding a value makes of it. Adding over a secret keeps its place, and whatever is not said.
pub open spec fn adds(
    name: Seq<char>,
    value: Seq<char>,
    mode: Option<Mode>,
    window: Option<u64>,
    existing: Option<(String, Secret)>,
    fresh: Seq<char>,
    now: u64,
    r: Result<(String, Secret), Problem>,
) -> bool {
    match r {
        Ok((id, secret)) => {
            &&& value.len() > 0
            &&& id@ == match existing {
                Some((old, _)) => old@,
                None => fresh,
            }
            &&& secret.name@ == name
            &&& secret.value@ == value
            &&& secret.updated == now
            &&& secret.mode == match mode {
                Some(m) => m,
                None => match existing {
                    Some((_, old)) => old.mode,
                    None => Mode::Window,
                },
            }
            &&& secret.window_secs == match window {
                Some(w) => w,
                None => match existing {
                    Some((_, old)) => old.window_secs,
                    None => DEFAULT_WINDOW_SECS,
                },
            }
            &&& secret.lease_secs == match existing {
                Some((_, old)) => old.lease_secs,
                None => 0,
            }
            &&& secret.created == match existing {
                Some((_, old)) => old.created,
                None => now,
            }
        },
        Err(Problem::EmptyValue) => value.len() == 0,
        Err(_) => false,
    }
}

/// The secret that a new value makes, and the id it goes under: a secret that is replaced keeps its
/// id, and a new one gets the fresh one. A new value must never widen access, so what is not named
/// stays as the secret already had it.
pub fn add(
    name: &str,
    value: &str,
    mode: Option<Mode>,
    window: Option<u64>,
    existing: Option<(String, Secret)>,
    fresh: String,
    now: u64,
) -> (r: Result<(String, Secret), Problem>)
    ensures
        adds(name@, value@, mode, window, existing, fresh@, now, r),
{
    if to_chars(value).len() == 0 {
        return Err(Problem::EmptyValue);
    }
    let (id, old_mode, old_window, old_lease, created) = match existing {
        Some((id, old)) => {
            let mut old = old;
            let kept = (id, old.mode, old.window_secs, old.lease_secs, old.created);
            old.wipe();
            kept
        },
        None => (fresh, Mode::Window, DEFAULT_WINDOW_SECS, 0, now),
    };
    let secret = Secret {
        name: name.to_string(),
        mode: match mode {
            Some(m) => m,
            None => old_mode,
        },
        window_secs: match window {
            Some(w) => w,
            None => old_window,
        },
        lease_secs: old_lease,
        value: value.to_string(),
        created,
        updated: now,
    };
    Ok((id, secret))
}

/// What a change of mode makes of a secret: the value stays, and so does what is not said.
pub open spec fn sets_mode(
    secret: Secret,
    mode: Mode,
    window: Option<u64>,
    lease: Option<u64>,
    now: u64,
    r: Secret,
) -> bool {
    &&& r.name == secret.name
    &&& r.value == secret.value
    &&& r.created == secret.created
    &&& r.mode == mode
    &&& r.window_secs == match window {
        Some(w) => w,
        None => secret.window_secs,
    }
    &&& r.lease_secs == match lease {
        Some(l) => l,
        None => secret.lease_secs,
    }
    &&& r.updated == now
}

/// The secret with another mode, and with another window and lease where they are named.
pub fn set_mode(
    secret: Secret,
    mode: Mode,
    window: Option<u64>,
    lease: Option<u64>,
    now: u64,
) -> (r: Secret)
    ensures
        sets_mode(secret, mode, window, lease, now, r),
{
    let mut secret = secret;
    secret.mode = mode;
    if let Some(w) = window {
        secret.window_secs = w;
    }
    if let Some(l) = lease {
        secret.lease_secs = l;
    }
    secret.updated = now;
    secret
}

/// Which secrets a name stands for: those it selects, in order, each once.
pub open spec fn aims_at(
    all: Seq<Seq<char>>,
    name: Seq<char>,
    r: Result<Vec<String>, Problem>,
) -> bool {
    match r {
        Ok(picked) => {
            &&& texts(picked@) == in_order(selection(all, Some(name)).to_set())
            &&& selection(all, Some(name)).len() > 0
        },
        Err(Problem::NoSecret(n)) => selection(all, Some(name)).len() == 0 && n@ == name,
        Err(_) => false,
    }
}

/// The secrets that a name or a namespace means, each once, in order.
pub fn targets(all: &Vec<String>, name: &str) -> (r: Result<Vec<String>, Problem>)
    ensures
        aims_at(texts(all@), name@, r),
{
    let picked = select(all, Some(name));
    assert(texts(picked@).len() == picked@.len());
    if picked.len() == 0 {
        return Err(Problem::NoSecret(name.to_string()));
    }
    Ok(sort_dedup(&picked))
}

/// Which entries come across, and why none do.
pub open spec fn imports(
    all: Seq<Seq<char>>,
    prefix: Option<Seq<char>>,
    dir: Seq<char>,
    r: Result<Vec<String>, Problem>,
) -> bool {
    match r {
        Ok(picked) => texts(picked@) == selection(all, prefix) && picked@.len() > 0,
        Err(Problem::NoEntries(d)) => all.len() == 0 && d@ == dir,
        Err(Problem::NoEntryMatches(p, n)) => {
            &&& all.len() > 0
            &&& selection(all, prefix).len() == 0
            &&& p@ == match prefix {
                Some(text) => text,
                None => "*"@,
            }
            &&& n@ == decimal(all.len() as int)
        },
        Err(_) => false,
    }
}

/// The entries of `pass` to bring across.
pub fn import_pass(all: &Vec<String>, prefix: Option<&str>, dir: &str) -> (r: Result<
    Vec<String>,
    Problem,
>)
    ensures
        imports(texts(all@), seen(prefix), dir@, r),
{
    if all.len() == 0 {
        return Err(Problem::NoEntries(dir.to_string()));
    }
    let picked = select(all, prefix);
    assert(texts(picked@).len() == picked@.len());
    if picked.len() == 0 {
        let p = match prefix {
            Some(text) => text.to_string(),
            None => "*".to_string(),
        };
        return Err(Problem::NoEntryMatches(p, to_decimal(all.len() as u64)));
    }
    Ok(picked)
}

/// What was stored, in words.
pub fn stored_line(name: &str, mode: Mode) -> (r: String)
    ensures
        r@ == "stored "@ + name@ + " as "@ + mode.word(),
{
    let word = mode.to_text();
    cat4("stored ", name, " as ", word.as_str())
}

/// How much of `pass` is brought across, in words.
pub fn importing_line(picked: usize, total: usize) -> (r: String)
    ensures
        r@ == "importing "@ + decimal(picked as int) + " of "@ + decimal(total as int)
            + " entries"@,
{
    let a = to_decimal(picked as u64);
    let b = to_decimal(total as u64);
    cat5("importing ", a.as_str(), " of ", b.as_str(), " entries")
}

/// What came across, in words.
pub fn imported_line(report: crate::import::Report) -> (r: String)
    ensures
        r@ == "imported "@ + decimal(report.imported as int) + ", skipped "@ + decimal(
            report.skipped as int,
        ),
{
    let a = to_decimal(report.imported as u64);
    let b = to_decimal(report.skipped as u64);
    cat4("imported ", a.as_str(), ", skipped ", b.as_str())
}

/// A value that was typed twice.
pub fn typed_value(value: String, again: &str) -> (r: Result<String, Problem>)
    ensures
        match r {
            Ok(v) => v == value && value@ == again@,
            Err(Problem::ValuesDiffer) => value@ != again@,
            Err(_) => false,
        },
{
    if same(value.as_str(), again) {
        Ok(value)
    } else {
        Err(Problem::ValuesDiffer)
    }
}

/// What is stored of what was piped in.
pub open spec fn piped_value(piped: Seq<char>) -> Seq<char> {
    trim_end_of(piped, '\n')
}

/// A value that was piped in, without the line breaks at its end.
pub fn read_value(piped: &str) -> (r: String)
    ensures
        r@ == piped_value(piped@),
{
    trimmed_end_of(piped, '\n')
}

// ---------------------------------------------------------------------------------------------
// Reading secrets

/// The fields with one more line: `key: value`, where neither is empty. The key is in lower case.
pub open spec fn with_field(m: Map<Seq<char>, Seq<char>>, line: Seq<char>) -> Map<
    Seq<char>,
    Seq<char>,
> {
    match split_once(line, ':') {
        Some((key, v)) => if lower(trim(key)).len() > 0 && trim(v).len() > 0 {
            m.insert(lower(trim(key)), trim(v))
        } else {
            m
        },
        None => m,
    }
}

/// The fields with some more lines.
pub open spec fn with_fields(m: Map<Seq<char>, Seq<char>>, more: Seq<Seq<char>>) -> Map<
    Seq<char>,
    Seq<char>,
>
    decreases more.len(),
{
    if more.len() == 0 {
        m
    } else {
        with_field(with_fields(m, more.drop_last()), more.last())
    }
}

/// The fields of an entry: the first line is the password, whatever later lines say, and later
/// `key: value` lines are fields, a later one replacing an earlier one of the same name.
pub open spec fn fields_of(value: Seq<char>) -> Map<Seq<char>, Seq<char>> {
    let text = lines(value);
    if text.len() == 0 {
        Map::empty()
    } else {
        with_fields(Map::empty(), text.drop_first()).insert("password"@, text[0])
    }
}

/// The fields of an entry. Reading one hands a caller the password without the note beside it.
pub fn fields(value: &str) -> (r: Table<String>)
    ensures
        deep(r@) == fields_of(value@),
{
    let text = to_lines(value);
    let ghost all = texts(text@);
    let mut out: Table<String> = Table::new();
    if text.len() == 0 {
        assert(deep(out@) =~= Map::<Seq<char>, Seq<char>>::empty());
        return out;
    }
    let ghost none = deep(out@);
    assert(none =~= Map::<Seq<char>, Seq<char>>::empty());
    let ghost rest = all.drop_first();
    let mut i: usize = 1;
    assert(rest.take(0) =~= Seq::<Seq<char>>::empty());
    while i < text.len()
        invariant
            1 <= i <= text@.len(),
            all == texts(text@),
            rest == all.drop_first(),
            deep(out@) == with_fields(none, rest.take(i - 1)),
        decreases text@.len() - i,
    {
        proof {
            assert(rest.take(i as int).drop_last() =~= rest.take(i - 1));
            assert(rest.take(i as int).last() == text@[i as int]@);
        }
        let ghost before = deep(out@);
        if let Some((key, v)) = split_at_first(text[i].as_str(), ':') {
            let key = to_lower(trimmed(key.as_str()).as_str());
            let v = trimmed(v.as_str());
            if to_chars(key.as_str()).len() > 0 && to_chars(v.as_str()).len() > 0 {
                out.insert(key.as_str(), v);
                assert(deep(out@) =~= before.insert(key@, v@));
            }
        }
        i = i + 1;
    }
    assert(rest.take(i - 1) =~= rest);
    let ghost later = deep(out@);
    out.insert("password", text[0].clone());
    assert(deep(out@) =~= later.insert("password"@, all[0]));
    out
}

/// The first line of an entry is its password, whatever the later lines say.
pub proof fn the_first_line_is_the_password(value: Seq<char>)
    requires
        lines(value).len() > 0,
    ensures
        fields_of(value).contains_key("password"@),
        fields_of(value)["password"@] == lines(value)[0],
{
}

/// What a read gives back: the whole of a value, or the one field that was asked for.
pub open spec fn gives(
    name: Seq<char>,
    whole: Seq<char>,
    field: Option<Seq<char>>,
    r: Result<String, Problem>,
) -> bool {
    match r {
        Ok(value) => match field {
            None => value@ == whole,
            Some(want) => fields_of(whole).contains_key(want) && value@ == fields_of(
                whole,
            )[want],
        },
        Err(Problem::NoField(n, f)) => field matches Some(want) && !fields_of(
            whole,
        ).contains_key(want) && n@ == name && f@ == want,
        Err(_) => false,
    }
}

/// What `get` prints: the whole value, or one field of it.
pub fn get(name: &str, whole: String, field: Option<&str>) -> (r: Result<String, Problem>)
    ensures
        gives(name@, whole@, seen(field), r),
        field is None ==> r == Ok::<String, Problem>(whole),
{
    match field {
        None => Ok(whole),
        Some(want) => {
            let table = fields(whole.as_str());
            match table.get(want) {
                Some(v) => Ok(v.clone()),
                None => Err(Problem::NoField(name.to_string(), want.to_string())),
            }
        },
    }
}

/// The names one to a line.
pub open spec fn name_lines(names: Seq<Seq<char>>) -> Seq<char>
    decreases names.len(),
{
    if names.len() == 0 {
        Seq::empty()
    } else {
        name_lines(names.drop_last()) + names.last() + "\n"@
    }
}

/// What `ls` prints: a tree for a terminal, one name per line for anything reading the output.
pub fn ls(names: &Vec<String>, terminal: bool) -> (r: String)
    ensures
        r@ == if terminal {
            "passbox\n"@ + tree(ways_of(texts(names@)), Seq::empty(), true)
        } else {
            name_lines(texts(names@))
        },
{
    if terminal {
        return render(names, true);
    }
    let mut out = String::new();
    let ghost all = texts(names@);
    let mut i: usize = 0;
    assert(out@ =~= name_lines(all.take(0)));
    while i < names.len()
        invariant
            i <= names@.len(),
            all == texts(names@),
            out@ == name_lines(all.take(i as int)),
        decreases names@.len() - i,
    {
        proof {
            assert(all.take(i + 1).drop_last() =~= all.take(i as int));
            assert(all.take(i + 1).last() == names@[i as int]@);
        }
        out.append(names[i].as_str());
        out.append("\n");
        i = i + 1;
    }
    assert(all.take(i as int) =~= all);
    out
}

/// What the answer to a grant holds: the token on its first line, and the names it covers under it.
pub open spec fn splits_grant(answer: Seq<char>, r: (String, Vec<String>)) -> bool {
    match split_once(answer, '\n') {
        Some((token, names)) => r.0@ == token && texts(r.1@) == lines(names),
        None => r.0@ == answer && r.1@.len() == 0,
    }
}

/// A token and the names it covers, as the broker sent them. The token goes to stdout and the names
/// to stderr, so a shell captures the token alone.
pub fn split_grant(answer: &str) -> (r: (String, Vec<String>))
    ensures
        splits_grant(answer@, r),
{
    match split_at_first(answer, '\n') {
        Some((token, names)) => (token, to_lines(names.as_str())),
        None => (answer.to_string(), Vec::new()),
    }
}

// ---------------------------------------------------------------------------------------------
// Undoing

/// The ids that have an earlier version.
pub open spec fn ids_with_versions(names: Set<Seq<char>>) -> Set<Seq<char>> {
    Set::new(|id: Seq<char>| plain_id(id) && has_versions(names, id))
}

/// There is a file in the version directory of `id`.
pub open spec fn has_versions(names: Set<Seq<char>>, id: Seq<char>) -> bool {
    exists|p: Seq<char>| names.contains(p) && #[trigger] parent(p) == Some(version_dir(id))
}

/// The id that a path is a version of, if it is one.
fn version_id(path: &str) -> (r: Option<String>)
    ensures
        match r {
            Some(id) => plain_id(id@) && parent(path@) == Some(version_dir(id@)),
            None => forall|id: Seq<char>|
                plain_id(id) ==> parent(path@) != Some(#[trigger] version_dir(id)),
        },
{
    if let Some(dir) = parent_of(path) {
        if let Some(up) = parent_of(dir.as_str()) {
            if same(up.as_str(), "store/.versions") {
                let id = name_of(dir.as_str());
                if to_chars(id.as_str()).len() > 0 {
                    proof {
                        lemma_version_dir_back(dir@);
                    }
                    return Some(id);
                }
            }
        }
    }
    proof {
        assert forall|id: Seq<char>| plain_id(id) implies parent(path@) != Some(
            #[trigger] version_dir(id),
        ) by {
            lemma_version_dir(id);
        }
    }
    None
}

proof fn lemma_version_dir(id: Seq<char>)
    requires
        plain_id(id),
    ensures
        parent(version_dir(id)) == Some("store/.versions"@),
        crate::disk::file_name(version_dir(id)) == id,
{
    reveal_strlit("store/.versions");
    reveal_strlit("/");
    assert(id.contains(id[0]));
    let d = version_dir(id);
    assert forall|j: int| 15 < j < d.len() implies d[j] != '/' by {
        assert(id.contains(id[j - 16]));
    }
    crate::text::lemma_rcut_unique(d, '/', 15);
    assert(d.take(15) =~= "store/.versions"@);
    assert(d.subrange(16, d.len() as int) =~= id);
}

proof fn lemma_version_dir_back(dir: Seq<char>)
    requires
        parent(dir) == Some("store/.versions"@),
        crate::disk::file_name(dir).len() > 0,
    ensures
        plain_id(crate::disk::file_name(dir)),
        version_dir(crate::disk::file_name(dir)) == dir,
{
    reveal_strlit("store/.versions");
    reveal_strlit("/");
    let id = crate::disk::file_name(dir);
    crate::text::lemma_rcut(dir, '/');
    let at = crate::text::rcut(dir, '/');
    assert(dir.take(at).len() == at);
    assert forall|k: int| 0 <= k < id.len() implies id[k] != '/' by {
        assert(dir[at + 1 + k] == id[k]);
    }
    assert(!id.contains('/'));
    assert(id[0] != '/');
    assert(version_dir(id) =~= dir) by {
        assert forall|j: int| 0 <= j < 15 implies dir[j] == "store/.versions"@[j] by {
            assert(dir.take(at)[j] == dir[j]);
        }
    }
}

impl Store {
    /// The ids that have an earlier version, in order.
    pub fn ids_with_versions(&self, listing: &Listing) -> (r: Vec<String>)
        ensures
            texts(r@) == in_order(ids_with_versions(listing@)),
            texts(r@).to_set() == ids_with_versions(listing@),
    {
        let paths = listing.all();
        let ghost all = texts(paths@);
        let mut out: Vec<String> = Vec::new();
        let mut i: usize = 0;
        while i < paths.len()
            invariant
                i <= paths@.len(),
                all == texts(paths@),
                all.to_set() == listing@,
                forall|k: int|
                    0 <= k < out@.len() ==> plain_id(#[trigger] texts(out@)[k]) && has_versions(
                        listing@,
                        texts(out@)[k],
                    ),
                forall|j: int, id: Seq<char>|
                    0 <= j < i && plain_id(id) && parent(#[trigger] all[j]) == Some(
                        #[trigger] version_dir(id),
                    ) ==> texts(out@).contains(id),
            decreases paths@.len() - i,
        {
            let ghost before = texts(out@);
            assert(all[i as int] == paths@[i as int]@);
            assert(all.to_set().contains(all[i as int]));
            let found = version_id(paths[i].as_str());
            if let Some(id) = &found {
                out.push(id.clone());
                assert(texts(out@) =~= before.push(id@));
            }
            proof {
                let now = texts(out@);
                assert forall|k: int| 0 <= k < now.len() implies plain_id(#[trigger] now[k])
                    && has_versions(listing@, now[k]) by {
                    if k < before.len() {
                        assert(now[k] == before[k]);
                    } else {
                        assert(parent(all[i as int]) == Some(version_dir(now[k])));
                    }
                }
                assert forall|j: int, id: Seq<char>|
                    0 <= j < i + 1 && plain_id(id) && parent(#[trigger] all[j]) == Some(
                        #[trigger] version_dir(id),
                    ) implies now.contains(id) by {
                    if j < i {
                        let k = choose|k: int| 0 <= k < before.len() && before[k] == id;
                        assert(now[k] == id);
                    } else {
                        lemma_version_dir(id);
                        lemma_version_dir(found->0@);
                        assert(now[before.len() as int] == id);
                    }
                }
            }
            i = i + 1;
        }
        proof {
            let now = texts(out@);
            assert forall|id: Seq<char>| now.to_set().contains(id) == ids_with_versions(
                listing@,
            ).contains(id) by {
                if now.contains(id) {
                    let k = choose|k: int| 0 <= k < now.len() && now[k] == id;
                    assert(plain_id(now[k]));
                }
                if ids_with_versions(listing@).contains(id) {
                    let p = choose|p: Seq<char>|
                        listing@.contains(p) && #[trigger] parent(p) == Some(version_dir(id));
                    assert(all.to_set().contains(p));
                    let j = choose|j: int| 0 <= j < all.len() && all[j] == p;
                    assert(parent(all[j]) == Some(version_dir(id)));
                }
            }
            assert(now.to_set() =~= ids_with_versions(listing@));
        }
        sort_dedup(&out)
    }
}

/// Where the first loaded secret of a name stands, or the length.
pub open spec fn first_named(loaded: Seq<(String, Option<Secret>)>, name: Seq<char>) -> int
    decreases loaded.len(),
{
    if loaded.len() == 0 || (loaded[0].1 matches Some(secret) && secret.name@ == name) {
        0
    } else {
        1 + first_named(loaded.drop_first(), name)
    }
}

fn find_named(loaded: &Vec<(String, Option<Secret>)>, name: &str) -> (r: usize)
    ensures
        r == first_named(loaded@, name@),
        r <= loaded@.len(),
{
    let ghost all = loaded@;
    let mut i: usize = 0;
    assert(all.skip(0) =~= all);
    while i < loaded.len()
        invariant
            i <= loaded@.len(),
            all == loaded@,
            first_named(all, name@) == i + first_named(all.skip(i as int), name@),
        decreases loaded@.len() - i,
    {
        assert(all.skip(i as int)[0] == all[i as int]);
        let hit = match &loaded[i].1 {
            Some(secret) => same(secret.name.as_str(), name),
            None => false,
        };
        if hit {
            return i;
        }
        assert(all.skip(i as int).drop_first() =~= all.skip(i + 1));
        i = i + 1;
    }
    i
}

/// Which secret bears a name, among those that are there and then among those that were.
pub open spec fn finds_deleted(
    name: Seq<char>,
    files: Seq<(String, Option<Secret>)>,
    versions: Seq<(String, Option<Secret>)>,
    r: Result<String, Problem>,
) -> bool {
    let i = first_named(files, name);
    let j = first_named(versions, name);
    match r {
        Ok(id) => if i < files.len() {
            id@ == files[i].0@
        } else {
            j < versions.len() && id@ == versions[j].0@
        },
        Err(Problem::NoSecret(n)) => i >= files.len() && j >= versions.len() && n@
            == name,
        Err(_) => false,
    }
}

/// The id of a deleted secret, which is hidden from the listing: look through files behind a
/// tombstone and then through versions, passing over what cannot be read.
pub fn find_deleted(
    name: &str,
    files: &Vec<(String, Option<Secret>)>,
    versions: &Vec<(String, Option<Secret>)>,
) -> (r: Result<String, Problem>)
    ensures
        finds_deleted(name@, files@, versions@, r),
{
    let i = find_named(files, name);
    if i < files.len() {
        return Ok(files[i].0.clone());
    }
    let j = find_named(versions, name);
    if j < versions.len() {
        return Ok(versions[j].0.clone());
    }
    Err(Problem::NoSecret(name.to_string()))
}

/// How a secret comes back.
pub enum Restore {
    /// Its file is still there, so lifting the tombstone is enough
    Lift,
    /// These versions can be put back, newest first
    Show(Vec<(u64, String)>),
    /// This version is put back
    Put(String),
}

/// What restoring a secret comes to.
pub open spec fn restores(
    names: Set<Seq<char>>,
    id: Seq<char>,
    name: Seq<char>,
    index: Option<usize>,
    r: Result<Restore, Problem>,
) -> bool {
    let newest = versions_of(names, id).reverse();
    let hidden = names.contains(tomb_file(id)) && names.contains(secret_file(id));
    match r {
        Ok(Restore::Lift) => hidden,
        Ok(Restore::Show(v)) => !hidden && index is None && newest.len() > 0 && stamped(v@)
            == newest,
        Ok(Restore::Put(path)) => !hidden && (index matches Some(i) && i < newest.len()
            && path@ == newest[i as int].1),
        Err(Problem::NoVersions(n)) => !hidden && newest.len() == 0 && n@ == name,
        Err(Problem::NoVersion(i)) => !hidden && newest.len() > 0 && (index matches Some(k)
            && k >= newest.len() && i@ == decimal(k as int)),
        Err(_) => false,
    }
}

/// How a secret comes back. A delete that arrived through a sync left the file behind. Versions
/// count from the newest.
pub fn restore(
    store: &Store,
    listing: &Listing,
    id: &str,
    name: &str,
    index: Option<usize>,
) -> (r: Result<Restore, Problem>)
    ensures
        restores(listing@, id@, name@, index, r),
{
    if listing.has(tomb_name(id).as_str()) && listing.has(secret_name(id).as_str()) {
        return Ok(Restore::Lift);
    }
    let versions = store.versions(listing, id);
    let ghost all = stamped(versions@);
    let n = versions.len();
    if n == 0 {
        return Err(Problem::NoVersions(name.to_string()));
    }
    match index {
        Some(i) => {
            if i >= n {
                return Err(Problem::NoVersion(to_decimal(i as u64)));
            }
            assert(all.reverse()[i as int] == all[n - 1 - i]);
            Ok(Restore::Put(versions[n - 1 - i].1.clone()))
        },
        None => {
            let mut out: Vec<(u64, String)> = Vec::new();
            let mut i: usize = 0;
            while i < n
                invariant
                    i <= n,
                    n == versions@.len(),
                    all == stamped(versions@),
                    stamped(out@) == all.reverse().take(i as int),
                decreases n - i,
            {
                let ghost before = stamped(out@);
                out.push((versions[n - 1 - i].0, versions[n - 1 - i].1.clone()));
                assert(stamped(out@) =~= before.push(all[n - 1 - i]));
                assert(stamped(out@) =~= all.reverse().take(i + 1));
                i = i + 1;
            }
            assert(all.reverse().take(i as int) =~= all.reverse());
            Ok(Restore::Show(out))
        },
    }
}

/// What showing a hidden secret again does.
pub open spec fn lift_acts(
    names: Set<Seq<char>>,
    id: Seq<char>,
    name: Seq<char>,
    index: Option<Seq<char>>,
) -> Seq<Act> {
    untomb_acts(names, id) + index_add_acts(index, name)
}

/// Putting a version back: what is there becomes a version itself, the bytes are put in place, a
/// tombstone goes, and the index follows.
pub open spec fn restore_acts(
    names: Set<Seq<char>>,
    id: Seq<char>,
    bytes: Seq<u8>,
    name: Seq<char>,
    index: Option<Seq<char>>,
    now: int,
) -> Seq<Act> {
    let replaced = keep_acts(names, id, now) + write_acts(secret_file(id), bytes);
    replaced + untomb_acts(names_after(names, replaced), id) + index_add_acts(index, name)
}

impl Store {
    /// Put a version back.
    pub fn put_back(
        &self,
        listing: &mut Listing,
        id: &str,
        bytes: &[u8],
        name: &str,
        index: Option<&str>,
        now: u64,
    ) -> (r: Vec<Step>)
        requires
            now + old(listing)@.len() < u64::MAX,
        ensures
            acts(r@) == restore_acts(old(listing)@, id@, bytes@, name@, seen(index), now as int),
            final(listing)@ == names_after(old(listing)@, acts(r@)),
    {
        let ghost names = listing@;
        let mut steps = self.keep_version(listing, id, now);
        let ghost k = acts(steps@);
        proof {
            crate::history::lemma_store_files(id@);
        }
        let written = write_private(secret_name(id).as_str(), bytes);
        let ghost w = acts(written@);
        add_steps(&mut steps, listing, written);
        proof {
            lemma_names_add(names, k, w);
        }
        let tomb = self.untomb(listing, id);
        let ghost t = acts(tomb@);
        append_steps(&mut steps, tomb);
        proof {
            lemma_names_add(names, k + w, t);
        }
        let more = self.index_add(index, name);
        let ghost m = acts(more@);
        add_steps(&mut steps, listing, more);
        proof {
            lemma_names_add(names, k + w + t, m);
        }
        steps
    }

    /// Lift a tombstone, and keep the index in step.
    pub fn lift(&self, listing: &mut Listing, id: &str, name: &str, index: Option<&str>) -> (r: Vec<
        Step,
    >)
        ensures
            acts(r@) == lift_acts(old(listing)@, id@, name@, seen(index)),
            final(listing)@ == names_after(old(listing)@, acts(r@)),
    {
        let ghost names = listing@;
        let mut steps = self.untomb(listing, id);
        let ghost t = acts(steps@);
        let more = self.index_add(index, name);
        let ghost m = acts(more@);
        add_steps(&mut steps, listing, more);
        proof {
            lemma_names_add(names, t, m);
        }
        steps
    }
}

// ---------------------------------------------------------------------------------------------
// What the commands promise

/// A new value never widens access: adding over a secret puts the value in its place and keeps how it
/// may be read, unless that is said anew, how long it may be held, and when it was made.
pub proof fn a_new_value_never_widens_access(
    name: Seq<char>,
    value: Seq<char>,
    mode: Option<Mode>,
    window: Option<u64>,
    id: String,
    old: Secret,
    fresh: Seq<char>,
    now: u64,
    r: Result<(String, Secret), Problem>,
)
    requires
        adds(name, value, mode, window, Some((id, old)), fresh, now, r),
        value.len() > 0,
    ensures
        r is Ok,
        r->Ok_0.0@ == id@,
        r->Ok_0.1.name@ == name && r->Ok_0.1.value@ == value,
        mode is None ==> r->Ok_0.1.mode == old.mode,
        mode is Some ==> r->Ok_0.1.mode == mode->0,
        window is None ==> r->Ok_0.1.window_secs == old.window_secs,
        window is Some ==> r->Ok_0.1.window_secs == window->0,
        r->Ok_0.1.lease_secs == old.lease_secs,
        r->Ok_0.1.created == old.created,
        r->Ok_0.1.updated == now,
{
}

/// A new secret asks once per agent in five minutes and is not held, unless it is said otherwise, and
/// goes under an id of its own. Only a value that is nothing is refused.
pub proof fn a_new_secret_asks(
    name: Seq<char>,
    value: Seq<char>,
    mode: Option<Mode>,
    window: Option<u64>,
    fresh: Seq<char>,
    now: u64,
    r: Result<(String, Secret), Problem>,
)
    requires
        adds(name, value, mode, window, None, fresh, now, r),
    ensures
        r is Err <==> value.len() == 0,
        r matches Ok((id, secret)) ==> {
            &&& id@ == fresh
            &&& secret.name@ == name && secret.value@ == value
            &&& mode is None ==> secret.mode == Mode::Window
            &&& mode is Some ==> secret.mode == mode->0
            &&& window is None ==> secret.window_secs == 300
            &&& window is Some ==> secret.window_secs == window->0
            &&& secret.lease_secs == 0
            &&& secret.created == now && secret.updated == now
        },
{
}

/// A change of mode leaves the value, the name and whatever was not said as they were.
pub proof fn a_change_of_mode_changes_nothing_else(
    secret: Secret,
    mode: Mode,
    window: Option<u64>,
    lease: Option<u64>,
    now: u64,
    r: Secret,
)
    requires
        sets_mode(secret, mode, window, lease, now, r),
    ensures
        r == (Secret {
            mode,
            window_secs: if window is Some {
                window->0
            } else {
                secret.window_secs
            },
            lease_secs: if lease is Some {
                lease->0
            } else {
                secret.lease_secs
            },
            updated: now,
            ..secret
        }),
{
}

/// A name stands for the secret of that name and for all that lies under it, at any depth: each of
/// them is a target, once, and nothing else is. Where there is none it is an error.
pub proof fn a_name_aims_at_all_under_it(
    all: Seq<Seq<char>>,
    name: Seq<char>,
    r: Result<Vec<String>, Problem>,
    n: Seq<char>,
)
    requires
        aims_at(all, name, r),
        name.len() > 0,
        name.last() != '/',
    ensures
        all.contains(n) && (n == name || (n.len() > name.len() && n.take(name.len() as int) == name
            && n[name.len() as int] == '/')) ==> r is Ok,
        r matches Ok(picked) ==> (texts(picked@).contains(n) <==> all.contains(n) && (n == name || (
        n.len() > name.len() && n.take(name.len() as int) == name && n[name.len() as int] == '/'))),
        r matches Ok(picked) ==> crate::order::ascending(texts(picked@)),
{
    crate::import::a_selection_takes_all_that_match(all, name, n);
    let picked = selection(all, Some(name));
    vstd::seq_lib::seq_to_set_is_finite(picked);
    crate::order::lemma_order_exists(picked.to_set());
    assert(picked.to_set().contains(n) == picked.contains(n));
    if let Ok(v) = r {
        assert(texts(v@).to_set().contains(n) == texts(v@).contains(n));
    }
}

/// An import takes every entry in the namespace, in the order they come in, and all of them where
/// none is named. It fails only where there is nothing to take.
pub proof fn an_import_takes_the_namespace(
    all: Seq<Seq<char>>,
    prefix: Seq<char>,
    dir: Seq<char>,
    some: Result<Vec<String>, Problem>,
    every: Result<Vec<String>, Problem>,
    n: Seq<char>,
)
    requires
        imports(all, Some(prefix), dir, some),
        imports(all, None, dir, every),
        prefix.len() > 0,
        prefix.last() != '/',
    ensures
        every is Ok <==> all.len() > 0,
        every matches Ok(v) ==> texts(v@) == all,
        all.contains(n) && (n == prefix || (n.len() > prefix.len() && n.take(prefix.len() as int)
            == prefix && n[prefix.len() as int] == '/')) ==> (some matches Ok(v) && texts(
            v@,
        ).contains(n)),
        some matches Ok(v) ==> v@.len() > 0,
        some matches Ok(v) && texts(v@).contains(n) ==> all.contains(n) && (n == prefix || (n.len()
            > prefix.len() && n.take(prefix.len() as int) == prefix && n[prefix.len() as int] == '/')),
{
    crate::import::a_selection_takes_all_that_match(all, prefix, n);
}

/// A reader gets what the secret holds. Only an agent is refused, and only what is marked `never`;
/// what is not there is nobody's.
pub proof fn only_a_never_is_kept_from_an_agent(
    name: Seq<char>,
    found: Option<Secret>,
    for_agent: bool,
    r: Result<String, Problem>,
)
    requires
        reads_as(name, found, for_agent, r),
    ensures
        found is None ==> r is Err,
        found is Some && found->0.mode != Mode::Never ==> (r matches Ok(v) && v@ == found->0.value@),
        found is Some && !for_agent ==> (r matches Ok(v) && v@ == found->0.value@),
        found is Some && for_agent && found->0.mode == Mode::Never ==> r is Err,
{
}

/// A machine that is bound stays as it is. One that is not opens the store with the token where the
/// store has a wrap for it and the plugin is there, and else with the passphrase.
pub proof fn a_token_goes_before_the_passphrase(
    bound: Option<String>,
    has_yubikey_wrap: bool,
    plugin: bool,
    r: Result<WayIn, Problem>,
)
    requires
        binds(bound, has_yubikey_wrap, plugin, r),
    ensures
        r is Err <==> bound is Some,
        bound is None && has_yubikey_wrap && plugin ==> r == Ok::<WayIn, Problem>(WayIn::Yubikey),
        bound is None && !has_yubikey_wrap ==> r == Ok::<WayIn, Problem>(WayIn::Passphrase),
        bound is None && !plugin ==> r == Ok::<WayIn, Problem>(WayIn::Passphrase),
{
}

/// A log holds a record on every line that is not blank, in the order they were written.
pub proof fn every_line_is_a_record(text: Seq<Seq<char>>, line: Seq<char>)
    ensures
        records_in(Seq::empty()) == Seq::<Seq<char>>::empty(),
        crate::mcp::blank(line) ==> records_in(text.push(line)) == records_in(text),
        !crate::mcp::blank(line) ==> records_in(text.push(line)) == records_in(text).push(line),
{
    crate::text::a_blank_text_is_all_white_space(line);
    reveal(Seq::filter);
    assert(text.push(line).drop_last() =~= text);
}

/// The end of a log is the newest records, as many as were asked for or as there are, in the order
/// they were written.
pub proof fn a_tail_is_the_newest_records(text: Seq<char>, tail: int, r: Seq<Seq<char>>, i: int)
    requires
        last_records(text, tail, r),
        tail >= 0,
        0 <= i < r.len(),
    ensures
        r.len() <= tail,
        r.len() < tail ==> r == records_in(lines(text)),
        r.len() <= records_in(lines(text)).len(),
        r[r.len() - 1 - i] == records_in(lines(text))[records_in(lines(text)).len() - 1 - i],
{
}

/// As much of a log is shown as was asked for.
pub proof fn a_tail_is_as_long_as_asked(text: Seq<char>, tail: int, r: Seq<Seq<char>>)
    requires
        last_records(text, tail, r),
        tail >= 0,
    ensures
        r.len() == if tail < records_in(lines(text)).len() {
            tail
        } else {
            records_in(lines(text)).len() as int
        },
{
}

/// This line names a field: what stands before its first colon, without the space around it and in
/// small letters, for what stands behind it.
pub open spec fn names_field(line: Seq<char>, key: Seq<char>, v: Seq<char>) -> bool {
    exists|a: Seq<char>, b: Seq<char>| #[trigger]
        is_pair(line, a, b) && lower(trim(a)) == key && trim(b) == v && key.len() > 0 && v.len() > 0
}

/// The line is these two with a colon between, the first it has.
pub open spec fn is_pair(line: Seq<char>, a: Seq<char>, b: Seq<char>) -> bool {
    line == a + seq![':'] + b && !a.contains(':')
}

proof fn lemma_pair(line: Seq<char>)
    ensures
        forall|a: Seq<char>, b: Seq<char>| #[trigger]
            is_pair(line, a, b) <==> split_once(line, ':') == Some((a, b)),
{
    assert forall|a: Seq<char>, b: Seq<char>| #[trigger] is_pair(line, a, b) <==> split_once(line, ':')
        == Some((a, b)) by {
        crate::text::a_split_is_at_the_first_place(line, ':', a, b);
    }
}

proof fn lemma_fields(more: Seq<Seq<char>>, key: Seq<char>, i: int, v: Seq<char>)
    ensures
        0 <= i < more.len() && names_field(more[i], key, v) && (forall|j: int, w: Seq<char>|
            i < j < more.len() ==> !(#[trigger] names_field(more[j], key, w))) ==> with_fields(
            Map::empty(),
            more,
        ).contains_key(key) && with_fields(Map::empty(), more)[key] == v,
        with_fields(Map::empty(), more).contains_key(key) ==> exists|j: int|
            0 <= j < more.len() && names_field(
                #[trigger] more[j],
                key,
                with_fields(Map::empty(), more)[key],
            ),
    decreases more.len(),
{
    if more.len() > 0 {
        let front = more.drop_last();
        let line = more.last();
        let before = with_fields(Map::empty(), front);
        let after = with_fields(Map::empty(), more);
        lemma_pair(line);
        lemma_fields(front, key, i, v);
        let n = more.len() - 1;
        if let Some((a, b)) = split_once(line, ':') {
            assert(is_pair(line, a, b));
            if lower(trim(a)).len() > 0 && trim(b).len() > 0 {
                assert(names_field(more[n], lower(trim(a)), trim(b)));
            }
        }
        assert forall|j: int| 0 <= j < front.len() implies #[trigger] front[j] == more[j] by {}
        if 0 <= i < n && names_field(more[i], key, v) && (forall|j: int, w: Seq<char>|
            i < j < more.len() ==> !(#[trigger] names_field(more[j], key, w))) {
            assert forall|j: int, w: Seq<char>| i < j < front.len() implies !(#[trigger] names_field(
                front[j],
                key,
                w,
            )) by {
                assert(front[j] == more[j]);
            }
            assert(front[i] == more[i]);
        }
        if after.contains_key(key) {
            if before.contains_key(key) && before[key] == after[key] {
                let j = choose|j: int|
                    0 <= j < front.len() && names_field(#[trigger] front[j], key, before[key]);
                assert(front[j] == more[j]);
            } else {
                assert(names_field(more[n], key, after[key]));
            }
        }
    }
}

/// A field of an entry is what the last line that names it says: every line after the first that is a
/// name, a colon and a value, neither of them blank, is a field, by its name in small letters.
pub proof fn a_field_is_what_its_line_says(value: Seq<char>, key: Seq<char>, i: int, v: Seq<char>)
    requires
        key != "password"@,
        0 < i < lines(value).len(),
        names_field(lines(value)[i], key, v),
        forall|j: int, w: Seq<char>|
            i < j < lines(value).len() ==> !(#[trigger] names_field(lines(value)[j], key, w)),
    ensures
        fields_of(value).contains_key(key),
        fields_of(value)[key] == v,
{
    let more = lines(value).drop_first();
    assert(more[i - 1] == lines(value)[i]);
    assert forall|j: int, w: Seq<char>| i - 1 < j < more.len() implies !(#[trigger] names_field(
        more[j],
        key,
        w,
    )) by {
        assert(more[j] == lines(value)[j + 1]);
        assert(!names_field(lines(value)[j + 1], key, w));
    }
    lemma_fields(more, key, i - 1, v);
}

/// An entry has no field but its password and what its lines name.
pub proof fn no_field_is_made_up(value: Seq<char>, key: Seq<char>)
    requires
        fields_of(value).contains_key(key),
    ensures
        lines(value).len() > 0,
        key == "password"@ || exists|j: int|
            0 < j < lines(value).len() && names_field(
                #[trigger] lines(value)[j],
                key,
                fields_of(value)[key],
            ),
{
    let more = lines(value).drop_first();
    lemma_fields(more, key, 0, key);
    if key != "password"@ {
        let j = choose|j: int|
            0 <= j < more.len() && names_field(
                #[trigger] more[j],
                key,
                with_fields(Map::empty(), more)[key],
            );
        assert(more[j] == lines(value)[j + 1]);
    }
}

/// A read gives back the whole of a value where no field is asked for, and else that field, with
/// nothing beside it. It fails only where there is no such field.
pub proof fn a_read_gives_the_field_alone(
    name: Seq<char>,
    whole: Seq<char>,
    want: Seq<char>,
    all: Result<String, Problem>,
    one: Result<String, Problem>,
)
    requires
        gives(name, whole, None, all),
        gives(name, whole, Some(want), one),
    ensures
        all matches Ok(v) && v@ == whole,
        one is Ok <==> fields_of(whole).contains_key(want),
        one matches Ok(v) ==> v@ == fields_of(whole)[want],
        one matches Err(e) ==> (e matches Problem::NoField(n, f) && n@ == name && f@ == want),
        want == "password"@ && lines(whole).len() > 0 ==> (one matches Ok(v) && v@ == lines(
            whole,
        )[0]),
{
}

proof fn lemma_name_lines_first(names: Seq<Seq<char>>)
    requires
        names.len() > 0,
    ensures
        name_lines(names) == names[0] + seq!['\n'] + name_lines(names.drop_first()),
    decreases names.len(),
{
    reveal_strlit("\n");
    assert("\n"@ =~= seq!['\n']);
    let front = names.drop_last();
    let rest = names.drop_first();
    if names.len() == 1 {
        assert(front =~= Seq::<Seq<char>>::empty());
        assert(rest =~= Seq::<Seq<char>>::empty());
        assert(name_lines(names) =~= names[0] + seq!['\n'] + name_lines(rest));
    } else {
        lemma_name_lines_first(front);
        assert(front.drop_first() =~= rest.drop_last());
        assert(rest.last() == names.last());
        assert(name_lines(names) =~= names[0] + seq!['\n'] + name_lines(rest));
    }
}

/// A plain listing has a line for every name, in the order given, and nothing else: read line by line
/// it is the names again.
pub proof fn a_plain_listing_is_read_back(names: Seq<Seq<char>>)
    requires
        forall|i: int|
            0 <= i < names.len() ==> !(#[trigger] names[i]).contains('\n') && (names[i].len() > 0
                ==> names[i].last() != '\r'),
    ensures
        lines(name_lines(names)) == names,
    decreases names.len(),
{
    if names.len() > 0 {
        let rest = names.drop_first();
        lemma_name_lines_first(names);
        assert forall|i: int| 0 <= i < rest.len() implies !(#[trigger] rest[i]).contains('\n') && (
        rest[i].len() > 0 ==> rest[i].last() != '\r') by {
            assert(rest[i] == names[i + 1]);
        }
        a_plain_listing_is_read_back(rest);
        crate::text::lines_end_at_the_breaks(names[0], name_lines(rest));
        assert(seq![names[0]] + rest =~= names);
    }
}

/// Whoever asked for a token gets it back, and with it the names it opens: what the broker answers is
/// taken apart into what it put together.
pub proof fn a_grant_is_read_back(token: Seq<char>, names: Seq<Seq<char>>, r: (String, Vec<String>))
    requires
        splits_grant(token + "\n"@ + crate::order::join(names, "\n"@), r),
        !token.contains('\n'),
        forall|i: int|
            0 <= i < names.len() ==> (#[trigger] names[i]).len() > 0 && !names[i].contains('\n') && (i
                < names.len() - 1 ==> names[i].last() != '\r'),
    ensures
        r.0@ == token,
        texts(r.1@) == names,
{
    reveal_strlit("\n");
    assert("\n"@ =~= seq!['\n']);
    let rest = crate::order::join(names, "\n"@);
    let answer = token + "\n"@ + rest;
    crate::text::a_split_is_at_the_first_place(answer, '\n', token, rest);
    crate::order::joined_lines_are_read_back(names);
}

/// The first version that can be put back is the newest: none that was kept is later.
pub proof fn the_first_version_is_the_newest(
    names: Set<Seq<char>>,
    id: Seq<char>,
    name: Seq<char>,
    p: String,
    w: (u64, Seq<char>),
)
    requires
        names.finite(),
        restores(names, id, name, Some(0), Ok(Restore::Put(p))),
        crate::history::is_version(names, id, w),
    ensures
        exists|s: u64| #[trigger]
            crate::history::is_version(names, id, (s, p@)) && (w == (s, p@) || w.0 < s || (w.0 == s
                && crate::order::less(w.1, p@))),
{
    crate::promises::lemma_versions_exist(names, id);
    let v = versions_of(names, id);
    let x = v[v.len() - 1];
    assert(v.reverse()[0] == x);
    assert(crate::history::is_version(names, id, (x.0, p@)));
    let k = choose|k: int| 0 <= k < v.len() && v[k] == w;
    if k < v.len() - 1 {
        assert(crate::history::earlier(v[k], v[v.len() - 1]));
    }
}

/// The next version that can be put back is the next older one: it is earlier, and none that was kept
/// lies between the two.
pub proof fn the_next_version_is_the_next_older(
    names: Set<Seq<char>>,
    id: Seq<char>,
    name: Seq<char>,
    i: usize,
    p: String,
    q: String,
    w: (u64, Seq<char>),
)
    requires
        names.finite(),
        i < usize::MAX,
        restores(names, id, name, Some(i), Ok(Restore::Put(p))),
        restores(names, id, name, Some((i + 1) as usize), Ok(Restore::Put(q))),
        crate::history::is_version(names, id, w),
    ensures
        exists|s: u64, t: u64| #[trigger]
            crate::history::is_version(names, id, (s, p@)) && #[trigger] crate::history::is_version(
                names,
                id,
                (t, q@),
            ) && crate::history::earlier((t, q@), (s, p@)) && !(crate::history::earlier(
                (t, q@),
                w,
            ) && crate::history::earlier(w, (s, p@))),
{
    crate::promises::lemma_versions_exist(names, id);
    let v = versions_of(names, id);
    let m = v.len() - 1 - i;
    let x = v[m];
    let y = v[m - 1];
    assert(v.reverse()[i as int] == x);
    assert(v.reverse()[i + 1] == y);
    assert(crate::history::is_version(names, id, (x.0, p@)));
    assert(crate::history::is_version(names, id, (y.0, q@)));
    assert(crate::history::earlier(y, x));
    let k = choose|k: int| 0 <= k < v.len() && v[k] == w;
    if k < m - 1 {
        assert(crate::history::earlier(v[k], v[m - 1]));
        crate::order::lemma_less(w.1, y.1);
    }
    if k > m {
        assert(crate::history::earlier(v[m], v[k]));
        crate::order::lemma_less(x.1, w.1);
    }
    crate::order::lemma_less(y.1, y.1);
    crate::order::lemma_less(x.1, x.1);
}

/// A secret that is only hidden is shown again; else what there is to put back is put back where it is
/// named, and listed where it is not. It fails only where there is no such version.
pub proof fn a_restore_fails_only_without_a_version(
    names: Set<Seq<char>>,
    id: Seq<char>,
    name: Seq<char>,
    index: Option<usize>,
    r: Result<Restore, Problem>,
)
    requires
        restores(names, id, name, index, r),
    ensures
        r matches Ok(Restore::Lift) <==> names.contains(tomb_file(id)) && names.contains(
            secret_file(id),
        ),
        versions_of(names, id).len() > 0 && index is None ==> r is Ok,
        index matches Some(i) && i < versions_of(names, id).len() ==> r is Ok,
        r matches Ok(Restore::Show(v)) ==> stamped(v@) == versions_of(names, id).reverse(),
{
}

/// What is deleted is found by its name: the first among the files that bears it, where none of them
/// does the first among the versions, and nothing only where none does.
pub proof fn a_deleted_name_is_found(
    name: Seq<char>,
    files: Seq<(String, Option<Secret>)>,
    versions: Seq<(String, Option<Secret>)>,
    i: int,
    r: Result<String, Problem>,
)
    requires
        finds_deleted(name, files, versions, r),
    ensures
        bears_first(files, name, i) ==> (r matches Ok(id) && id@ == files[i].0@),
        bears_nowhere(files, name) && bears_first(versions, name, i) ==> (r matches Ok(id) && id@
            == versions[i].0@),
        bears_nowhere(files, name) && bears_nowhere(versions, name) ==> r is Err,
{
    lemma_first_named(files, name, i);
    lemma_first_named(versions, name, i);
}

/// This one could be read and bears the name, and none before it does.
pub open spec fn bears_first(
    loaded: Seq<(String, Option<Secret>)>,
    name: Seq<char>,
    i: int,
) -> bool {
    &&& 0 <= i < loaded.len()
    &&& loaded[i].1 matches Some(secret) && secret.name@ == name
    &&& bears_nowhere(loaded.take(i), name)
}

/// None that could be read bears the name.
pub open spec fn bears_nowhere(loaded: Seq<(String, Option<Secret>)>, name: Seq<char>) -> bool {
    forall|j: int|
        0 <= j < loaded.len() ==> ((#[trigger] loaded[j]).1 matches Some(secret) ==> secret.name@
            != name)
}

proof fn lemma_first_named(loaded: Seq<(String, Option<Secret>)>, name: Seq<char>, i: int)
    ensures
        bears_first(loaded, name, i) ==> first_named(loaded, name) == i,
        bears_nowhere(loaded, name) ==> first_named(loaded, name) == loaded.len(),
    decreases loaded.len(),
{
    if loaded.len() > 0 {
        let rest = loaded.drop_first();
        lemma_first_named(rest, name, i - 1);
        assert forall|j: int| 0 <= j < rest.len() implies #[trigger] rest[j] == loaded[j + 1] by {}
        if bears_first(loaded, name, i) && i > 0 {
            assert(loaded.take(i)[0] == loaded[0]);
            assert forall|j: int| 0 <= j < rest.take(i - 1).len() implies ((#[trigger] rest.take(
                i - 1,
            )[j]).1 matches Some(secret) ==> secret.name@ != name) by {
                assert(rest.take(i - 1)[j] == loaded.take(i)[j + 1]);
            }
        }
        if bears_nowhere(loaded, name) {
            assert(loaded[0] == loaded[0]);
            assert(bears_nowhere(rest, name));
        }
    }
}

/// A value is stored as it was piped in, but for the line breaks at its end: spaces, tabs and the breaks
/// within it stay.
pub proof fn a_piped_value_loses_only_its_breaks(value: Seq<char>, breaks: nat)
    requires
        value.len() > 0 ==> value.last() != '\n',
    ensures
        piped_value(value + Seq::new(breaks, |i: int| '\n')) == value,
    decreases breaks,
{
    let s = value + Seq::new(breaks, |i: int| '\n');
    if breaks == 0 {
        assert(s =~= value);
    } else {
        let fewer = (breaks - 1) as nat;
        a_piped_value_loses_only_its_breaks(value, fewer);
        assert(s.drop_last() =~= value + Seq::new(fewer, |i: int| '\n'));
    }
}

/// A passphrase of twelve characters will do, whatever they are, and a shorter one will not.
pub proof fn twelve_characters_will_do(pass: Seq<char>, r: Result<(), Problem>)
    requires
        takes_passphrase(pass, r),
    ensures
        r is Ok <==> pass.len() >= 12,
        r is Err ==> r == Err::<(), Problem>(Problem::ShortPassphrase),
{
}

/// Git leaves out the socket, this machine's history, its wraps and its grants, the index and the chosen
/// remote, and nothing else: every secret, and every wrap that opens the store elsewhere, is carried.
pub proof fn git_leaves_out_what_stays_home()
    ensures
        lines(GITIGNORE@) == seq![
            "broker.sock"@,
            "store/.versions/"@,
            "wraps/se-*.json"@,
            "grants-*.age"@,
            "names"@,
            "remote"@,
        ],
{
    reveal_strlit("broker.sock\nstore/.versions/\nwraps/se-*.json\ngrants-*.age\nnames\nremote\n");
    reveal_strlit("broker.sock");
    reveal_strlit("store/.versions/");
    reveal_strlit("wraps/se-*.json");
    reveal_strlit("grants-*.age");
    reveal_strlit("names");
    reveal_strlit("remote");
    let all = seq![
        "broker.sock"@,
        "store/.versions/"@,
        "wraps/se-*.json"@,
        "grants-*.age"@,
        "names"@,
        "remote"@,
    ];
    assert forall|i: int| 0 <= i < all.len() implies !(#[trigger] all[i]).contains('\n') && (
    all[i].len() > 0 ==> all[i].last() != '\r') by {}
    a_plain_listing_is_read_back(all);
    let b = seq!['\n'];
    assert(GITIGNORE@ =~= all[0] + b + (all[1] + b + (all[2] + b + (all[3] + b + (all[4] + b + (all[5]
        + b))))));
    let e = Seq::<Seq<char>>::empty();
    let six = seq![all[5]];
    let five = seq![all[4], all[5]];
    let four = seq![all[3], all[4], all[5]];
    let three = seq![all[2], all[3], all[4], all[5]];
    let two = seq![all[1], all[2], all[3], all[4], all[5]];
    assert(six.drop_first() =~= e);
    assert(five.drop_first() =~= six);
    assert(four.drop_first() =~= five);
    assert(three.drop_first() =~= four);
    assert(two.drop_first() =~= three);
    assert(all.drop_first() =~= two);
    lemma_name_lines_first(six);
    lemma_name_lines_first(five);
    lemma_name_lines_first(four);
    lemma_name_lines_first(three);
    lemma_name_lines_first(two);
    lemma_name_lines_first(all);
    assert(all[5] + b + name_lines(e) =~= all[5] + b);
    assert(name_lines(all) == GITIGNORE@);
}

} // verus!

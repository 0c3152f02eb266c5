//! Decides who may open a secret, holds the approval windows, and writes the audit log.
//!
//! The broker never waits for anything itself. A request is handled in steps: each takes what came
//! of the last thing that was asked for, and says what to do next.

use crate::crypto::StoreKey;
use crate::import::{select, selected, selection};
use crate::lookup::{first_failure, is_end, names_of, search_end};
use crate::number::{decimal, parse, parse_up_to, to_decimal};
use crate::order::{in_order, join, join_texts, sort_dedup, sorted};
use crate::problem::Problem;
use crate::project::{copy_grants, grant_covers, grants_of, Grant, GrantV, Manifest, ManifestV};
use crate::store::{new_id, Mode, Secret, Store, DEFAULT_WINDOW_SECS};
use crate::table::{deep, Table};
use crate::text::{
    cat2, cat3, cat4, cat5, copy_texts, from_chars, has_text, is_space, lines, texts, to_chars,
    to_lines, trim, trimmed, word_len,
};
use vstd::prelude::*;
use vstd::string::*;

verus! {

/// The store key leaves memory after this long with no traffic.
pub const KEY_TTL_SECS: u64 = 300;

/// A ceiling on how long one approval can carry: a day. Without it a caller names its own expiry
/// and a token becomes a password that never lapses, which is the thing this exists to avoid.
pub const MAX_GRANT_SECS: u64 = 86_400;

/// Listing gets its own approval slot. A name cannot hold a NUL, so nothing collides with it.
pub const LIST_SLOT: &'static str = "\u{0}list";

/// What is asked of the broker.
#[derive(Clone, Copy, PartialEq, Eq, Debug, Structural)]
pub enum Op {
    /// The value of one secret
    Get,
    /// The names of all of them
    List,
    /// Approve a set of secrets once and hand back a token that opens only those
    Grant,
}

impl Default for Op {
    /// A request that does not say what it asks for asks for a secret.
    fn default() -> (r: Op)
        ensures
            r == Op::Get,
    {
        Op::Get
    }
}

/// One request to the broker.
pub struct Request {
    pub name: String,
    pub agent: String,
    pub op: Op,
    /// Presented on a read to skip the prompt, and minted by a grant
    pub token: String,
    /// Seconds a minted token stays valid
    pub ttl: u64,
    /// Names or namespaces a grant covers. A job rarely wants exactly one namespace
    pub names: Vec<String>,
    /// A person asks, who reads the value off the screen, and no agent. It is as advisory as the
    /// agent's name, so all it does is turn the refusal of a secret marked `never` into a prompt
    pub interactive: bool,
}

/// What the broker answers.
pub struct Response {
    pub ok: bool,
    pub value: Option<String>,
    pub error: Option<String>,
}

// ---------------------------------------------------------------------------------------------
// Deciding

/// What becomes of a read.
#[derive(Clone, Copy, PartialEq, Eq, Debug, Structural)]
pub enum Decision {
    Allow,
    Prompt,
    Deny,
}

/// An approval still carries: it was given, not in the future, and less than a window ago. One
/// stamped in the future means the clock moved, so it counts for nothing.
pub open spec fn carries(window_secs: u64, approved_at: Option<u64>, now: u64) -> bool {
    approved_at matches Some(at) && at <= now < at + window_secs
}

/// What becomes of a read: `open` is released, `never` refused, `always` asks, and `window` asks
/// unless an approval still carries.
pub open spec fn decision(
    mode: Mode,
    window_secs: u64,
    approved_at: Option<u64>,
    now: u64,
) -> Decision {
    match mode {
        Mode::Open => Decision::Allow,
        Mode::Never => Decision::Deny,
        Mode::Always => Decision::Prompt,
        Mode::Window => if carries(window_secs, approved_at, now) {
            Decision::Allow
        } else {
            Decision::Prompt
        },
    }
}

/// The one piece of logic that must not be wrong.
pub fn decide(mode: Mode, window_secs: u64, approved_at: Option<u64>, now: u64) -> (r: Decision)
    ensures
        r == decision(mode, window_secs, approved_at, now),
{
    match mode {
        Mode::Open => Decision::Allow,
        Mode::Never => Decision::Deny,
        Mode::Always => Decision::Prompt,
        Mode::Window => match approved_at {
            Some(at) => if at <= now && now - at < window_secs {
                Decision::Allow
            } else {
                Decision::Prompt
            },
            None => Decision::Prompt,
        },
    }
}

// ---------------------------------------------------------------------------------------------
// Tokens and leases

/// One secret's value, held past the store key's life. The key opens everything and so is dropped
/// quickly, while a lease covers the one secret it was approved for. Asking for anything else finds
/// no lease and needs a fingerprint.
pub struct Lease {
    pub value: String,
    pub until: u64,
}

impl View for Lease {
    type V = (Seq<char>, u64);

    open spec fn view(&self) -> (Seq<char>, u64) {
        (self.value@, self.until)
    }
}

/// What one token opens: the values it was granted, and when it stops working.
pub struct TokenGrant {
    pub values: Table<String>,
    pub expires: u64,
}

impl View for TokenGrant {
    type V = (Map<Seq<char>, Seq<char>>, u64);

    open spec fn view(&self) -> (Map<Seq<char>, Seq<char>>, u64) {
        (deep(self.values@), self.expires)
    }
}

/// What a token opens under a name: an unknown token opens nothing, a known one opens only what it
/// was granted, and neither opens anything once it has lapsed.
pub open spec fn token_value(
    tokens: Map<Seq<char>, (Map<Seq<char>, Seq<char>>, u64)>,
    token: Seq<char>,
    name: Seq<char>,
    now: u64,
) -> Option<Seq<char>> {
    if tokens.contains_key(token) && now < tokens[token].1 && tokens[token].0.contains_key(name) {
        Some(tokens[token].0[name])
    } else {
        None
    }
}

/// What a token opens under a name.
pub fn token_lookup(tokens: &Table<TokenGrant>, token: &str, name: &str, now: u64) -> (r: Option<
    String,
>)
    ensures
        match r {
            Some(value) => token_value(deep(tokens@), token@, name@, now) == Some(value@),
            None => token_value(deep(tokens@), token@, name@, now) is None,
        },
{
    match tokens.get(token) {
        Some(grant) => if now < grant.expires {
            match grant.values.get(name) {
                Some(value) => Some(value.clone()),
                None => None,
            }
        } else {
            None
        },
        None => None,
    }
}

/// The rows of a table that have not run out.
pub open spec fn unexpired<T>(rows: Map<Seq<char>, (T, u64)>, now: u64) -> Map<
    Seq<char>,
    (T, u64),
> {
    rows.restrict(Set::new(|key: Seq<char>| rows.contains_key(key) && now < rows[key].1))
}

/// Something that runs out.
trait Lapses: Sized {
    spec fn end(&self) -> u64;

    /// When it does.
    fn ends(&self) -> (r: u64)
        ensures
            r == self.end(),
    ;
}

impl Lapses for Lease {
    spec fn end(&self) -> u64 {
        self.until
    }

    fn ends(&self) -> (r: u64) {
        self.until
    }
}

impl Lapses for TokenGrant {
    spec fn end(&self) -> u64 {
        self.expires
    }

    fn ends(&self) -> (r: u64) {
        self.expires
    }
}

/// The keys under which something ran out.
spec fn lapsed<V: Lapses>(rows: Map<Seq<char>, V>, now: u64) -> Set<Seq<char>> {
    Set::new(|key: Seq<char>| rows.contains_key(key) && now >= rows[key].end())
}

/// Take out what ran out.
fn drop_old<V: Lapses>(rows: &mut Table<V>, now: u64)
    ensures
        final(rows)@ == old(rows)@.remove_keys(lapsed(old(rows)@, now)),
{
    let keys = rows.keys();
    let ghost all = texts(keys@);
    let ghost gone = lapsed(rows@, now);
    let mut old_ones: Vec<String> = Vec::new();
    let mut i: usize = 0;
    assert(texts(old_ones@).to_set() =~= all.take(0).to_set().intersect(gone));
    while i < keys.len()
        invariant
            i <= keys@.len(),
            all == texts(keys@),
            all.to_set() == rows@.dom(),
            gone == lapsed(rows@, now),
            texts(old_ones@).to_set() == all.take(i as int).to_set().intersect(gone),
        decreases keys@.len() - i,
    {
        let ghost was = texts(old_ones@);
        assert(all[i as int] == keys@[i as int]@);
        assert(all.to_set().contains(all[i as int]));
        let is_old = match rows.get(keys[i].as_str()) {
            Some(row) => now >= row.ends(),
            None => false,
        };
        proof {
            crate::order::lemma_push_set(all, i as int);
        }
        if is_old {
            old_ones.push(keys[i].clone());
            proof {
                let is = texts(old_ones@);
                assert(is =~= was.push(all[i as int]));
                crate::order::lemma_push_set(is, was.len() as int);
                assert(is.take(was.len() as int) =~= was);
                assert(is.take(was.len() as int + 1) =~= is);
            }
        }
        assert(texts(old_ones@).to_set() =~= all.take(i + 1).to_set().intersect(gone));
        i = i + 1;
    }
    assert(all.take(i as int) =~= all);
    assert(all.to_set().intersect(gone) =~= gone);
    rows.remove_all(&old_ones);
}

fn drop_old_leases(leases: &mut Table<Lease>, now: u64)
    ensures
        deep(final(leases)@) == unexpired(deep(old(leases)@), now),
{
    let ghost start = leases@;
    drop_old(leases, now);
    assert(deep(leases@) =~= unexpired(deep(start), now));
}

fn drop_old_tokens(tokens: &mut Table<TokenGrant>, now: u64)
    ensures
        deep(final(tokens)@) == unexpired(deep(old(tokens)@), now),
{
    let ghost start = tokens@;
    drop_old(tokens, now);
    assert(deep(tokens@) =~= unexpired(deep(start), now));
}

// ---------------------------------------------------------------------------------------------
// The broker

/// What the broker holds.
#[verifier::ext_equal]
pub struct BrokerV {
    /// The store key
    pub key: Option<Seq<char>>,
    /// When it was unlocked
    pub key_at: u64,
    /// Values held past the key's life, by name, until when
    pub leases: Map<Seq<char>, (Seq<char>, u64)>,
    /// What each token opens, until when
    pub tokens: Map<Seq<char>, (Map<Seq<char>, Seq<char>>, u64)>,
    /// When each agent was last approved for each secret
    pub approvals: Map<(Seq<char>, Seq<char>), u64>,
    /// The projects that were approved
    pub grants: Seq<GrantV>,
}

/// The broker. It keeps everything in memory, so it ends when the process does.
pub struct Broker {
    store: Store,
    key: Option<StoreKey>,
    key_at: u64,
    leases: Table<Lease>,
    tokens: Table<TokenGrant>,
    approvals: Table<Table<u64>>,
    grants: Vec<Grant>,
}

/// The approvals by agent and secret.
pub open spec fn by_pair(approvals: Map<Seq<char>, Table<u64>>) -> Map<
    (Seq<char>, Seq<char>),
    u64,
> {
    Map::new(
        |p: (Seq<char>, Seq<char>)|
            approvals.contains_key(p.0) && approvals[p.0]@.contains_key(p.1),
        |p: (Seq<char>, Seq<char>)| approvals[p.0]@[p.1],
    )
}

impl View for Broker {
    type V = BrokerV;

    closed spec fn view(&self) -> BrokerV {
        BrokerV {
            key: match self.key {
                Some(key) => Some(key@),
                None => None,
            },
            key_at: self.key_at,
            leases: deep(self.leases@),
            tokens: deep(self.tokens@),
            approvals: by_pair(self.approvals@),
            grants: grants_of(self.grants@),
        }
    }
}

/// How long ago something was, where a clock that went back counts as no time at all.
pub open spec fn since(at: u64, now: u64) -> int {
    if now >= at {
        now - at
    } else {
        0
    }
}

/// A cached key past its life is the same as no key.
pub open spec fn cooled(b: BrokerV, now: u64) -> BrokerV {
    BrokerV {
        key: if since(b.key_at, now) >= KEY_TTL_SECS {
            None
        } else {
            b.key
        },
        ..b
    }
}

/// The broker after the key was unlocked, with the grants that were read with it.
pub open spec fn unlocked(b: BrokerV, key: Seq<char>, grants: Seq<GrantV>, now: u64) -> BrokerV {
    BrokerV { key: Some(key), key_at: now, grants, ..b }
}

/// When an agent was approved for a secret.
pub open spec fn approval(b: BrokerV, agent: Seq<char>, name: Seq<char>) -> Option<u64> {
    if b.approvals.contains_key((agent, name)) {
        Some(b.approvals[(agent, name)])
    } else {
        None
    }
}

/// The broker after an agent was approved for a secret.
pub open spec fn approved(b: BrokerV, agent: Seq<char>, name: Seq<char>, now: u64) -> BrokerV {
    BrokerV { approvals: b.approvals.insert((agent, name), now), ..b }
}

/// What a read of one secret is asked for with.
pub open spec fn release_reason(agent: Seq<char>, name: Seq<char>) -> Seq<char> {
    "release the password for "@ + name + " to "@ + agent
}

/// What a listing is asked for with.
pub open spec fn list_reason(agent: Seq<char>) -> Seq<char> {
    "list your secret names for "@ + agent
}

/// What a project's secrets are asked for with.
pub open spec fn manifest_reason(agent: Seq<char>, m: ManifestV) -> Seq<char> {
    "give "@ + agent + " access to "@ + decimal(m.secrets.len() as int) + " secrets declared by "@
        + m.dir + " for "@ + decimal(m.window_secs as int / 60) + " minutes"@
}

/// How long a token is minted for: what was asked for, five minutes where nothing was, and never
/// more than a day.
pub open spec fn token_ttl(ttl: u64) -> u64 {
    let asked = if ttl == 0 {
        DEFAULT_WINDOW_SECS
    } else {
        ttl
    };
    if asked > MAX_GRANT_SECS {
        MAX_GRANT_SECS
    } else {
        asked
    }
}

/// What a token is asked for with.
pub open spec fn grant_reason(names: Seq<Seq<char>>, agent: Seq<char>, ttl: u64) -> Seq<char> {
    "grant "@ + join(names, ", "@) + " to "@ + agent + " for "@ + decimal(token_ttl(ttl) as int)
        + "s"@
}

/// How long a token is minted for.
pub fn grant_ttl(ttl: u64) -> (r: u64)
    ensures
        r == token_ttl(ttl),
        r <= MAX_GRANT_SECS,
{
    let asked: u64 = if ttl == 0 {
        DEFAULT_WINDOW_SECS
    } else {
        ttl
    };
    if asked > MAX_GRANT_SECS {
        MAX_GRANT_SECS
    } else {
        asked
    }
}

/// A manifest stands for this secret with a grant that covers it.
pub open spec fn granted(
    grants: Seq<GrantV>,
    manifest: Option<ManifestV>,
    name: Seq<char>,
    now: u64,
) -> bool {
    manifest matches Some(m) && exists|i: int|
        0 <= i < grants.len() && grant_covers(#[trigger] grants[i], m, name, now)
}

/// The manifest there may be.
pub open spec fn manifest_of(manifest: Option<Manifest>) -> Option<ManifestV> {
    match manifest {
        Some(m) => Some(m@),
        None => None,
    }
}

impl Broker {
    /// A broker that knows nothing yet.
    pub fn new(store: Store) -> (r: Broker)
        ensures
            r@ == (BrokerV {
                key: None,
                key_at: 0,
                leases: Map::empty(),
                tokens: Map::empty(),
                approvals: Map::empty(),
                grants: Seq::empty(),
            }),
    {
        let r = Broker {
            store,
            key: None,
            key_at: 0,
            leases: Table::new(),
            tokens: Table::new(),
            approvals: Table::new(),
            grants: Vec::new(),
        };
        proof {
            assert(r@.leases =~= Map::<Seq<char>, (Seq<char>, u64)>::empty());
            assert(r@.tokens =~= Map::<Seq<char>, (Map<Seq<char>, Seq<char>>, u64)>::empty());
            assert(r@.approvals =~= Map::<(Seq<char>, Seq<char>), u64>::empty());
            assert(r@.grants =~= Seq::<GrantV>::empty());
        }
        r
    }

    /// The store key, while it is held.
    pub fn key(&self) -> (r: Option<StoreKey>)
        ensures
            match r {
                Some(key) => self@.key == Some(key@),
                None => self@.key is None,
            },
    {
        match &self.key {
            Some(key) => Some(key.copy()),
            None => None,
        }
    }

    /// Drop a key past its life, and say whether there is one left.
    pub fn cached_key(&mut self, now: u64) -> (r: bool)
        ensures
            final(self)@ == cooled(old(self)@, now),
            r == (final(self)@.key is Some),
    {
        let age: u64 = if now >= self.key_at {
            now - self.key_at
        } else {
            0
        };
        if age >= KEY_TTL_SECS {
            self.key = None;
        }
        self.key.is_some()
    }

    /// The Touch ID prompt is the approval, so a prompt and an unlock are the same act.
    fn unlock(&mut self, key: StoreKey, grants: Vec<Grant>, now: u64)
        ensures
            final(self)@ == unlocked(old(self)@, key@, grants_of(grants@), now),
    {
        self.grants = grants;
        self.key = Some(key);
        self.key_at = now;
    }

    fn approved_at(&self, agent: &str, name: &str) -> (r: Option<u64>)
        ensures
            r == approval(self@, agent@, name@),
    {
        match self.approvals.get(agent) {
            Some(inner) => match inner.get(name) {
                Some(at) => Some(*at),
                None => None,
            },
            None => None,
        }
    }

    /// Note that an agent was approved for a secret.
    fn stamp(&mut self, agent: &str, name: &str, now: u64)
        ensures
            final(self)@ == approved(old(self)@, agent@, name@, now),
    {
        let ghost was = self.approvals@;
        let mut inner: Table<u64> = match self.approvals.remove(agent) {
            Some(inner) => inner,
            None => Table::new(),
        };
        inner.insert(name, now);
        self.approvals.insert(agent, inner);
        proof {
            let is = self.approvals@;
            assert(is =~= was.insert(agent@, inner));
            assert(by_pair(is) =~= by_pair(was).insert((agent@, name@), now));
        }
    }

    fn is_granted(&self, manifest: &Option<Manifest>, name: &str, now: u64) -> (r: bool)
        ensures
            r == granted(self@.grants, manifest_of(*manifest), name@, now),
    {
        match manifest {
            Some(m) => {
                let ghost grants = grants_of(self.grants@);
                let mut i: usize = 0;
                while i < self.grants.len()
                    invariant
                        i <= self.grants@.len(),
                        grants == grants_of(self.grants@),
                        manifest_of(*manifest) == Some(m@),
                        forall|j: int|
                            0 <= j < i ==> !grant_covers(#[trigger] grants[j], m@, name@, now),
                    decreases self.grants@.len() - i,
                {
                    assert(grants[i as int] == self.grants@[i as int]@);
                    if self.grants[i].covers(m, name, now) {
                        assert(grant_covers(grants[i as int], m@, name@, now));
                        return true;
                    }
                    i = i + 1;
                }
                false
            },
            None => false,
        }
    }
}

// ---------------------------------------------------------------------------------------------
// The steps of a request

/// What is answered once the record of it stands in the audit log.
pub enum Answer {
    /// A value that a token or a lease held
    Held(String),
    /// A secret that was looked up, which may be leased from now on
    Secret(Secret),
    /// A refusal
    Refusal(Problem),
    /// A token and the names it covers
    Token(String, Vec<String>),
}

/// How far a request has got.
pub enum Flow {
    /// Nothing was done yet
    Start,
    /// The key was asked for, to look the secret up
    Unlocking,
    /// The secret is being looked up. The key may have been asked for just now.
    Looking { asked: bool },
    /// This secret was asked for
    Confirming { secret: Secret },
    /// Everything that a manifest declares was asked for
    Declaring { secret: Secret, manifest: Manifest },
    /// The grants are being written
    Saving { secret: Secret },
    /// The record of the answer is being written
    Recording { answer: Answer },
    /// The key was asked for, to list the names
    ListUnlocking,
    /// The record of the listing is being written
    ListRecording,
    /// The names are being read
    Listing,
    /// The key was asked for, to mint a token
    GrantUnlocking,
    /// The secrets that a token may cover are being read
    GrantLoading,
    /// The request was answered
    Done,
}

/// What came of the last thing that was to be done.
pub enum Event {
    /// A request arrived
    Begin,
    /// The key was unlocked, and these grants read with it
    Unlocked { key: StoreKey, grants: Vec<Grant> },
    /// Every secret was read, in the order of their ids, along with the manifest of the caller's
    /// directory and a token to mint if there is one to mint
    Loaded {
        loaded: Vec<(String, Result<Secret, Problem>)>,
        manifest: Option<Manifest>,
        token: String,
    },
    /// The grants were written
    Saved,
    /// The audit log was written
    Recorded,
    /// What was to be done failed
    Failed(Problem),
}

/// What to do next.
pub enum Action {
    /// Raise a prompt with this reason, and unlock the key
    Ask(String),
    /// Read every secret
    Load,
    /// Write these grants
    Save(Vec<Grant>),
    /// Write a record for each of these secrets, by the key or, where there is none to use, by the
    /// store's recipient
    Record { secrets: Vec<String>, decision: String, by_key: bool },
    /// Answer the request
    Reply(Result<String, Problem>),
}

/// The action is to record this decision of this secret.
pub open spec fn records(action: Action, secret: Seq<char>, decision: Seq<char>, by_key: bool) -> bool {
    action matches Action::Record { secrets, decision: d, by_key: k } && texts(secrets@)
        == seq![secret] && d@ == decision && k == by_key
}

/// The action is to ask for the key with this reason.
pub open spec fn asks(action: Action, reason: Seq<char>) -> bool {
    action matches Action::Ask(r) && r@ == reason
}

/// The event is what the flow waits for.
pub open spec fn fits(flow: Flow, event: Event) -> bool {
    match event {
        Event::Begin => flow is Start,
        Event::Unlocked { .. } => flow is Unlocking || flow is Confirming || flow is Declaring
            || flow is ListUnlocking || flow is GrantUnlocking,
        Event::Loaded { .. } => flow is Looking || flow is Listing || flow is GrantLoading,
        Event::Saved => flow is Saving,
        Event::Recorded => flow is Recording || flow is ListRecording,
        Event::Failed(_) => !(flow is Done),
    }
}

/// No lease or grant that this step makes would end after the end of time.
pub open spec fn in_time(flow: Flow, event: Event, now: u64) -> bool {
    &&& now + MAX_GRANT_SECS <= u64::MAX
    &&& (flow matches Flow::Recording { answer: Answer::Secret(secret) } ==> now
        + secret.lease_secs <= u64::MAX)
    &&& (flow matches Flow::Declaring { secret: _, manifest } ==> now + manifest.window_secs
        <= u64::MAX)
}

/// How a read begins. A token is the narrowest thing that can answer, so it is tried first. Then a
/// lease, before the key, because a live lease is exactly the case where there is no key to use.
/// Reading the policy needs the key, so a cold broker asks before it can decide.
pub open spec fn begins_get(
    b: BrokerV,
    after: BrokerV,
    request: Request,
    now: u64,
    flow: Flow,
    action: Action,
) -> bool {
    let name = request.name@;
    let b1 = if request.token@.len() > 0 {
        BrokerV { tokens: unexpired(b.tokens, now), ..b }
    } else {
        b
    };
    if request.token@.len() > 0 && token_value(b.tokens, request.token@, name, now) is Some {
        &&& after == b1
        &&& flow matches Flow::Recording { answer: Answer::Held(value) } && token_value(
            b.tokens,
            request.token@,
            name,
            now,
        ) == Some(value@)
        &&& records(action, name, "by token"@, false)
    } else if b.leases.contains_key(name) && now < b.leases[name].1 {
        &&& after == b1
        &&& flow matches Flow::Recording { answer: Answer::Held(value) } && value@
            == b.leases[name].0
        &&& records(action, name, "within lease"@, false)
    } else {
        &&& after == cooled(BrokerV { leases: unexpired(b.leases, now), ..b1 }, now)
        &&& if after.key is Some {
            flow == (Flow::Looking { asked: false }) && action is Load
        } else {
            flow is Unlocking && asks(action, release_reason(request.agent@, name))
        }
    }
}

/// What a search of the loaded secrets came to.
pub open spec fn found(
    loaded: Seq<(String, Result<Secret, Problem>)>,
    name: Seq<char>,
) -> Result<Option<Secret>, Problem> {
    let i = search_end(loaded, name);
    if i >= loaded.len() {
        Ok(None)
    } else {
        match loaded[i].1 {
            Ok(secret) => Ok(Some(secret)),
            Err(e) => Err(e),
        }
    }
}

/// The secret is released, with this record of why.
pub open spec fn releases(
    flow: Flow,
    action: Action,
    secret: Secret,
    name: Seq<char>,
    why: Seq<char>,
) -> bool {
    flow == (Flow::Recording { answer: Answer::Secret(secret) }) && records(action, name, why, true)
}

/// What becomes of a read once the secret was looked up. One marked `never` is refused to an agent
/// and asked for every time where a person reads it, and a manifest never covers it. The unlock a
/// moment ago was itself the prompt, so one read is not asked for twice. The window runs from the
/// prompt, so a busy agent still asks again when it expires.
pub open spec fn judges(
    b: BrokerV,
    after: BrokerV,
    request: Request,
    asked: bool,
    secret: Secret,
    manifest: Option<Manifest>,
    now: u64,
    flow: Flow,
    action: Action,
) -> bool {
    let name = request.name@;
    let agent = request.agent@;
    let stamped = approved(b, agent, name, now);
    match decision(secret.mode, secret.window_secs, approval(b, agent, name), now) {
        Decision::Deny => if !request.interactive {
            &&& after == b
            &&& flow matches Flow::Recording {
                answer: Answer::Refusal(Problem::MarkedNever(n)),
            } && n@ == name
            &&& records(action, name, "denied"@, true)
        } else if asked {
            after == stamped && releases(flow, action, secret, name, "approved"@)
        } else {
            &&& after == b
            &&& flow == (Flow::Confirming { secret })
            &&& asks(action, release_reason(agent, name))
        },
        Decision::Prompt => if granted(b.grants, manifest_of(manifest), name, now) {
            after == b && releases(flow, action, secret, name, "project grant"@)
        } else if asked {
            after == stamped && releases(flow, action, secret, name, "approved"@)
        } else if manifest matches Some(m) && texts(m.secrets@).contains(name) {
            &&& after == b
            &&& flow == (Flow::Declaring { secret, manifest: manifest->0 })
            &&& asks(action, manifest_reason(agent, manifest->0@))
        } else {
            &&& after == b
            &&& flow == (Flow::Confirming { secret })
            &&& asks(action, release_reason(agent, name))
        },
        Decision::Allow => if asked {
            after == stamped && releases(flow, action, secret, name, "approved"@)
        } else {
            after == b && releases(flow, action, secret, name, "within window"@)
        },
    }
}

fn one(text: &str) -> (r: Vec<String>)
    ensures
        texts(r@) == seq![text@],
{
    let mut r: Vec<String> = Vec::new();
    r.push(text.to_string());
    assert(texts(r@) =~= seq![text@]);
    r
}

fn record(secret: &str, decision: &str, by_key: bool) -> (r: Action)
    ensures
        records(r, secret@, decision@, by_key),
{
    Action::Record { secrets: one(secret), decision: decision.to_string(), by_key }
}

fn ask_release(agent: &str, name: &str) -> (r: Action)
    ensures
        asks(r, release_reason(agent@, name@)),
{
    Action::Ask(cat4("release the password for ", name, " to ", agent))
}

fn ask_manifest(agent: &str, m: &Manifest) -> (r: Action)
    ensures
        asks(r, manifest_reason(agent@, m@)),
{
    let n = to_decimal(m.secrets.len() as u64);
    let minutes = to_decimal(m.window_secs / 60);
    let front = cat5("give ", agent, " access to ", n.as_str(), " secrets declared by ");
    let text = cat5(front.as_str(), m.dir.as_str(), " for ", minutes.as_str(), " minutes");
    assert(text@ =~= manifest_reason(agent@, m@));
    Action::Ask(text)
}

impl Broker {
    /// What a token still opens, with the lapsed ones dropped.
    pub fn value_for_token(&mut self, token: &str, name: &str, now: u64) -> (r: Option<String>)
        ensures
            final(self)@ == (BrokerV { tokens: unexpired(old(self)@.tokens, now), ..old(self)@ }),
            match r {
                Some(value) => token_value(old(self)@.tokens, token@, name@, now) == Some(value@),
                None => token_value(old(self)@.tokens, token@, name@, now) is None,
            },
    {
        drop_old_tokens(&mut self.tokens, now);
        token_lookup(&self.tokens, token, name, now)
    }

    fn begin_get(&mut self, request: &Request, now: u64) -> (r: (Flow, Action))
        ensures
            begins_get(old(self)@, final(self)@, *request, now, r.0, r.1),
    {
        let name = request.name.as_str();
        if to_chars(request.token.as_str()).len() > 0 {
            if let Some(value) = self.value_for_token(request.token.as_str(), name, now) {
                return (
                    Flow::Recording { answer: Answer::Held(value) },
                    record(name, "by token", false),
                );
            }
        }
        if let Some(lease) = self.leases.get(name) {
            if now < lease.until {
                let value = lease.value.clone();
                return (
                    Flow::Recording { answer: Answer::Held(value) },
                    record(name, "within lease", false),
                );
            }
        }
        drop_old_leases(&mut self.leases, now);
        if self.cached_key(now) {
            (Flow::Looking { asked: false }, Action::Load)
        } else {
            (Flow::Unlocking, ask_release(request.agent.as_str(), name))
        }
    }

    fn judge(
        &mut self,
        request: &Request,
        asked: bool,
        secret: Secret,
        manifest: Option<Manifest>,
        now: u64,
    ) -> (r: (Flow, Action))
        ensures
            judges(
                old(self)@,
                final(self)@,
                *request,
                asked,
                secret,
                manifest,
                now,
                r.0,
                r.1,
            ),
    {
        let name = request.name.as_str();
        let agent = request.agent.as_str();
        let at = self.approved_at(agent, name);
        match decide(secret.mode, secret.window_secs, at, now) {
            Decision::Deny => {
                if !request.interactive {
                    let answer = Answer::Refusal(Problem::MarkedNever(name.to_string()));
                    return (Flow::Recording { answer }, record(name, "denied", true));
                }
                if asked {
                    self.stamp(agent, name, now);
                    let answer = Answer::Secret(secret);
                    return (Flow::Recording { answer }, record(name, "approved", true));
                }
                (Flow::Confirming { secret }, ask_release(agent, name))
            },
            Decision::Prompt => {
                if self.is_granted(&manifest, name, now) {
                    let answer = Answer::Secret(secret);
                    return (Flow::Recording { answer }, record(name, "project grant", true));
                }
                if asked {
                    self.stamp(agent, name, now);
                    let answer = Answer::Secret(secret);
                    return (Flow::Recording { answer }, record(name, "approved", true));
                }
                if let Some(m) = manifest {
                    if has_text(&m.secrets, name) {
                        let action = ask_manifest(agent, &m);
                        return (Flow::Declaring { secret, manifest: m }, action);
                    }
                }
                (Flow::Confirming { secret }, ask_release(agent, name))
            },
            Decision::Allow => {
                let answer = Answer::Secret(secret);
                if asked {
                    self.stamp(agent, name, now);
                    (Flow::Recording { answer }, record(name, "approved", true))
                } else {
                    (Flow::Recording { answer }, record(name, "within window", true))
                }
            },
        }
    }
}

// ---------------------------------------------------------------------------------------------
// Minting a token

/// What was loaded, without the ids.
pub open spec fn results_of(loaded: Seq<(String, Result<Secret, Problem>)>) -> Seq<
    Result<Secret, Problem>,
> {
    loaded.map_values(|x: (String, Result<Secret, Problem>)| x.1)
}

/// Every one was loaded.
pub open spec fn all_loaded(loaded: Seq<(String, Result<Secret, Problem>)>) -> bool {
    forall|i: int| 0 <= i < loaded.len() ==> (#[trigger] loaded[i]).1 is Ok
}

/// The pattern is the name of some secret, or a namespace with one in it.
pub open spec fn matches_some(
    loaded: Seq<(String, Result<Secret, Problem>)>,
    pattern: Seq<char>,
) -> bool {
    exists|i: int|
        0 <= i < loaded.len() && selected((#[trigger] loaded[i]).1->Ok_0.name@, pattern)
}

/// One of the patterns selects the name.
pub open spec fn wanted_by(patterns: Seq<Seq<char>>, name: Seq<char>) -> bool {
    exists|j: int| 0 <= j < patterns.len() && selected(name, #[trigger] patterns[j])
}

/// A token for these patterns opens this name: one of them selects it, and the secret is not marked
/// `never`, which is never released to anything holding a token either.
pub open spec fn grantable(
    loaded: Seq<(String, Result<Secret, Problem>)>,
    patterns: Seq<Seq<char>>,
    name: Seq<char>,
) -> bool {
    wanted_by(patterns, name) && (found(loaded, name) matches Ok(Some(secret)) && secret.mode
        != Mode::Never)
}

/// Everything that a token for these patterns opens.
pub open spec fn coverage(
    loaded: Seq<(String, Result<Secret, Problem>)>,
    patterns: Seq<Seq<char>>,
) -> Map<Seq<char>, Seq<char>> {
    Map::new(
        |name: Seq<char>| grantable(loaded, patterns, name),
        |name: Seq<char>| found(loaded, name)->Ok_0->Some_0.value@,
    )
}

/// A token is minted, or refused for the first reason there is.
pub open spec fn mints(
    b: BrokerV,
    after: BrokerV,
    request: Request,
    loaded: Seq<(String, Result<Secret, Problem>)>,
    token: Seq<char>,
    now: u64,
    flow: Flow,
    action: Action,
) -> bool {
    let patterns = texts(request.names@);
    let covered = coverage(loaded, patterns);
    match action {
        Action::Reply(Err(e)) => {
            &&& after == b
            &&& flow is Done
            &&& if !all_loaded(loaded) {
                let i = first_failure(results_of(loaded));
                0 <= i < loaded.len() && loaded[i].1 == Err::<Secret, Problem>(e)
            } else {
                match e {
                    Problem::NothingUnder(p) => exists|j: int|
                        0 <= j < patterns.len() && p@ == #[trigger] patterns[j] && !matches_some(
                            loaded,
                            patterns[j],
                        ) && forall|k: int|
                            0 <= k < j ==> matches_some(loaded, #[trigger] patterns[k]),
                    Problem::OnlyNever(names) => names@ == join(patterns, ", "@)
                        && covered.dom() == Set::<Seq<char>>::empty() && forall|k: int|
                        0 <= k < patterns.len() ==> matches_some(loaded, #[trigger] patterns[k]),
                    _ => false,
                }
            }
        },
        Action::Record { secrets, decision, by_key } => {
            &&& all_loaded(loaded)
            &&& forall|k: int|
                0 <= k < patterns.len() ==> matches_some(loaded, #[trigger] patterns[k])
            &&& covered.dom() != Set::<Seq<char>>::empty()
            &&& after == (BrokerV {
                tokens: b.tokens.insert(token, (covered, (now + token_ttl(request.ttl)) as u64)),
                ..b
            })
            &&& flow matches Flow::Recording { answer: Answer::Token(t, names) } && t@ == token
                && texts(names@) == texts(secrets@)
            &&& texts(secrets@) == in_order(covered.dom())
            &&& texts(secrets@).to_set() == covered.dom()
            &&& decision@ == "granted"@
            &&& by_key
        },
        _ => false,
    }
}

proof fn lemma_first_failure(loaded: Seq<(String, Result<Secret, Problem>)>, i: int)
    requires
        0 <= i < loaded.len(),
        loaded[i].1 is Err,
        forall|j: int| 0 <= j < i ==> (#[trigger] loaded[j]).1 is Ok,
    ensures
        first_failure(results_of(loaded)) == i,
    decreases i,
{
    let r = results_of(loaded);
    if i > 0 {
        assert(r[0] == loaded[0].1);
        let rest = loaded.drop_first();
        assert(results_of(rest) =~= r.drop_first());
        assert forall|j: int| 0 <= j < i - 1 implies (#[trigger] rest[j]).1 is Ok by {
            assert(rest[j] == loaded[j + 1]);
        }
        lemma_first_failure(rest, i - 1);
    } else {
        assert(r[0] == loaded[0].1);
    }
}

proof fn lemma_search(loaded: Seq<(String, Result<Secret, Problem>)>, name: Seq<char>)
    requires
        all_loaded(loaded),
    ensures
        0 <= search_end(loaded, name) <= loaded.len(),
        search_end(loaded, name) < loaded.len() ==> loaded[search_end(
            loaded,
            name,
        )].1->Ok_0.name@ == name,
        (exists|i: int| 0 <= i < loaded.len() && (#[trigger] loaded[i]).1->Ok_0.name@ == name)
            ==> search_end(loaded, name) < loaded.len(),
    decreases loaded.len(),
{
    if loaded.len() > 0 {
        assert(loaded[0].1 is Ok);
        if !is_end(loaded[0], name) {
            let rest = loaded.drop_first();
            assert forall|i: int| 0 <= i < rest.len() implies (#[trigger] rest[i]).1 is Ok by {
                assert(rest[i] == loaded[i + 1]);
            }
            lemma_search(rest, name);
            if exists|i: int| 0 <= i < loaded.len() && (#[trigger] loaded[i]).1->Ok_0.name@ == name {
                let i = choose|i: int|
                    0 <= i < loaded.len() && (#[trigger] loaded[i]).1->Ok_0.name@ == name;
                assert(rest[i - 1].1->Ok_0.name@ == name);
            }
        }
    }
}

/// The names of what was loaded, as far as it was.
fn loaded_names(loaded: &Vec<(String, Result<Secret, Problem>)>) -> (r: Vec<String>)
    requires
        all_loaded(loaded@),
    ensures
        r@.len() == loaded@.len(),
        forall|i: int| 0 <= i < r@.len() ==> (#[trigger] r@[i])@ == loaded@[i].1->Ok_0.name@,
{
    let mut out: Vec<String> = Vec::new();
    let mut i: usize = 0;
    while i < loaded.len()
        invariant
            i <= loaded@.len(),
            all_loaded(loaded@),
            out@.len() == i,
            forall|k: int| 0 <= k < i ==> (#[trigger] out@[k])@ == loaded@[k].1->Ok_0.name@,
        decreases loaded@.len() - i,
    {
        assert(loaded@[i as int].1 is Ok);
        if let Ok(secret) = &loaded[i].1 {
            out.push(secret.name.clone());
        }
        i = i + 1;
    }
    out
}

/// The pattern selects one of the names.
spec fn some_selected(names: Seq<Seq<char>>, pattern: Seq<char>) -> bool {
    exists|n: Seq<char>| names.contains(n) && #[trigger] selected(n, pattern)
}

/// Every name that one of the patterns selects, in order, or the first pattern that selects none.
fn gather(all: &Vec<String>, patterns: &Vec<String>) -> (r: Result<Vec<String>, usize>)
    ensures
        match r {
            Ok(wanted) => {
                &&& crate::order::ascending(texts(wanted@))
                &&& forall|n: Seq<char>| #[trigger]
                    texts(wanted@).contains(n) <==> texts(all@).contains(n) && wanted_by(
                        texts(patterns@),
                        n,
                    )
                &&& forall|j: int|
                    0 <= j < patterns@.len() ==> some_selected(
                        texts(all@),
                        #[trigger] texts(patterns@)[j],
                    )
            },
            Err(j) => {
                &&& j < patterns@.len()
                &&& !some_selected(texts(all@), texts(patterns@)[j as int])
                &&& forall|k: int|
                    0 <= k < j ==> some_selected(texts(all@), #[trigger] texts(patterns@)[k])
            },
        },
{
    let ghost names = texts(all@);
    let ghost pats = texts(patterns@);
    let mut wanted: Vec<String> = Vec::new();
    let mut i: usize = 0;
    while i < patterns.len()
        invariant
            i <= patterns@.len(),
            names == texts(all@),
            pats == texts(patterns@),
            forall|n: Seq<char>| #[trigger]
                texts(wanted@).contains(n) <==> names.contains(n) && wanted_by(
                    pats.take(i as int),
                    n,
                ),
            forall|j: int| 0 <= j < i ==> some_selected(names, #[trigger] pats[j]),
        decreases patterns@.len() - i,
    {
        assert(pats[i as int] == patterns@[i as int]@);
        let ghost p = pats[i as int];
        let mut matched = select(all, Some(patterns[i].as_str()));
        let ghost got = texts(matched@);
        proof {
            lemma_selection(names, p);
        }
        if matched.len() == 0 {
            assert forall|n: Seq<char>| names.contains(n) implies !(#[trigger] selected(n, p)) by {
                if selected(n, p) {
                    assert(got.contains(n));
                }
            }
            return Err(i);
        }
        assert(got.contains(got[0]));
        assert(selected(got[0], p));
        assert(some_selected(names, p));
        let ghost before = texts(wanted@);
        wanted.append(&mut matched);
        proof {
            let now = texts(wanted@);
            assert(now =~= before + got);
            assert forall|n: Seq<char>| #[trigger] now.contains(n) <==> names.contains(n)
                && wanted_by(pats.take(i + 1), n) by {
                lemma_contains_add(before, got, n);
                lemma_wanted_push(pats, i as int, n);
            }
        }
        i = i + 1;
    }
    assert(pats.take(i as int) =~= pats);
    let sorted = sort_dedup(&wanted);
    proof {
        assert forall|n: Seq<char>| #[trigger] texts(sorted@).contains(n) <==> names.contains(n)
            && wanted_by(pats, n) by {
            assert(texts(sorted@).to_set().contains(n) == texts(wanted@).to_set().contains(n));
            assert(texts(wanted@).contains(n) <==> names.contains(n) && wanted_by(pats, n));
        }
    }
    Ok(sorted)
}

/// What two lists together hold, one of them holds.
pub proof fn lemma_contains_add(a: Seq<Seq<char>>, b: Seq<Seq<char>>, n: Seq<char>)
    ensures
        (a + b).contains(n) <==> a.contains(n) || b.contains(n),
{
    if a.contains(n) {
        let k = choose|k: int| 0 <= k < a.len() && a[k] == n;
        assert((a + b)[k] == n);
    }
    if b.contains(n) {
        let k = choose|k: int| 0 <= k < b.len() && b[k] == n;
        assert((a + b)[a.len() + k] == n);
    }
}

proof fn lemma_wanted_push(pats: Seq<Seq<char>>, i: int, n: Seq<char>)
    requires
        0 <= i < pats.len(),
    ensures
        wanted_by(pats.take(i + 1), n) <==> wanted_by(pats.take(i), n) || selected(n, pats[i]),
{
    let a = pats.take(i + 1);
    let b = pats.take(i);
    if wanted_by(a, n) {
        let j = choose|j: int| 0 <= j < a.len() && selected(n, #[trigger] a[j]);
        if j < i {
            assert(b[j] == a[j]);
        }
    }
    if wanted_by(b, n) {
        let j = choose|j: int| 0 <= j < b.len() && selected(n, #[trigger] b[j]);
        assert(a[j] == b[j]);
    }
    assert(a[i] == pats[i]);
}

proof fn lemma_selection(names: Seq<Seq<char>>, p: Seq<char>)
    ensures
        forall|n: Seq<char>| #[trigger]
            selection(names, Some(p)).contains(n) <==> names.contains(n) && selected(n, p),
    decreases names.len(),
{
    reveal(Seq::filter);
    if names.len() > 0 {
        let front = names.drop_last();
        lemma_selection(front, p);
        let before = selection(front, Some(p));
        let now = selection(names, Some(p));
        assert forall|n: Seq<char>| #[trigger] now.contains(n) <==> names.contains(n) && selected(
            n,
            p,
        ) by {
            assert(before.contains(n) <==> front.contains(n) && selected(n, p));
            lemma_contains_add(front, seq![names.last()], n);
            assert(names =~= front + seq![names.last()]);
            assert(seq![names.last()].contains(n) <==> n == names.last()) by {
                assert(seq![names.last()][0] == names.last());
            }
            if selected(names.last(), p) {
                assert(now =~= before + seq![names.last()]);
                lemma_contains_add(before, seq![names.last()], n);
            } else {
                assert(now == before);
            }
        }
    }
}

/// The values that a token opens, and their names in order.
fn cover(
    store: &Store,
    loaded: &Vec<(String, Result<Secret, Problem>)>,
    wanted: &Vec<String>,
    patterns: Ghost<Seq<Seq<char>>>,
) -> (r: (Table<String>, Vec<String>))
    requires
        all_loaded(loaded@),
        crate::order::ascending(texts(wanted@)),
        forall|n: Seq<char>| #[trigger]
            texts(wanted@).contains(n) <==> (exists|i: int|
                0 <= i < loaded@.len() && (#[trigger] loaded@[i]).1->Ok_0.name@ == n) && wanted_by(
                patterns@,
                n,
            ),
    ensures
        deep(r.0@) == coverage(loaded@, patterns@),
        texts(r.1@) == in_order(coverage(loaded@, patterns@).dom()),
        texts(r.1@).to_set() == coverage(loaded@, patterns@).dom(),
{
    let mut values: Table<String> = Table::new();
    let mut granted: Vec<String> = Vec::new();
    let ghost all = texts(wanted@);
    let ghost covered = coverage(loaded@, patterns@);
    let mut i: usize = 0;
    proof {
        reveal(Seq::filter);
        assert forall|k: int| 0 <= k < all.len() implies wanted_by(patterns@, #[trigger] all[k]) by {
            assert(all.contains(all[k]));
        }
    }
    while i < wanted.len()
        invariant
            i <= wanted@.len(),
            all == texts(wanted@),
            all_loaded(loaded@),
            covered == coverage(loaded@, patterns@),
            forall|k: int| 0 <= k < all.len() ==> wanted_by(patterns@, #[trigger] all[k]),
            forall|n: Seq<char>| #[trigger]
                values@.contains_key(n) <==> covered.contains_key(n) && all.take(
                    i as int,
                ).contains(n),
            forall|n: Seq<char>| #[trigger]
                values@.contains_key(n) ==> values@[n]@ == covered[n],
            texts(granted@) == all.take(i as int).filter(|n: Seq<char>| covered.contains_key(n)),
        decreases wanted@.len() - i,
    {
        let name = wanted[i].as_str();
        assert(all[i as int] == name@);
        let ghost before = values@;
        let ghost before_names = texts(granted@);
        proof {
            lemma_search(loaded@, name@);
            reveal(Seq::filter);
            assert(all.take(i + 1).drop_last() =~= all.take(i as int));
            assert(all.take(i + 1).last() == name@);
            assert forall|n: Seq<char>| #[trigger] all.take(i + 1).contains(n) <==> all.take(
                i as int,
            ).contains(n) || n == name@ by {
                assert(all.take(i + 1) =~= all.take(i as int) + seq![name@]);
                lemma_contains_add(all.take(i as int), seq![name@], n);
                assert(seq![name@].contains(n) <==> n == name@) by {
                    assert(seq![name@][0] == name@);
                }
            }
        }
        let at = store.find_index(name, loaded);
        if at < loaded.len() {
            assert(loaded@[at as int].1 is Ok);
            if let Ok(secret) = &loaded[at].1 {
                if secret.mode != Mode::Never {
                    values.insert(name, secret.value.clone());
                    granted.push(name.to_string());
                    assert(texts(granted@) =~= before_names.push(name@));
                    assert(covered.contains_key(name@));
                } else {
                    assert(!covered.contains_key(name@));
                }
            }
        } else {
            assert(!covered.contains_key(name@));
        }
        i = i + 1;
    }
    proof {
        assert(all.take(i as int) =~= all);
        assert forall|n: Seq<char>| covered.contains_key(n) implies all.contains(n) by {
            lemma_search(loaded@, n);
            let k = search_end(loaded@, n);
            assert(loaded@[k].1->Ok_0.name@ == n);
        }
        assert(deep(values@) =~= covered);
        let keep = |n: Seq<char>| covered.contains_key(n);
        lemma_filter_ascending(all, keep);
        let names = texts(granted@);
        assert(names.to_set() =~= covered.dom());
        crate::order::lemma_in_order(names);
    }
    (values, granted)
}

proof fn lemma_filter_ascending(v: Seq<Seq<char>>, keep: spec_fn(Seq<char>) -> bool)
    requires
        crate::order::ascending(v),
    ensures
        crate::order::ascending(v.filter(keep)),
        forall|n: Seq<char>| #[trigger] v.filter(keep).contains(n) <==> v.contains(n) && keep(n),
    decreases v.len(),
{
    reveal(Seq::filter);
    if v.len() > 0 {
        let front = v.drop_last();
        let last = v.last();
        assert forall|i: int, j: int| 0 <= i < j < front.len() implies crate::order::less(
            #[trigger] front[i],
            #[trigger] front[j],
        ) by {
            assert(front[i] == v[i] && front[j] == v[j]);
        }
        lemma_filter_ascending(front, keep);
        let f = front.filter(keep);
        assert(v =~= front + seq![last]);
        assert forall|n: Seq<char>| seq![last].contains(n) <==> n == last by {
            assert(seq![last][0] == last);
        }
        if keep(last) {
            let g = f.push(last);
            assert(v.filter(keep) == g);
            assert forall|i: int, j: int| 0 <= i < j < g.len() implies crate::order::less(
                #[trigger] g[i],
                #[trigger] g[j],
            ) by {
                if j < f.len() {
                    assert(g[i] == f[i] && g[j] == f[j]);
                } else {
                    assert(g[i] == f[i]);
                    assert(f.contains(f[i]));
                    let k = choose|k: int| 0 <= k < front.len() && front[k] == f[i];
                    assert(v[k] == f[i] && v[v.len() - 1] == last);
                }
            }
            assert forall|n: Seq<char>| #[trigger] v.filter(keep).contains(n) <==> v.contains(n)
                && keep(n) by {
                assert(g =~= f + seq![last]);
                lemma_contains_add(f, seq![last], n);
                lemma_contains_add(front, seq![last], n);
            }
        } else {
            assert forall|n: Seq<char>| #[trigger] v.filter(keep).contains(n) <==> v.contains(n)
                && keep(n) by {
                assert(f.contains(n) <==> front.contains(n) && keep(n));
                lemma_contains_add(front, seq![last], n);
            }
        }
    }
}

impl Broker {
    /// One approval covers a name or a whole namespace, and yields a token that opens exactly
    /// those. Asking for twenty secrets one at a time is twenty prompts to do one thing.
    fn mint(
        &mut self,
        request: &Request,
        loaded: Vec<(String, Result<Secret, Problem>)>,
        token: String,
        now: u64,
    ) -> (r: (Flow, Action))
        requires
            now + MAX_GRANT_SECS <= u64::MAX,
        ensures
            mints(old(self)@, final(self)@, *request, loaded@, token@, now, r.0, r.1),
    {
        let mut loaded = loaded;
        let ghost all = loaded@;
        let ghost patterns = texts(request.names@);
        let mut i: usize = 0;
        while i < loaded.len() && loaded[i].1.is_ok()
            invariant
                i <= loaded@.len(),
                loaded@ == all,
                forall|j: int| 0 <= j < i ==> (#[trigger] all[j]).1 is Ok,
            decreases loaded@.len() - i,
        {
            i = i + 1;
        }
        if i < loaded.len() {
            proof {
                lemma_first_failure(all, i as int);
            }
            assert(all[i as int].1 is Err);
            if let (_, Err(e)) = loaded.remove(i) {
                return (Flow::Done, Action::Reply(Err(e)));
            }
        }
        assert(all_loaded(all));
        let names = loaded_names(&loaded);
        proof {
            assert forall|p: Seq<char>| some_selected(texts(names@), p) == matches_some(all, p) by {
                lemma_some_selected(all, texts(names@), p);
            }
        }
        let wanted = match gather(&names, &request.names) {
            Ok(wanted) => wanted,
            Err(j) => {
                let p = request.names[j].clone();
                assert(patterns[j as int] == p@);
                return (Flow::Done, Action::Reply(Err(Problem::NothingUnder(p))));
            },
        };
        proof {
            assert forall|n: Seq<char>| #[trigger] texts(wanted@).contains(n) <==> (exists|k: int|
                0 <= k < all.len() && (#[trigger] all[k]).1->Ok_0.name@ == n) && wanted_by(
                patterns,
                n,
            ) by {
                let ns = texts(names@);
                if ns.contains(n) {
                    let k = choose|k: int| 0 <= k < ns.len() && ns[k] == n;
                    assert(names@[k]@ == n);
                    assert(all[k].1->Ok_0.name@ == n);
                }
                if exists|k: int| 0 <= k < all.len() && (#[trigger] all[k]).1->Ok_0.name@ == n {
                    let k = choose|k: int|
                        0 <= k < all.len() && (#[trigger] all[k]).1->Ok_0.name@ == n;
                    assert(names@[k]@ == n);
                    assert(ns[k] == n);
                }
            }
        }
        let (values, granted) = cover(&self.store, &loaded, &wanted, Ghost(patterns));
        let ghost covered = coverage(all, patterns);
        if granted.len() == 0 {
            let listed = join_texts(&request.names, ", ");
            assert(covered.dom() =~= Set::<Seq<char>>::empty()) by {
                assert(texts(granted@).to_set() =~= Set::<Seq<char>>::empty());
            }
            return (Flow::Done, Action::Reply(Err(Problem::OnlyNever(listed))));
        }
        assert(covered.dom().contains(texts(granted@)[0])) by {
            assert(texts(granted@).to_set().contains(texts(granted@)[0]));
        }
        let ttl = grant_ttl(request.ttl);
        let expires: u64 = now + ttl;
        let ghost before = deep(self.tokens@);
        self.tokens.insert(token.as_str(), TokenGrant { values, expires });
        assert(deep(self.tokens@) =~= before.insert(token@, (covered, expires)));
        let secrets = copy_texts(&granted);
        (
            Flow::Recording { answer: Answer::Token(token, granted) },
            Action::Record { secrets, decision: "granted".to_string(), by_key: true },
        )
    }
}

proof fn lemma_some_selected(
    all: Seq<(String, Result<Secret, Problem>)>,
    names: Seq<Seq<char>>,
    p: Seq<char>,
)
    requires
        names.len() == all.len(),
        forall|i: int| 0 <= i < names.len() ==> #[trigger] names[i] == all[i].1->Ok_0.name@,
    ensures
        some_selected(names, p) == matches_some(all, p),
{
    if some_selected(names, p) {
        let n = choose|n: Seq<char>| names.contains(n) && #[trigger] selected(n, p);
        let k = choose|k: int| 0 <= k < names.len() && names[k] == n;
        assert(selected(all[k].1->Ok_0.name@, p));
    }
    if matches_some(all, p) {
        let k = choose|k: int|
            0 <= k < all.len() && selected((#[trigger] all[k]).1->Ok_0.name@, p);
        assert(names[k] == all[k].1->Ok_0.name@);
        assert(names.contains(names[k]));
    }
}

// ---------------------------------------------------------------------------------------------
// Every step

/// How a listing begins. Names are inside the ciphertext, so listing needs the key and therefore a
/// prompt. It gets its own window: riding the approval of one secret would turn it into all of them.
pub open spec fn begins_list(
    b: BrokerV,
    after: BrokerV,
    request: Request,
    now: u64,
    flow: Flow,
    action: Action,
) -> bool {
    let agent = request.agent@;
    &&& after == cooled(b, now)
    &&& if after.key is Some && carries(DEFAULT_WINDOW_SECS, approval(b, agent, LIST_SLOT@), now) {
        flow is ListRecording && records(action, "<list>"@, "within window"@, true)
    } else {
        flow is ListUnlocking && asks(action, list_reason(agent))
    }
}

/// The names of all that was loaded, one to a line.
pub open spec fn lists(loaded: Seq<(String, Result<Secret, Problem>)>, action: Action) -> bool {
    let results = results_of(loaded);
    match action {
        Action::Reply(Ok(text)) => first_failure(results) == results.len() && exists|
            names: Seq<Seq<char>>,
        |
            sorted(names) && #[trigger] names.to_multiset() == names_of(results).to_multiset()
                && text@ == join(names, "\n"@),
        Action::Reply(Err(e)) => first_failure(results) < results.len() && results[first_failure(
            results,
        )] == Err::<Secret, Problem>(e),
        _ => false,
    }
}

/// The broker after a value was released: it may hold the value from now on, where the secret asks
/// for that. One marked `never` is not held, since whoever asks next may be an agent.
pub open spec fn leased(b: BrokerV, name: Seq<char>, secret: Secret, now: u64) -> BrokerV {
    if secret.lease_secs > 0 && secret.mode != Mode::Never {
        BrokerV {
            leases: b.leases.insert(
                name,
                (secret.value@, (now + secret.lease_secs) as u64),
            ),
            ..b
        }
    } else {
        b
    }
}

/// The answer is given.
pub open spec fn answers(
    b: BrokerV,
    after: BrokerV,
    name: Seq<char>,
    answer: Answer,
    now: u64,
    action: Action,
) -> bool {
    match answer {
        Answer::Held(value) => after == b && (action matches Action::Reply(Ok(v)) && v@ == value@),
        Answer::Secret(secret) => after == leased(b, name, secret, now) && (action matches Action::Reply(
            Ok(v),
        ) && v@ == secret.value@),
        Answer::Refusal(e) => after == b && action == Action::Reply(Err::<String, Problem>(e)),
        Answer::Token(token, names) => after == b && (action matches Action::Reply(Ok(v)) && v@
            == token@ + "\n"@ + join(texts(names@), "\n"@)),
    }
}

/// The grant that approving a manifest makes.
pub open spec fn new_grant(m: ManifestV, now: u64) -> GrantV {
    GrantV {
        dir: m.dir,
        hash: m.hash,
        secrets: m.secrets,
        until: (now + m.window_secs) as u64,
    }
}

/// What a step does: to the broker, to how far the request has got, and what is to be done next.
pub open spec fn steps(
    b: BrokerV,
    after: BrokerV,
    request: Request,
    flow: Flow,
    event: Event,
    now: u64,
    next: Flow,
    action: Action,
) -> bool {
    let name = request.name@;
    let agent = request.agent@;
    match (flow, event) {
        (_, Event::Failed(e)) => after == b && next is Done && action == Action::Reply(
            Err::<String, Problem>(e),
        ),
        (Flow::Start, Event::Begin) => match request.op {
            Op::Get => begins_get(b, after, request, now, next, action),
            Op::List => begins_list(b, after, request, now, next, action),
            Op::Grant => after == b && next is GrantUnlocking && asks(
                action,
                grant_reason(texts(request.names@), agent, request.ttl),
            ),
        },
        (Flow::Unlocking, Event::Unlocked { key, grants }) => after == unlocked(
            b,
            key@,
            grants_of(grants@),
            now,
        ) && next == (Flow::Looking { asked: true }) && action is Load,
        (Flow::Confirming { secret }, Event::Unlocked { key, grants }) => after == approved(
            unlocked(b, key@, grants_of(grants@), now),
            agent,
            name,
            now,
        ) && releases(next, action, secret, name, "approved"@),
        (Flow::Declaring { secret, manifest }, Event::Unlocked { key, grants }) => {
            let held = grants_of(grants@).push(new_grant(manifest@, now));
            &&& after == unlocked(b, key@, held, now)
            &&& next == (Flow::Saving { secret })
            &&& action matches Action::Save(g) && grants_of(g@) == held
        },
        (Flow::ListUnlocking, Event::Unlocked { key, grants }) => after == approved(
            unlocked(b, key@, grants_of(grants@), now),
            agent,
            LIST_SLOT@,
            now,
        ) && next is ListRecording && records(action, "<list>"@, "approved"@, true),
        (Flow::GrantUnlocking, Event::Unlocked { key, grants }) => after == unlocked(
            b,
            key@,
            grants_of(grants@),
            now,
        ) && next is GrantLoading && action is Load,
        (Flow::Looking { asked }, Event::Loaded { loaded, manifest, token: _ }) => match found(
            loaded@,
            name,
        ) {
            Err(e) => after == b && next is Done && action == Action::Reply(
                Err::<String, Problem>(e),
            ),
            Ok(None) => {
                &&& after == b
                &&& next matches Flow::Recording {
                    answer: Answer::Refusal(Problem::NoSecret(n)),
                } && n@ == name
                &&& records(action, name, "unknown"@, true)
            },
            Ok(Some(secret)) => judges(
                b,
                after,
                request,
                asked,
                secret,
                manifest,
                now,
                next,
                action,
            ),
        },
        (Flow::Listing, Event::Loaded { loaded, manifest: _, token: _ }) => after == b
            && next is Done && lists(loaded@, action),
        (Flow::GrantLoading, Event::Loaded { loaded, manifest: _, token }) => mints(
            b,
            after,
            request,
            loaded@,
            token@,
            now,
            next,
            action,
        ),
        (Flow::Saving { secret }, Event::Saved) => after == b && releases(
            next,
            action,
            secret,
            name,
            "project grant"@,
        ),
        (Flow::ListRecording, Event::Recorded) => after == b && next is Listing && action is Load,
        (Flow::Recording { answer }, Event::Recorded) => next is Done && answers(
            b,
            after,
            name,
            answer,
            now,
            action,
        ),
        _ => false,
    }
}

fn reply(value: String) -> (r: (Flow, Action))
    ensures
        r.0 is Done,
        r.1 == Action::Reply(Ok::<String, Problem>(value)),
{
    (Flow::Done, Action::Reply(Ok(value)))
}

fn refuse(e: Problem) -> (r: (Flow, Action))
    ensures
        r.0 is Done,
        r.1 == Action::Reply(Err::<String, Problem>(e)),
{
    (Flow::Done, Action::Reply(Err(e)))
}

/// What was loaded, without the ids.
fn results(loaded: Vec<(String, Result<Secret, Problem>)>) -> (r: Vec<Result<Secret, Problem>>)
    ensures
        r@ == results_of(loaded@),
{
    let mut loaded = loaded;
    let ghost all = loaded@;
    let ghost mut i: int = 0;
    let mut out: Vec<Result<Secret, Problem>> = Vec::new();
    assert(loaded@ =~= all.skip(0));
    while loaded.len() > 0
        invariant
            0 <= i <= all.len(),
            loaded@ == all.skip(i),
            out@ == results_of(all).take(i),
        decreases loaded@.len(),
    {
        let (_, secret) = loaded.remove(0);
        assert(loaded@ =~= all.skip(i + 1));
        out.push(secret);
        assert(out@ =~= results_of(all).take(i + 1));
        proof {
            i = i + 1;
        }
    }
    assert(results_of(all).take(i) =~= results_of(all));
    out
}

impl Broker {
    fn begin_list(&mut self, request: &Request, now: u64) -> (r: (Flow, Action))
        ensures
            begins_list(old(self)@, final(self)@, *request, now, r.0, r.1),
    {
        let agent = request.agent.as_str();
        let at = self.approved_at(agent, LIST_SLOT);
        if self.cached_key(now) && decide(Mode::Window, DEFAULT_WINDOW_SECS, at, now)
            == Decision::Allow {
            (Flow::ListRecording, record("<list>", "within window", true))
        } else {
            (Flow::ListUnlocking, Action::Ask(cat2("list your secret names for ", agent)))
        }
    }

    fn after_unlock(
        &mut self,
        request: &Request,
        flow: Flow,
        key: StoreKey,
        grants: Vec<Grant>,
        now: u64,
    ) -> (r: (Flow, Action))
        requires
            fits(flow, Event::Unlocked { key, grants }),
            in_time(flow, Event::Unlocked { key, grants }, now),
        ensures
            steps(
                old(self)@,
                final(self)@,
                *request,
                flow,
                Event::Unlocked { key, grants },
                now,
                r.0,
                r.1,
            ),
    {
        let name = request.name.as_str();
        let agent = request.agent.as_str();
        match flow {
            Flow::Unlocking => {
                self.unlock(key, grants, now);
                (Flow::Looking { asked: true }, Action::Load)
            },
            Flow::Confirming { secret } => {
                self.unlock(key, grants, now);
                self.stamp(agent, name, now);
                (
                    Flow::Recording { answer: Answer::Secret(secret) },
                    record(name, "approved", true),
                )
            },
            Flow::Declaring { secret, manifest } => {
                let ghost was = grants_of(grants@);
                let mut held = grants;
                let grant = Grant {
                    dir: manifest.dir.clone(),
                    hash: manifest.hash.clone(),
                    secrets: copy_texts(&manifest.secrets),
                    until: now + manifest.window_secs,
                };
                assert(grant@ =~= new_grant(manifest@, now));
                held.push(grant);
                assert(grants_of(held@) =~= was.push(new_grant(manifest@, now)));
                let saved = copy_grants(&held);
                self.unlock(key, held, now);
                (Flow::Saving { secret }, Action::Save(saved))
            },
            Flow::ListUnlocking => {
                self.unlock(key, grants, now);
                self.stamp(agent, LIST_SLOT, now);
                (Flow::ListRecording, record("<list>", "approved", true))
            },
            _ => {
                self.unlock(key, grants, now);
                (Flow::GrantLoading, Action::Load)
            },
        }
    }

    fn after_record(&mut self, request: &Request, answer: Answer, now: u64) -> (r: (Flow, Action))
        requires
            answer matches Answer::Secret(secret) ==> now + secret.lease_secs <= u64::MAX,
        ensures
            r.0 is Done,
            answers(old(self)@, final(self)@, request.name@, answer, now, r.1),
    {
        match answer {
            Answer::Held(value) => reply(value),
            Answer::Secret(secret) => {
                let mut secret = secret;
                let value = secret.value.clone();
                if secret.lease_secs > 0 && secret.mode != Mode::Never {
                    let ghost before = deep(self.leases@);
                    let until: u64 = now + secret.lease_secs;
                    self.leases.insert(
                        request.name.as_str(),
                        Lease { value: secret.value.clone(), until },
                    );
                    assert(deep(self.leases@) =~= before.insert(
                        request.name@,
                        (secret.value@, until),
                    ));
                }
                secret.wipe();
                reply(value)
            },
            Answer::Refusal(e) => refuse(e),
            Answer::Token(token, names) => {
                let listed = join_texts(&names, "\n");
                reply(cat3(token.as_str(), "\n", listed.as_str()))
            },
        }
    }

    /// Take the next step of a request.
    pub fn handle(&mut self, request: &Request, flow: Flow, event: Event, now: u64) -> (r: (
        Flow,
        Action,
    ))
        requires
            fits(flow, event),
            in_time(flow, event, now),
        ensures
            steps(old(self)@, final(self)@, *request, flow, event, now, r.0, r.1),
    {
        match event {
            Event::Failed(e) => refuse(e),
            Event::Begin => match request.op {
                Op::Get => self.begin_get(request, now),
                Op::List => self.begin_list(request, now),
                Op::Grant => {
                    let ttl = to_decimal(grant_ttl(request.ttl));
                    let listed = join_texts(&request.names, ", ");
                    let front = cat5("grant ", listed.as_str(), " to ", request.agent.as_str(), " for ");
                    let reason = cat3(front.as_str(), ttl.as_str(), "s");
                    assert(reason@ =~= grant_reason(
                        texts(request.names@),
                        request.agent@,
                        request.ttl,
                    ));
                    (Flow::GrantUnlocking, Action::Ask(reason))
                },
            },
            Event::Unlocked { key, grants } => self.after_unlock(request, flow, key, grants, now),
            Event::Loaded { loaded, manifest, token } => match flow {
                Flow::Looking { asked } => {
                    let name = request.name.as_str();
                    match self.store.find(name, loaded) {
                        Err(e) => refuse(e),
                        Ok(None) => (
                            Flow::Recording {
                                answer: Answer::Refusal(Problem::NoSecret(name.to_string())),
                            },
                            record(name, "unknown", true),
                        ),
                        Ok(Some((_, secret))) => self.judge(request, asked, secret, manifest, now),
                    }
                },
                Flow::Listing => {
                    match self.store.names(results(loaded)) {
                        Ok(names) => {
                            proof {
                                assert(texts(names@).to_multiset() == names_of(
                                    results_of(loaded@),
                                ).to_multiset());
                            }
                            reply(join_texts(&names, "\n"))
                        },
                        Err(e) => refuse(e),
                    }
                },
                _ => self.mint(request, loaded, token, now),
            },
            Event::Saved => match flow {
                Flow::Saving { secret } => (
                    Flow::Recording { answer: Answer::Secret(secret) },
                    record(request.name.as_str(), "project grant", true),
                ),
                _ => (Flow::Done, Action::Load),
            },
            Event::Recorded => match flow {
                Flow::Recording { answer } => self.after_record(request, answer, now),
                _ => (Flow::Listing, Action::Load),
            },
        }
    }
}

// ---------------------------------------------------------------------------------------------
// Asking the broker

/// What a read asks for.
pub open spec fn reads(
    name: Seq<char>,
    agent: Seq<char>,
    token: Option<String>,
    interactive: bool,
    r: Request,
) -> bool {
    &&& r.name@ == name
    &&& r.agent@ == agent
    &&& r.op == Op::Get
    &&& r.token@ == match token {
        Some(t) => t@,
        None => Seq::empty(),
    }
    &&& r.ttl == 0
    &&& r.names@.len() == 0
    &&& r.interactive == interactive
}

/// Ask for the value of one secret, with the token from the environment if there is one.
pub fn request(name: &str, agent: &str, token: Option<String>, interactive: bool) -> (r: Request)
    ensures
        reads(name@, agent@, token, interactive, r),
{
    let token = match token {
        Some(t) => t,
        None => no_text(),
    };
    Request {
        name: name.to_string(),
        agent: agent.to_string(),
        op: Op::Get,
        token,
        ttl: 0,
        names: Vec::new(),
        interactive,
    }
}

/// What a listing asks for.
pub open spec fn asks_names(agent: Seq<char>, r: Request) -> bool {
    &&& r.name@.len() == 0
    &&& r.agent@ == agent
    &&& r.op == Op::List
    &&& r.token@.len() == 0
    &&& r.ttl == 0
    &&& r.names@.len() == 0
    &&& !r.interactive
}

/// Ask for the names. They come back one per line, so the broker keeps the key and the caller never
/// sees it.
pub fn list(agent: &str) -> (r: Request)
    ensures
        asks_names(agent@, r),
{
    Request {
        name: no_text(),
        agent: agent.to_string(),
        op: Op::List,
        token: no_text(),
        ttl: 0,
        names: Vec::new(),
        interactive: false,
    }
}

/// What a grant asks for.
pub open spec fn asks_token(names: Seq<Seq<char>>, agent: Seq<char>, ttl: u64, r: Request) -> bool {
    &&& r.name@.len() == 0
    &&& r.agent@ == agent
    &&& r.op == Op::Grant
    &&& r.token@.len() == 0
    &&& r.ttl == ttl
    &&& texts(r.names@) == names
    &&& !r.interactive
}

/// Ask for one approval and a token back, with the names it covers listed after it.
pub fn grant(names: &Vec<String>, agent: &str, ttl: u64) -> (r: Request)
    ensures
        asks_token(texts(names@), agent@, ttl, r),
{
    Request {
        name: no_text(),
        agent: agent.to_string(),
        op: Op::Grant,
        token: no_text(),
        ttl,
        names: copy_texts(names),
        interactive: false,
    }
}

fn no_text() -> (r: String)
    ensures
        r@ == Seq::<char>::empty(),
{
    let r = String::new();
    assert(r@ =~= Seq::<char>::empty());
    r
}

/// What is sent for an outcome.
pub open spec fn responds(result: Result<String, Problem>, r: Response) -> bool {
    match result {
        Ok(value) => r.ok && r.value == Some(value) && r.error is None,
        Err(e) => !r.ok && r.value is None && (r.error matches Some(text) && text@ == e.words()),
    }
}

/// What the broker sends back.
pub fn respond(result: Result<String, Problem>) -> (r: Response)
    ensures
        responds(result, r),
{
    match result {
        Ok(value) => Response { ok: true, value: Some(value), error: None },
        Err(e) => Response { ok: false, value: None, error: Some(e.message()) },
    }
}

/// What the broker sends back to something that is no request, for the reason given.
pub fn bad_request(why: &str) -> (r: Response)
    ensures
        !r.ok,
        r.value is None,
        r.error matches Some(text) && text@ == "bad request: "@ + why@,
{
    Response { ok: false, value: None, error: Some(cat2("bad request: ", why)) }
}

/// What an answer is understood as.
pub open spec fn understood(response: Response, r: Result<String, Problem>) -> bool {
    match r {
        Ok(value) => response.ok && response.value == Some(value),
        Err(Problem::NoValue) => response.ok && response.value is None,
        Err(Problem::Refused) => !response.ok && response.error is None,
        Err(Problem::Broker(text)) => !response.ok && response.error == Some(text),
        Err(_) => false,
    }
}

/// What a caller makes of an answer.
pub fn answer_of(response: Response) -> (r: Result<String, Problem>)
    ensures
        understood(response, r),
{
    if !response.ok {
        return match response.error {
            Some(text) => Err(Problem::Broker(text)),
            None => Err(Problem::Refused),
        };
    }
    match response.value {
        Some(value) => Ok(value),
        None => Err(Problem::NoValue),
    }
}

/// What a caller gets is what the broker answered: a value as it is, and a refusal in its words.
pub proof fn an_answer_arrives(result: Result<String, Problem>, sent: Response, got: Result<String, Problem>)
    requires
        responds(result, sent),
        understood(sent, got),
    ensures
        match result {
            Ok(value) => got == Ok::<String, Problem>(value),
            Err(e) => got matches Err(f) && f.words() == e.words(),
        },
        sent.ok <==> result is Ok,
{
}

/// The notice that more was asked for than a token can last, where it was.
pub fn capped_notice(ttl: u64) -> (r: Option<String>)
    ensures
        match r {
            Some(text) => ttl > MAX_GRANT_SECS && text@ == "capped "@ + decimal(ttl as int)
                + "s at "@ + decimal(MAX_GRANT_SECS as int) + "s"@,
            None => ttl <= MAX_GRANT_SECS,
        },
{
    if ttl > MAX_GRANT_SECS {
        let asked = to_decimal(ttl);
        let most = to_decimal(MAX_GRANT_SECS);
        Some(cat5("capped ", asked.as_str(), "s at ", most.as_str(), "s"))
    } else {
        None
    }
}

/// Whether nothing was heard for as long as the key may be held. Exiting is how the key is dropped,
/// which is blunter and surer than clearing it in place.
pub fn is_idle(last_seen: u64, now: u64) -> (r: bool)
    ensures
        r == (since(last_seen, now) >= KEY_TTL_SECS),
{
    now >= last_seen && now - last_seen >= KEY_TTL_SECS
}

/// A token nobody can guess: two random ids.
pub fn new_token() -> (r: String)
    ensures
        r@.len() == 64,
        exists|a: Seq<u8>, b: Seq<u8>|
            a.len() == 16 && b.len() == 16 && r@ == #[trigger] crate::outside::hex_text(a)
                + #[trigger] crate::outside::hex_text(b),
{
    let a = new_id();
    let b = new_id();
    cat2(a.as_str(), b.as_str())
}

// ---------------------------------------------------------------------------------------------
// What is recorded

/// One line of the audit log: who asked for which secret and when, what came of it, and which
/// processes stood behind the request.
pub struct AuditRecord {
    pub at: u64,
    pub agent: String,
    pub secret: String,
    pub decision: String,
    pub caller: String,
}

/// What stands in a record.
pub open spec fn notes(
    request: Request,
    caller: Seq<char>,
    secret: Seq<char>,
    decision: Seq<char>,
    at: u64,
    r: AuditRecord,
) -> bool {
    &&& r.at == at
    &&& r.agent@ == request.agent@
    &&& r.secret@ == secret
    &&& r.decision@ == decision
    &&& r.caller@ == caller
}

/// The record of one secret: it names the agent of the request and the callers that were read from
/// the kernel.
pub fn audit_record(
    request: &Request,
    caller: &str,
    secret: &str,
    decision: &str,
    at: u64,
) -> (r: AuditRecord)
    ensures
        notes(*request, caller@, secret@, decision@, at, r),
{
    AuditRecord {
        at,
        agent: request.agent.clone(),
        secret: secret.to_string(),
        decision: decision.to_string(),
        caller: caller.to_string(),
    }
}

// ---------------------------------------------------------------------------------------------
// Who is asking

/// What `ps` says of a process: its command, and its parent where there is one to go on with.
pub open spec fn process_of(text: Seq<char>) -> Option<(Seq<char>, Option<int>)> {
    let t = trim(text);
    let n = word_len(t);
    if n >= t.len() {
        None
    } else {
        Some(
            (
                trim(t.skip(n + 1)),
                match parse(t.take(n), i32::MAX as int) {
                    Some(pid) => if pid > 1 {
                        Some(pid)
                    } else {
                        None
                    },
                    None => None,
                },
            ),
        )
    }
}

/// What `ps` says of a process.
pub fn parse_ps(text: &str) -> (r: Option<(String, Option<u64>)>)
    ensures
        match r {
            Some((command, next)) => process_of(text@) == Some(
                (
                    command@,
                    match next {
                        Some(pid) => Some(pid as int),
                        None => None,
                    },
                ),
            ),
            None => process_of(text@) is None,
        },
{
    let t = trimmed(text);
    let v = to_chars(t.as_str());
    let mut n: usize = 0;
    assert(t@.skip(0) =~= t@);
    while n < v.len() && !is_space(v[n])
        invariant
            n <= v@.len(),
            v@ == t@,
            word_len(t@) == n + word_len(t@.skip(n as int)),
        decreases v@.len() - n,
    {
        proof {
            assert(t@.skip(n as int).drop_first() =~= t@.skip(n + 1));
            assert(t@.skip(n as int)[0] == v@[n as int]);
        }
        n = n + 1;
    }
    proof {
        if n < v.len() {
            assert(t@.skip(n as int)[0] == v@[n as int]);
        }
    }
    if n >= v.len() {
        return None;
    }
    let front = from_chars(&v, 0, n);
    let back = from_chars(&v, n + 1, v.len());
    assert(front@ =~= t@.take(n as int));
    assert(back@ =~= t@.skip(n + 1));
    let next = match parse_up_to(front.as_str(), 2_147_483_647) {
        Some(pid) => if pid > 1 {
            Some(pid)
        } else {
            None
        },
        None => None,
    };
    Some((trimmed(back.as_str()), next))
}

/// How many callers are looked at on the way up.
pub const MAX_CALLERS: usize = 6;

/// Whether to look at one more caller on the way up, by how many were seen and which one is next.
pub fn goes_on(seen: usize, next: Option<u64>) -> (r: bool)
    ensures
        r == (seen < MAX_CALLERS && next is Some),
{
    seen < MAX_CALLERS && next.is_some()
}

/// How often a broker that was just started is looked for.
pub const MAX_TRIES: usize = 50;

/// Whether a broker that was just started listens, or is to be looked for again in a moment: its
/// socket appears a moment after the fork, so it gets a few tries rather than one.
pub fn socket_is_up(tried: usize, there: bool) -> (r: Result<bool, Problem>)
    ensures
        match r {
            Ok(up) => tried < MAX_TRIES && up == there,
            Err(Problem::NoSocket) => tried >= MAX_TRIES,
            Err(_) => false,
        },
{
    if tried < MAX_TRIES {
        Ok(there)
    } else {
        Err(Problem::NoSocket)
    }
}

/// The callers of a request, from the inside out. The caller is this program, and the agent is
/// somewhere above it.
pub fn ancestry(chain: &Vec<String>) -> (r: String)
    ensures
        r@ == if chain@.len() == 0 {
            "unknown"@
        } else {
            join(texts(chain@), " < "@)
        },
{
    if chain.len() == 0 {
        return "unknown".to_string();
    }
    join_texts(chain, " < ")
}

/// The first line that begins with `n`, without it.
pub open spec fn named_line(text: Seq<Seq<char>>) -> Option<Seq<char>>
    decreases text.len(),
{
    if text.len() == 0 {
        None
    } else if text[0].len() > 0 && text[0][0] == 'n' {
        Some(text[0].skip(1))
    } else {
        named_line(text.drop_first())
    }
}

/// The caller's working directory, from what `lsof` printed. The project a grant belongs to is read
/// from the kernel rather than taken from the request: a caller that could name its own directory
/// could point at a manifest it wrote and approved somewhere else.
pub fn caller_cwd(printed: &str) -> (r: Option<String>)
    ensures
        match r {
            Some(dir) => named_line(lines(printed@)) == Some(dir@),
            None => named_line(lines(printed@)) is None,
        },
{
    let all = to_lines(printed);
    let ghost text = texts(all@);
    let mut i: usize = 0;
    assert(text.skip(0) =~= text);
    while i < all.len()
        invariant
            i <= all@.len(),
            text == texts(all@),
            text == lines(printed@),
            named_line(text) == named_line(text.skip(i as int)),
        decreases all@.len() - i,
    {
        let v = to_chars(all[i].as_str());
        assert(text.skip(i as int)[0] == v@);
        if v.len() > 0 && v[0] == 'n' {
            let dir = from_chars(&v, 1, v.len());
            assert(dir@ =~= v@.skip(1));
            return Some(dir);
        }
        assert(text.skip(i as int).drop_first() =~= text.skip(i + 1));
        i = i + 1;
    }
    None
}

/// The caller's directory is what the first line that begins with an `n` says, whatever stands before
/// and after it; without such a line it is not known.
pub proof fn the_first_named_line_is_the_directory(text: Seq<Seq<char>>, i: int)
    ensures
        0 <= i < text.len() && text[i].len() > 0 && text[i][0] == 'n' && (forall|j: int|
            0 <= j < i ==> !((#[trigger] text[j]).len() > 0 && text[j][0] == 'n')) ==> named_line(text)
            == Some(text[i].skip(1)),
        (forall|j: int| 0 <= j < text.len() ==> !((#[trigger] text[j]).len() > 0 && text[j][0] == 'n'))
            ==> named_line(text) is None,
    decreases text.len(),
{
    if text.len() > 0 {
        let rest = text.drop_first();
        the_first_named_line_is_the_directory(rest, i - 1);
        if 0 < i < text.len() && (forall|j: int|
            0 <= j < i ==> !((#[trigger] text[j]).len() > 0 && text[j][0] == 'n')) {
            assert(!(text[0].len() > 0 && text[0][0] == 'n'));
            assert(rest[i - 1] == text[i]);
            assert forall|j: int| 0 <= j < i - 1 implies !((#[trigger] rest[j]).len() > 0 && rest[j][0]
                == 'n') by {
                assert(rest[j] == text[j + 1]);
            }
        }
        if forall|j: int| 0 <= j < text.len() ==> !((#[trigger] text[j]).len() > 0 && text[j][0] == 'n') {
            assert(!(text[0].len() > 0 && text[0][0] == 'n'));
            assert forall|j: int| 0 <= j < rest.len() implies !((#[trigger] rest[j]).len() > 0
                && rest[j][0] == 'n') by {
                assert(rest[j] == text[j + 1]);
            }
        }
    }
}

/// A process is told by its parent's number and its command, with any space around them: the way up
/// goes on from a number above one, and ends at any other.
pub proof fn a_process_is_its_parent_and_its_command(text: Seq<char>, pid: int, command: Seq<char>)
    requires
        0 <= pid <= i32::MAX,
        command.len() > 0,
        !crate::text::space(command[0]),
        !crate::text::space(command.last()),
        trim(text) == decimal(pid) + seq![' '] + command,
    ensures
        process_of(text) == Some(
            (
                command,
                if pid > 1 {
                    Some(pid)
                } else {
                    None
                },
            ),
        ),
{
    let t = trim(text);
    let d = decimal(pid);
    let n = d.len() as int;
    crate::number::lemma_decimal_digits(pid);
    crate::number::decimal_reads_back(pid, i32::MAX as int);
    assert forall|i: int| 0 <= i < n implies !crate::text::space(#[trigger] t[i]) by {
        assert(t[i] == d[i]);
        assert(crate::number::is_digit(d[i]));
    }
    lemma_word_len(t, n);
    assert(t.take(n) =~= d);
    assert(t.skip(n + 1) =~= command);
    crate::text::lemma_trim_tight(command);
}

proof fn lemma_word_len(s: Seq<char>, n: int)
    requires
        0 <= n < s.len(),
        crate::text::space(s[n]),
        forall|i: int| 0 <= i < n ==> !crate::text::space(#[trigger] s[i]),
    ensures
        word_len(s) == n,
    decreases n,
{
    if n > 0 {
        let t = s.drop_first();
        assert(!crate::text::space(s[0]));
        assert forall|i: int| 0 <= i < n - 1 implies !crate::text::space(#[trigger] t[i]) by {
            assert(t[i] == s[i + 1]);
        }
        lemma_word_len(t, n - 1);
    }
}

/// A request says what it was made for and nothing else: a read the one name, for the agent that reads,
/// with the token it has; a listing the agent; and a grant every name that was given, in order, for as
/// long as was said.
pub proof fn a_request_says_what_it_was_made_for(
    name: Seq<char>,
    names: Seq<Seq<char>>,
    agent: Seq<char>,
    token: String,
    ttl: u64,
    interactive: bool,
    with: Request,
    without: Request,
    listing: Request,
    granting: Request,
)
    requires
        reads(name, agent, Some(token), interactive, with),
        reads(name, agent, None, interactive, without),
        asks_names(agent, listing),
        asks_token(names, agent, ttl, granting),
    ensures
        with.op == Op::Get && with.name@ == name && with.agent@ == agent && with.token@ == token@,
        without.op == Op::Get && without.name@ == name && without.agent@ == agent && without.token@.len()
            == 0,
        with.interactive == interactive && without.interactive == interactive,
        listing.op == Op::List && listing.agent@ == agent && !listing.interactive,
        granting.op == Op::Grant && texts(granting.names@) == names && granting.agent@ == agent
            && granting.ttl == ttl && !granting.interactive,
{
}

/// A record names in full who asked, for what, what came of it, when, and which processes stood behind
/// it.
pub proof fn a_record_names_who_and_what(
    request: Request,
    caller: Seq<char>,
    secret: Seq<char>,
    decision: Seq<char>,
    at: u64,
    r: AuditRecord,
)
    requires
        notes(request, caller, secret, decision, at, r),
    ensures
        r.agent@ == request.agent@ && r.secret@ == secret && r.decision@ == decision && r.caller@
            == caller && r.at == at,
{
}

} // verus!

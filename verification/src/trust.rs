//! What the broker promises, whatever it is asked and in whatever order.

use crate::broker::{
    approval, approved, asks, begins_get, coverage, decision, found, granted, grantable, judges, leased,
    manifest_of, mints, records, release_reason, releases, since, steps, token_ttl, token_value, unexpired, wanted_by, Action,
    Answer, BrokerV, Decision, Event, Flow, Op, Request, KEY_TTL_SECS, LIST_SLOT, MAX_GRANT_SECS,
};
use crate::course::{came_upon, course, taken, under_grant, Turn};
use crate::problem::Problem;
use crate::project::{grants_of, GrantV, Manifest};
use crate::store::{Mode, Secret, DEFAULT_WINDOW_SECS};
use crate::text::texts;
use vstd::prelude::*;
use vstd::string::*;

verus! {

/// The modes do what they say: `open` never asks, `never` is always refused, `always` asks even
/// inside a window.
pub proof fn the_modes_do_what_they_say(window: u64, at: Option<u64>, now: u64)
    ensures
        decision(Mode::Open, window, at, now) == Decision::Allow,
        decision(Mode::Never, window, at, now) == Decision::Deny,
        decision(Mode::Always, window, at, now) == Decision::Prompt,
        decision(Mode::Window, window, at, now) != Decision::Deny,
{
}

/// A window holds from the approval until it expires and not a second longer; without an approval,
/// with one from the future, or with a window of zero, it asks.
pub proof fn a_window_holds_until_it_expires(window: u64, at: u64, now: u64)
    ensures
        decision(Mode::Window, window, Some(at), now) == Decision::Allow <==> at <= now && now - at
            < window,
        decision(Mode::Window, window, None, now) == Decision::Prompt,
        at > now ==> decision(Mode::Window, window, Some(at), now) == Decision::Prompt,
        decision(Mode::Window, 0, Some(at), now) == Decision::Prompt,
{
}

/// A secret marked `never` is not released to an agent: looking it up for one ends in a refusal, whoever
/// was asked and whatever a manifest declares, and no token covers it.
pub proof fn never_is_never_released(
    b: BrokerV,
    after: BrokerV,
    request: Request,
    asked: bool,
    secret: Secret,
    manifest: Option<Manifest>,
    now: u64,
    next: Flow,
    action: Action,
)
    requires
        secret.mode == Mode::Never,
        !request.interactive,
        judges(b, after, request, asked, secret, manifest, now, next, action),
    ensures
        after == b,
        records(action, request.name@, "denied"@, true),
        next matches Flow::Recording { answer } && answer is Refusal,
{
}

/// A person who reads a secret marked `never` is asked for it every time: no window, no manifest
/// and no grant lets it through, and the broker does not hold the value afterwards.
pub proof fn a_person_is_always_asked_for_a_never(
    b: BrokerV,
    after: BrokerV,
    request: Request,
    asked: bool,
    secret: Secret,
    manifest: Option<Manifest>,
    now: u64,
    next: Flow,
    action: Action,
    later: u64,
)
    requires
        secret.mode == Mode::Never,
        request.interactive,
        judges(b, after, request, asked, secret, manifest, now, next, action),
    ensures
        asked ==> releases(next, action, secret, request.name@, "approved"@),
        !asked ==> next == (Flow::Confirming { secret }) && asks(
            action,
            release_reason(request.agent@, request.name@),
        ),
        leased(b, request.name@, secret, later) == b,
{
}

/// What a token covers was selected by what was asked for, and is not marked `never`.
pub proof fn a_token_covers_only_what_was_asked_for(
    loaded: Seq<(String, Result<Secret, Problem>)>,
    patterns: Seq<Seq<char>>,
    name: Seq<char>,
)
    ensures
        coverage(loaded, patterns).contains_key(name) ==> wanted_by(patterns, name) && (found(
            loaded,
            name,
        ) matches Ok(Some(secret)) && secret.mode != Mode::Never && coverage(
            loaded,
            patterns,
        )[name] == secret.value@),
{
}

/// A minted token opens exactly what it covers, until it lapses, and it lapses within a day. Every
/// other token opens what it opened before.
pub proof fn a_token_opens_only_what_it_was_granted(
    b: BrokerV,
    after: BrokerV,
    request: Request,
    loaded: Seq<(String, Result<Secret, Problem>)>,
    token: Seq<char>,
    minted: u64,
    next: Flow,
    action: Action,
    other: Seq<char>,
    name: Seq<char>,
    now: u64,
)
    requires
        minted + MAX_GRANT_SECS <= u64::MAX,
        mints(b, after, request, loaded, token, minted, next, action),
        action is Record,
    ensures
        token_value(after.tokens, token, name, now) is Some <==> grantable(
            loaded,
            texts(request.names@),
            name,
        ) && now < minted + token_ttl(request.ttl),
        now >= minted + MAX_GRANT_SECS ==> token_value(after.tokens, token, name, now) is None,
        other != token ==> token_value(after.tokens, other, name, now) == token_value(
            b.tokens,
            other,
            name,
            now,
        ),
{
}

/// An unknown token opens nothing, and a lapsed one opens nothing, before and after the lapsed ones
/// are dropped.
pub proof fn a_lapsed_token_opens_nothing(
    b: BrokerV,
    token: Seq<char>,
    name: Seq<char>,
    now: u64,
    later: u64,
)
    ensures
        !b.tokens.contains_key(token) ==> token_value(b.tokens, token, name, now) is None,
        b.tokens.contains_key(token) && now >= b.tokens[token].1 ==> token_value(
            b.tokens,
            token,
            name,
            now,
        ) is None,
        now <= later ==> token_value(unexpired(b.tokens, now), token, name, later) == token_value(
            b.tokens,
            token,
            name,
            later,
        ),
{
}

/// A lease covers the one secret that it was approved for: no other name answers for having it.
pub proof fn a_lease_covers_one_secret(
    b: BrokerV,
    name: Seq<char>,
    secret: Secret,
    now: u64,
    other: Seq<char>,
)
    requires
        other != name,
    ensures
        leased(b, name, secret, now).leases.contains_key(other) == b.leases.contains_key(other),
        leased(b, name, secret, now).leases[other] == b.leases[other],
        leased(b, name, secret, now).key == b.key,
        leased(b, name, secret, now).approvals == b.approvals,
        leased(b, name, secret, now).tokens == b.tokens,
{
}

/// A lease answers without a key for as long as it lasts, and stops when it lapses: from then on
/// the read needs the key like any other.
pub proof fn a_lease_outlives_the_store_key(
    b: BrokerV,
    after: BrokerV,
    request: Request,
    now: u64,
    next: Flow,
    action: Action,
)
    requires
        begins_get(b, after, request, now, next, action),
        request.token@.len() == 0,
        b.leases.contains_key(request.name@),
    ensures
        now < b.leases[request.name@].1 ==> (next matches Flow::Recording {
            answer: Answer::Held(value),
        } && value@ == b.leases[request.name@].0) && records(
            action,
            request.name@,
            "within lease"@,
            false,
        ),
        now >= b.leases[request.name@].1 ==> !after.leases.contains_key(request.name@) && (
        next is Looking || next is Unlocking),
{
}

/// The key is gone once it has been held for its time: a read that neither a token nor a lease
/// answers then asks for it.
pub proof fn a_cold_broker_asks(
    b: BrokerV,
    after: BrokerV,
    request: Request,
    now: u64,
    next: Flow,
    action: Action,
)
    requires
        begins_get(b, after, request, now, next, action),
        since(b.key_at, now) >= KEY_TTL_SECS,
    ensures
        next is Recording || (after.key is None && next is Unlocking && action is Ask),
{
}

/// No value and no name leaves the broker before the record of it stands in the audit log.
pub proof fn nothing_is_answered_unrecorded(
    b: BrokerV,
    after: BrokerV,
    request: Request,
    flow: Flow,
    event: Event,
    now: u64,
    next: Flow,
    action: Action,
)
    requires
        steps(b, after, request, flow, event, now, next, action),
    ensures
        (action matches Action::Reply(Ok(_))) ==> (flow is Recording && event is Recorded)
            || flow is Listing,
        next is Listing ==> flow is ListRecording && event is Recorded,
        next is Recording || next is ListRecording ==> action is Record,
{
}

/// A secret out of the store is released only where its mode lets it through, a project grant
/// covers it, or somebody was asked for it during the same request.
pub proof fn a_release_has_a_reason(
    b: BrokerV,
    after: BrokerV,
    request: Request,
    flow: Flow,
    event: Event,
    now: u64,
    next: Flow,
    action: Action,
)
    requires
        steps(b, after, request, flow, event, now, next, action),
        next matches Flow::Recording { answer } && answer is Secret,
    ensures
        match flow {
            Flow::Looking { asked } => {
                let secret = next->answer->Secret_0;
                &&& secret.mode == Mode::Never ==> request.interactive && asked
                &&& asked || decision(
                    secret.mode,
                    secret.window_secs,
                    approval(b, request.agent@, request.name@),
                    now,
                ) == Decision::Allow || (event matches Event::Loaded {
                    loaded: _,
                    manifest,
                    token: _,
                } && granted(b.grants, manifest_of(manifest), request.name@, now))
            },
            Flow::Confirming { .. } => event is Unlocked,
            Flow::Saving { .. } => event is Saved,
            _ => false,
        },
{
}

/// The window runs from the prompt: an approval is only ever stamped in a request in which somebody
/// was asked, so a busy agent still asks again when its window expires.
pub proof fn only_a_prompt_opens_a_window(
    b: BrokerV,
    after: BrokerV,
    request: Request,
    flow: Flow,
    event: Event,
    now: u64,
    next: Flow,
    action: Action,
)
    requires
        steps(b, after, request, flow, event, now, next, action),
        after.approvals != b.approvals,
    ensures
        event is Unlocked || flow == (Flow::Looking { asked: true }),
{
}

/// An approval for one secret, or of another agent, is none for a secret: nothing but its own pair
/// of agent and name changes.
pub proof fn an_approval_is_for_one_agent_and_secret(
    b: BrokerV,
    agent: Seq<char>,
    name: Seq<char>,
    now: u64,
    other_agent: Seq<char>,
    other_name: Seq<char>,
)
    ensures
        approval(approved(b, agent, name, now), agent, name) == Some(now),
        (other_agent, other_name) != (agent, name) ==> approval(
            approved(b, agent, name, now),
            other_agent,
            other_name,
        ) == approval(b, other_agent, other_name),
{
}

/// Listing has a window of its own: approving a secret, whose name cannot hold a NUL, never
/// approves a listing.
pub proof fn reading_one_secret_lists_nothing(
    b: BrokerV,
    agent: Seq<char>,
    name: Seq<char>,
    now: u64,
)
    requires
        !name.contains('\u{0}'),
    ensures
        approval(approved(b, agent, name, now), agent, LIST_SLOT@) == approval(
            b,
            agent,
            LIST_SLOT@,
        ),
{
    reveal_strlit("\u{0}list");
    assert(LIST_SLOT@[0] == '\u{0}');
    assert(LIST_SLOT@.contains('\u{0}'));
}

/// Minting takes a fingerprint of its own: a grant always asks, whatever is cached.
pub proof fn a_grant_always_asks(
    b: BrokerV,
    after: BrokerV,
    request: Request,
    now: u64,
    next: Flow,
    action: Action,
)
    requires
        request.op == Op::Grant,
        steps(b, after, request, Flow::Start, Event::Begin, now, next, action),
    ensures
        action is Ask,
        after == b,
{
}

/// No token is asked for, and none is minted, for longer than a day.
pub proof fn a_grant_is_capped_at_a_day(ttl: u64)
    ensures
        0 < token_ttl(ttl) <= MAX_GRANT_SECS,
        0 < ttl <= MAX_GRANT_SECS ==> token_ttl(ttl) == ttl,
        ttl == 0 ==> token_ttl(ttl) == DEFAULT_WINDOW_SECS,
{
}

// ---------------------------------------------------------------------------------------------
// How long it lasts

/// The step released a secret after the finger came for it, and not under a project grant.
pub open spec fn let_go_by_finger(request: Request, t: Turn) -> bool {
    &&& request.op == Op::Get
    &&& taken(request, t)
    &&& t.next matches Flow::Recording { answer: Answer::Secret(_) }
    &&& t.flow is Confirming || (t.flow == (Flow::Looking { asked: true }) && !under_grant(
        request,
        t,
    ))
}

/// The key is at hand: it was unlocked less than five minutes ago.
pub open spec fn key_at_hand(b: BrokerV, now: u64) -> bool {
    b.key is Some && now < b.key_at + 300
}

/// What an agent is approved for stays as `b` has it, all through the request.
pub open spec fn approval_stays(turns: Seq<Turn>, b: BrokerV, slot: (Seq<char>, Seq<char>)) -> bool {
    forall|i: int|
        0 <= i < turns.len() ==> (#[trigger] turns[i]).before.approvals.contains_key(slot)
            == b.approvals.contains_key(slot) && turns[i].before.approvals[slot]
            == b.approvals[slot]
}

/// One prompt serves the window. A secret that was released because the finger came for it was
/// approved at that moment, for that agent: until the window has run from there, the same agent
/// reads it again as long as the key is at hand, and at no step of that read is anybody asked.
pub proof fn one_prompt_serves_the_window(
    first: Request,
    t: Turn,
    second: Request,
    turns: Seq<Turn>,
)
    requires
        let_go_by_finger(first, t),
        second.op == Op::Get,
        second.agent@ == first.agent@,
        second.name@ == first.name@,
        course(second, turns),
        approval_stays(turns, t.after, (first.agent@, first.name@)),
        key_at_hand(turns[0].before, turns[0].now),
        forall|i: int, secret: Secret|
            0 <= i < turns.len() && #[trigger] came_upon(second, turns[i], secret)
                ==> secret.mode == Mode::Window && t.now <= turns[i].now < t.now
                + secret.window_secs,
    ensures
        t.after.approvals.contains_key((first.agent@, first.name@)),
        t.after.approvals[(first.agent@, first.name@)] == t.now,
        forall|i: int| 0 <= i < turns.len() ==> !((#[trigger] turns[i]).action is Ask),
        forall|i: int, secret: Secret|
            0 <= i < turns.len() && #[trigger] came_upon(second, turns[i], secret)
                ==> turns[i].next == (Flow::Recording { answer: Answer::Secret(secret) }),
{
    assert forall|i: int| 0 <= i < turns.len() implies unasked((#[trigger] turns[i]).next)
        && !(turns[i].action is Ask) by {
        lemma_unasked(first, t, second, turns, i);
    }
    assert forall|i: int, secret: Secret|
        0 <= i < turns.len() && #[trigger] came_upon(second, turns[i], secret) implies turns[i].next
        == (Flow::Recording { answer: Answer::Secret(secret) }) by {
        assert(taken(second, turns[i]));
        if i > 0 {
            lemma_unasked(first, t, second, turns, i - 1);
            assert(turns[i - 1].next == turns[i].flow);
        }
    }
}

/// A read gets here without asking anybody.
spec fn unasked(flow: Flow) -> bool {
    flow == (Flow::Looking { asked: false }) || flow is Recording || flow is Done
}

proof fn lemma_unasked(first: Request, t: Turn, second: Request, turns: Seq<Turn>, i: int)
    requires
        let_go_by_finger(first, t),
        second.op == Op::Get,
        second.agent@ == first.agent@,
        second.name@ == first.name@,
        course(second, turns),
        approval_stays(turns, t.after, (first.agent@, first.name@)),
        key_at_hand(turns[0].before, turns[0].now),
        forall|i: int, secret: Secret|
            0 <= i < turns.len() && #[trigger] came_upon(second, turns[i], secret)
                ==> secret.mode == Mode::Window && t.now <= turns[i].now < t.now
                + secret.window_secs,
        0 <= i < turns.len(),
    ensures
        unasked(turns[i].next),
        !(turns[i].action is Ask),
    decreases i,
{
    let u = turns[i];
    assert(taken(second, u));
    if i > 0 {
        lemma_unasked(first, t, second, turns, i - 1);
        assert(turns[i - 1].next == u.flow);
        if let Event::Loaded { loaded, manifest, token } = u.event {
            if u.flow is Looking {
                if let Ok(Some(secret)) = found(loaded@, second.name@) {
                    if secret.mode != Mode::Never || second.interactive {
                        assert(came_upon(second, turns[i], secret));
                    }
                }
            }
        }
    }
}

/// Nothing but a finger for the very same pair changes what an agent is approved for, and then it
/// counts from that moment: no step takes an approval back, moves it, or gives one to anybody else.
pub proof fn a_step_moves_no_other_approval(request: Request, t: Turn, slot: (Seq<char>, Seq<char>))
    requires
        taken(request, t),
        slot != (request.agent@, request.name@),
        slot != (request.agent@, "\u{0}list"@),
    ensures
        t.after.approvals.contains_key(slot) == t.before.approvals.contains_key(slot),
        t.after.approvals[slot] == t.before.approvals[slot],
{
}

/// What a step leaves under the slots of its own request is what was there, or the moment of the
/// step, and that only where the finger came during the request.
pub proof fn an_approval_counts_from_its_finger(request: Request, t: Turn, slot: Seq<char>)
    requires
        taken(request, t),
        slot == request.name@ || slot == "\u{0}list"@,
    ensures
        ({
            let pair = (request.agent@, slot);
            ||| t.after.approvals.contains_key(pair) && t.after.approvals[pair] == t.now && (
            t.event is Unlocked || t.flow == (Flow::Looking { asked: true }))
            ||| t.after.approvals.contains_key(pair) == t.before.approvals.contains_key(pair)
                && t.after.approvals[pair] == t.before.approvals[pair]
        }),
{
}

/// One prompt serves the listings of five minutes: a listing that the finger came for is noted for
/// that agent, and until five minutes have run from there the agent lists again, as long as the key
/// is at hand, with nobody asked.
pub proof fn one_prompt_serves_the_listings(
    first: Request,
    t: Turn,
    second: Request,
    turns: Seq<Turn>,
)
    requires
        first.op == Op::List,
        taken(first, t),
        t.flow is ListUnlocking,
        t.event is Unlocked,
        second.op == Op::List,
        second.agent@ == first.agent@,
        course(second, turns),
        approval_stays(turns, t.after, (first.agent@, "\u{0}list"@)),
        key_at_hand(turns[0].before, turns[0].now),
        t.now <= turns[0].now < t.now + 300,
    ensures
        t.after.approvals.contains_key((first.agent@, "\u{0}list"@)),
        t.after.approvals[(first.agent@, "\u{0}list"@)] == t.now,
        forall|i: int| 0 <= i < turns.len() ==> !((#[trigger] turns[i]).action is Ask),
{
    assert(taken(second, turns[0]));
    assert forall|i: int| 0 <= i < turns.len() implies !((#[trigger] turns[i]).action is Ask) by {
        lemma_listed(second, turns, i);
    }
}

proof fn lemma_listed(request: Request, turns: Seq<Turn>, i: int)
    requires
        request.op == Op::List,
        course(request, turns),
        !(turns[0].action is Ask),
        0 <= i < turns.len(),
    ensures
        turns[i].next is ListRecording || turns[i].next is Listing || turns[i].next is Done,
        !(turns[i].action is Ask),
    decreases i,
{
    assert(taken(request, turns[i]));
    if i > 0 {
        lemma_listed(request, turns, i - 1);
        assert(turns[i - 1].next == turns[i].flow);
    }
}

/// The finger leaves the key at hand for five minutes and not a second longer: it is what came, it
/// counts from that moment, and a read that nothing holds a value for goes on with it until then and
/// asks from then on.
pub proof fn a_finger_unlocks_for_five_minutes(first: Request, t: Turn, second: Request, u: Turn)
    requires
        taken(first, t),
        t.event is Unlocked,
        taken(second, u),
        u.flow is Start,
        u.event is Begin,
        second.op == Op::Get,
        u.before.key == t.after.key,
        u.before.key_at == t.after.key_at,
        u.now >= t.now,
        second.token@.len() == 0,
        !u.before.leases.contains_key(second.name@),
    ensures
        t.event matches Event::Unlocked { key, grants: _ } && t.after.key == Some(key@),
        t.after.key_at == t.now,
        u.now < t.now + 300 ==> u.next is Looking && u.action is Load && u.after.key == t.after.key,
        u.now >= t.now + 300 ==> u.next is Unlocking && u.action is Ask && u.after.key is None,
{
}

/// No step but the finger brings a key, and none but the one that drops it for its age takes it away
/// or changes when it was unlocked.
pub proof fn only_a_finger_brings_the_key(request: Request, t: Turn)
    requires
        taken(request, t),
        !(t.event is Unlocked),
    ensures
        t.after.key_at == t.before.key_at,
        t.after.key == t.before.key || t.after.key is None,
        t.now < t.before.key_at + 300 ==> t.after.key == t.before.key,
        t.after.grants == t.before.grants,
{
}

/// The manifest is what the step read, unchanged, with this name among what it lists.
pub open spec fn declares(u: Turn, m: Manifest, name: Seq<char>) -> bool {
    u.event matches Event::Loaded { loaded: _, manifest: Some(n), token: _ } && n@ == m@ && texts(
        m.secrets@,
    ).contains(name)
}

/// A project is approved once. After its one prompt every secret its manifest lists is covered from
/// that moment until its window has run: a read of any of them, with the manifest unchanged, is
/// released without asking.
pub proof fn a_project_is_approved_once(
    first: Request,
    t: Turn,
    m: Manifest,
    second: Request,
    u: Turn,
    secret: Secret,
)
    requires
        taken(first, t),
        t.flow matches Flow::Declaring { secret: _, manifest } && manifest == m,
        t.event is Unlocked,
        t.now + m.window_secs <= u64::MAX,
        taken(second, u),
        second.op == Op::Get,
        u.flow is Looking,
        u.before.grants == t.after.grants,
        declares(u, m, second.name@),
        came_upon(second, u, secret),
        secret.mode == Mode::Window || secret.mode == Mode::Always,
        t.now <= u.now < t.now + m.window_secs,
    ensures
        u.next == (Flow::Recording { answer: Answer::Secret(secret) }),
        granted(t.after.grants, Some(m@), second.name@, u.now),
{
    if let Event::Unlocked { key, grants } = t.event {
        let all = t.after.grants;
        let g = all.last();
        assert(g == all[all.len() - 1]);
        assert(crate::project::grant_covers(g, m@, second.name@, u.now));
    }
}

/// A project's approval ends with its window: where no other grant is left, a read of what the
/// manifest lists asks for all of it again from then on.
pub proof fn a_project_is_asked_for_again(
    first: Request,
    t: Turn,
    m: Manifest,
    second: Request,
    u: Turn,
    secret: Secret,
)
    requires
        taken(first, t),
        t.flow matches Flow::Declaring { secret: _, manifest } && manifest == m,
        t.event matches Event::Unlocked { key: _, grants } && forall|i: int|
            0 <= i < grants@.len() ==> (#[trigger] grants@[i]).until <= u.now,
        t.now + m.window_secs <= u64::MAX,
        taken(second, u),
        second.op == Op::Get,
        u.flow == (Flow::Looking { asked: false }),
        u.before.grants == t.after.grants,
        declares(u, m, second.name@),
        came_upon(second, u, secret),
        secret.mode == Mode::Always,
        u.now >= t.now + m.window_secs,
    ensures
        u.action is Ask,
        u.next matches Flow::Declaring { secret: s, manifest } && s == secret && manifest@ == m@,
        !granted(t.after.grants, Some(m@), second.name@, u.now),
{
    if let Event::Unlocked { key, grants } = t.event {
        let all = t.after.grants;
        assert forall|i: int| 0 <= i < all.len() implies (#[trigger] all[i]).until <= u.now by {
            if i < grants@.len() {
                assert(all[i] == grants@[i]@);
            }
        }
    }
}

/// A lease lasts as long as the secret says. The value that was just answered is held from that
/// moment for whoever reads the name next, with nobody asked, and not a second longer; without a
/// lease, and for a secret marked `never`, nothing is held.
pub proof fn a_lease_answers_until_it_lapses(
    first: Request,
    t: Turn,
    secret: Secret,
    second: Request,
    u: Turn,
)
    requires
        taken(first, t),
        t.flow == (Flow::Recording { answer: Answer::Secret(secret) }),
        t.event is Recorded,
        t.now + secret.lease_secs <= u64::MAX,
        taken(second, u),
        u.flow is Start,
        u.event is Begin,
        second.op == Op::Get,
        second.name@ == first.name@,
        second.token@.len() == 0,
        u.before.leases == t.after.leases,
        u.now >= t.now,
    ensures
        t.action matches Action::Reply(Ok(v)) && v@ == secret.value@,
        secret.lease_secs == 0 || secret.mode == Mode::Never ==> t.after.leases == t.before.leases,
        secret.lease_secs > 0 && secret.mode != Mode::Never && u.now < t.now + secret.lease_secs ==> (
        u.next matches Flow::Recording { answer: Answer::Held(v) } && v@ == secret.value@),
        secret.lease_secs > 0 && secret.mode != Mode::Never && u.now >= t.now + secret.lease_secs
            ==> u.next is Looking || u.next is Unlocking,
{
}

/// A lease is only ever made by a release, and of its own name: no other step makes, moves or
/// lengthens one.
pub proof fn only_a_release_makes_a_lease(request: Request, t: Turn, name: Seq<char>)
    requires
        taken(request, t),
        t.after.leases.contains_key(name),
    ensures
        (t.before.leases.contains_key(name) && t.after.leases[name] == t.before.leases[name]) || (name
            == request.name@ && (t.flow matches Flow::Recording { answer } && answer is Secret)
            && t.event is Recorded),
{
}

/// This is where a search by name ends: the first one of that name, with every one before it read.
pub open spec fn first_of(
    loaded: Seq<(String, Result<Secret, Problem>)>,
    name: Seq<char>,
    i: int,
) -> bool {
    &&& 0 <= i < loaded.len()
    &&& loaded[i].1 matches Ok(secret) && secret.name@ == name
    &&& forall|j: int|
        0 <= j < i ==> ((#[trigger] loaded[j]).1 matches Ok(secret) && secret.name@ != name)
}

/// A search by name finds the first secret of that name, finds none where every one was read and
/// none is called that, and fails with the first that could not be read before it got there.
pub proof fn a_search_finds_the_first_of_a_name(
    loaded: Seq<(String, Result<Secret, Problem>)>,
    name: Seq<char>,
    i: int,
)
    ensures
        first_of(loaded, name, i) ==> found(loaded, name) == Ok::<Option<Secret>, Problem>(
            Some(loaded[i].1->Ok_0),
        ),
        (forall|j: int|
            0 <= j < loaded.len() ==> ((#[trigger] loaded[j]).1 matches Ok(secret) && secret.name@
                != name)) ==> found(loaded, name) == Ok::<Option<Secret>, Problem>(None),
        0 <= i < loaded.len() && loaded[i].1 is Err && (forall|j: int|
            0 <= j < i ==> ((#[trigger] loaded[j]).1 matches Ok(secret) && secret.name@ != name))
            ==> found(loaded, name) == Err::<Option<Secret>, Problem>(loaded[i].1->Err_0),
{
    if (first_of(loaded, name, i) || (0 <= i < loaded.len() && loaded[i].1 is Err)) && forall|j: int|
        0 <= j < i ==> ((#[trigger] loaded[j]).1 matches Ok(secret) && secret.name@ != name) {
        lemma_search_ends(loaded, name, i);
    }
    if forall|j: int|
        0 <= j < loaded.len() ==> ((#[trigger] loaded[j]).1 matches Ok(secret) && secret.name@ != name) {
        lemma_search_ends(loaded, name, loaded.len() as int);
    }
}

proof fn lemma_search_ends(
    loaded: Seq<(String, Result<Secret, Problem>)>,
    name: Seq<char>,
    i: int,
)
    requires
        0 <= i <= loaded.len(),
        i < loaded.len() ==> crate::lookup::is_end(loaded[i], name),
        forall|j: int|
            0 <= j < i ==> ((#[trigger] loaded[j]).1 matches Ok(secret) && secret.name@ != name),
    ensures
        crate::lookup::search_end(loaded, name) == i,
    decreases i,
{
    if i > 0 {
        assert(loaded[0].1 is Ok);
        let rest = loaded.drop_first();
        assert forall|j: int| 0 <= j < i - 1 implies ((#[trigger] rest[j]).1 matches Ok(secret)
            && secret.name@ != name) by {
            assert(rest[j] == loaded[j + 1]);
        }
        lemma_search_ends(rest, name, i - 1);
    }
}

/// One of these names the secret, or a namespace that it lies in at any depth.
pub open spec fn asked_for(patterns: Seq<Seq<char>>, name: Seq<char>) -> bool {
    exists|j: int|
        0 <= j < patterns.len() && names_or_holds(#[trigger] patterns[j], name)
}

/// The pattern is the name, or what comes before a slash in it.
pub open spec fn names_or_holds(pattern: Seq<char>, name: Seq<char>) -> bool {
    name == pattern || (name.len() > pattern.len() && name.take(pattern.len() as int) == pattern
        && name[pattern.len() as int] == '/')
}

/// No pattern ends in a slash.
pub open spec fn no_trailing_slash(patterns: Seq<Seq<char>>) -> bool {
    forall|j: int|
        0 <= j < patterns.len() ==> (#[trigger] patterns[j]).len() > 0 && patterns[j].last() != '/'
}

proof fn lemma_asked_for(patterns: Seq<Seq<char>>, name: Seq<char>)
    requires
        no_trailing_slash(patterns),
    ensures
        wanted_by(patterns, name) <==> asked_for(patterns, name),
{
    assert forall|j: int| 0 <= j < patterns.len() implies crate::import::selected(
        name,
        #[trigger] patterns[j],
    ) == names_or_holds(patterns[j], name) by {
        crate::import::a_namespace_is_what_lies_under_it(name, patterns[j]);
    }
    if wanted_by(patterns, name) {
        let j = choose|j: int|
            0 <= j < patterns.len() && crate::import::selected(name, #[trigger] patterns[j]);
        assert(names_or_holds(patterns[j], name));
    }
    if asked_for(patterns, name) {
        let j = choose|j: int| 0 <= j < patterns.len() && names_or_holds(#[trigger] patterns[j], name);
        assert(crate::import::selected(name, patterns[j]));
    }
}

/// How long a token lasts that was asked for with these seconds.
pub open spec fn lasts(ttl: u64) -> int {
    if ttl == 0 {
        300
    } else if ttl < 86400 {
        ttl as int
    } else {
        86400
    }
}

/// A token opens what it was asked for: every secret that one of the names names, or that lies at
/// any depth in a namespace that one of them names, unless it is marked `never`, with its own value,
/// for as long as was asked for up to a day, and five minutes where nothing was. It opens nothing
/// else, and nothing afterwards.
pub proof fn a_token_opens_all_it_was_asked_for(
    first: Request,
    t: Turn,
    second: Request,
    u: Turn,
    i: int,
)
    requires
        taken(first, t),
        first.op == Op::Grant,
        t.flow is GrantLoading,
        t.event is Loaded,
        t.action is Record,
        t.now + 86400 <= u64::MAX,
        no_trailing_slash(texts(first.names@)),
        taken(second, u),
        second.op == Op::Get,
        u.flow is Start,
        u.event is Begin,
        u.before.tokens == t.after.tokens,
        !u.before.leases.contains_key(second.name@),
        second.token@ == t.event->token@,
        second.token@.len() > 0,
        first_of(t.event->loaded@, second.name@, i),
    ensures
        ({
            let secret = t.event->loaded@[i].1->Ok_0;
            let covered = secret.mode != Mode::Never && asked_for(texts(first.names@), second.name@);
            &&& covered && u.now < t.now + lasts(first.ttl) ==> (u.next matches Flow::Recording {
                answer: Answer::Held(v),
            } && v@ == secret.value@)
            &&& !covered || u.now >= t.now + lasts(first.ttl) ==> u.next is Looking
                || u.next is Unlocking
        }),
{
    if let Event::Loaded { loaded, manifest, token } = t.event {
        a_search_finds_the_first_of_a_name(loaded@, second.name@, i);
        lemma_asked_for(texts(first.names@), second.name@);
        assert(mints(t.before, t.after, first, loaded@, token@, t.now, t.next, t.action));
    }
}

/// Success is owed: where every secret was read, every name that was given names something, and one
/// of what they name is not marked `never`, a token is minted. It is refused only where that fails.
pub proof fn a_token_is_minted_where_there_is_something_to_open(request: Request, t: Turn, i: int)
    requires
        taken(request, t),
        request.op == Op::Grant,
        t.flow is GrantLoading,
        t.event is Loaded,
        no_trailing_slash(texts(request.names@)),
        first_of(t.event->loaded@, t.event->loaded@[i].1->Ok_0.name@, i),
        t.event->loaded@[i].1->Ok_0.mode != Mode::Never,
        asked_for(texts(request.names@), t.event->loaded@[i].1->Ok_0.name@),
        forall|k: int| 0 <= k < t.event->loaded@.len() ==> (#[trigger] t.event->loaded@[k]).1 is Ok,
        forall|j: int|
            0 <= j < request.names@.len() ==> exists|k: int|
                0 <= k < t.event->loaded@.len() && names_or_holds(
                    texts(request.names@)[j],
                    (#[trigger] t.event->loaded@[k]).1->Ok_0.name@,
                ) && #[trigger] request.names@[j] == request.names@[j],
    ensures
        t.action is Record,
        t.next matches Flow::Recording { answer: Answer::Token(token, _) } && token@
            == t.event->token@,
{
    if let Event::Loaded { loaded, manifest, token } = t.event {
        let patterns = texts(request.names@);
        let name = loaded@[i].1->Ok_0.name@;
        a_search_finds_the_first_of_a_name(loaded@, name, i);
        lemma_asked_for(patterns, name);
        assert(coverage(loaded@, patterns).dom().contains(name));
        assert forall|j: int| 0 <= j < patterns.len() implies crate::broker::matches_some(
            loaded@,
            #[trigger] patterns[j],
        ) by {
            assert(request.names@[j] == request.names@[j]);
            let k = choose|k: int|
                0 <= k < loaded@.len() && names_or_holds(
                    patterns[j],
                    (#[trigger] loaded@[k]).1->Ok_0.name@,
                );
            crate::import::a_namespace_is_what_lies_under_it(loaded@[k].1->Ok_0.name@, patterns[j]);
        }
        assert(mints(t.before, t.after, request, loaded@, token@, t.now, t.next, t.action));
    }
}

/// The names that come back with a token are those it opens, each once.
pub proof fn a_token_comes_with_the_names_it_opens(request: Request, t: Turn, name: Seq<char>)
    requires
        taken(request, t),
        request.op == Op::Grant,
        t.flow is GrantLoading,
        t.event is Loaded,
        t.action is Record,
    ensures
        t.next matches Flow::Recording { answer: Answer::Token(token, names) } && token@
            == t.event->token@ && (texts(names@).contains(name)
            <==> t.after.tokens.contains_key(token@) && t.after.tokens[token@].0.contains_key(name)),
        t.action matches Action::Record { secrets, decision, by_key: _ } && decision@ == "granted"@
            && (texts(secrets@).contains(name) <==> t.after.tokens[t.event->token@].0.contains_key(
            name,
        )),
        t.after.key == t.before.key && t.after.approvals == t.before.approvals && t.after.leases
            == t.before.leases && t.after.grants == t.before.grants,
{
    if let Event::Loaded { loaded, manifest, token } = t.event {
        assert(mints(t.before, t.after, request, loaded@, token@, t.now, t.next, t.action));
        if let Action::Record { secrets, decision, by_key } = t.action {
            assert(texts(secrets@).to_set().contains(name) == texts(secrets@).contains(name));
        }
    }
}

/// A token stays what it is until it lapses: no step takes one away before its time, adds to it or
/// makes it last longer.
pub proof fn a_step_changes_no_token(request: Request, t: Turn, token: Seq<char>)
    requires
        taken(request, t),
        !(t.flow is GrantLoading),
    ensures
        t.after.tokens.contains_key(token) ==> t.before.tokens.contains_key(token)
            && t.after.tokens[token] == t.before.tokens[token],
        t.before.tokens.contains_key(token) && t.now < t.before.tokens[token].1
            ==> t.after.tokens.contains_key(token),
{
}

/// What the person at the sensor reads: a read names the secret and the agent, or the project and
/// how much it declares for how long, a listing names the agent, and a token what it opens, for whom
/// and for how long.
pub proof fn a_prompt_says_what_is_asked(request: Request, t: Turn)
    requires
        taken(request, t),
        t.flow is Looking ==> request.op == Op::Get,
        t.action is Ask,
    ensures
        ({
            let said = t.action->Ask_0@;
            let agent = request.agent@;
            match request.op {
                Op::Get => said == "release the password for "@ + request.name@ + " to "@ + agent || (
                t.next matches Flow::Declaring { secret: _, manifest } && said == "give "@ + agent
                    + " access to "@ + crate::number::decimal(manifest.secrets@.len() as int)
                    + " secrets declared by "@ + manifest.dir@ + " for "@ + crate::number::decimal(
                    manifest.window_secs as int / 60,
                ) + " minutes"@),
                Op::List => said == "list your secret names for "@ + agent,
                Op::Grant => said == "grant "@ + crate::order::join(texts(request.names@), ", "@)
                    + " to "@ + agent + " for "@ + crate::number::decimal(lasts(request.ttl)) + "s"@,
            }
        }),
{
}

/// What stands in the audit log says why a value went: by a token, within a lease, approved where
/// the finger came for it, under the project's grant, within the window where nobody had to be
/// asked, and for a refusal that it was denied or that there is no such secret.
pub proof fn a_record_says_why(request: Request, t: Turn)
    requires
        taken(request, t),
        request.op == Op::Get,
        t.flow is Start || t.flow is Looking || t.flow is Confirming || t.flow is Saving,
        t.action is Record,
    ensures
        texts(t.action->secrets@) == seq![request.name@],
        ({
            let why = t.action->decision@;
            match t.next {
                Flow::Recording { answer: Answer::Held(v) } => if request.token@.len() > 0
                    && t.before.tokens.contains_key(request.token@) && t.now
                    < t.before.tokens[request.token@].1
                    && t.before.tokens[request.token@].0.contains_key(request.name@) {
                    why == "by token"@ && v@ == t.before.tokens[request.token@].0[request.name@]
                } else {
                    why == "within lease"@
                },
                Flow::Recording { answer: Answer::Secret(_) } => match t.flow {
                    Flow::Confirming { .. } => why == "approved"@,
                    Flow::Saving { .. } => why == "project grant"@,
                    Flow::Looking { asked } => if asked && !under_grant(request, t) {
                        why == "approved"@
                    } else if asked {
                        why == "approved"@ || why == "project grant"@
                    } else {
                        why == "within window"@ || (why == "project grant"@ && under_grant(
                            request,
                            t,
                        ))
                    },
                    _ => false,
                },
                Flow::Recording { answer: Answer::Refusal(e) } => (why == "denied"@ && e
                    is MarkedNever) || (why == "unknown"@ && e is NoSecret),
                _ => false,
            }
        }),
{
}

/// A read is never refused without cause: a search that failed passes its failure on, a name that
/// nothing has is refused as such, and a secret that was found is refused only where it is marked
/// `never` and no person reads it. Where the key was asked for and the finger came, any other goes.
pub proof fn a_read_is_refused_only_for_cause(request: Request, t: Turn)
    requires
        taken(request, t),
        request.op == Op::Get,
        t.flow is Looking,
        t.event is Loaded,
    ensures
        match found(t.event->loaded@, request.name@) {
            Err(e) => t.next is Done && t.action == Action::Reply(Err::<String, Problem>(e)),
            Ok(None) => t.next matches Flow::Recording { answer: Answer::Refusal(e) } && (
            e matches Problem::NoSecret(n) && n@ == request.name@),
            Ok(Some(secret)) => if secret.mode == Mode::Never && !request.interactive {
                t.next matches Flow::Recording { answer: Answer::Refusal(e) } && (
                e matches Problem::MarkedNever(n) && n@ == request.name@)
            } else {
                ||| t.next == (Flow::Recording { answer: Answer::Secret(secret) })
                ||| t.action is Ask && t.flow == (Flow::Looking { asked: false }) && (t.next == (
                Flow::Confirming { secret }) || (t.next matches Flow::Declaring {
                    secret: s,
                    manifest: _,
                } && s == secret))
            },
        },
{
}

/// An `open` secret goes to whoever asks, and one in a window to an agent that was approved within
/// it, with nobody asked once the key is at hand.
pub proof fn what_is_open_is_not_asked_for(request: Request, t: Turn, secret: Secret)
    requires
        taken(request, t),
        request.op == Op::Get,
        t.flow is Looking,
        came_upon(request, t, secret),
        secret.mode == Mode::Open || (secret.mode == Mode::Window && t.before.approvals.contains_key(
            (request.agent@, request.name@),
        ) && t.before.approvals[(request.agent@, request.name@)] <= t.now
            < t.before.approvals[(request.agent@, request.name@)] + secret.window_secs),
    ensures
        t.next == (Flow::Recording { answer: Answer::Secret(secret) }),
{
}

/// `always` and a window that ran out ask, once the key is at hand and no project grant covers the
/// name: for everything the project declares where it declares the name, and else for the one.
pub proof fn what_is_not_open_is_asked_for(request: Request, t: Turn, secret: Secret)
    requires
        taken(request, t),
        request.op == Op::Get,
        t.flow == (Flow::Looking { asked: false }),
        came_upon(request, t, secret),
        secret.mode == Mode::Always || (secret.mode == Mode::Window && !(t.before.approvals.contains_key(
            (request.agent@, request.name@),
        ) && t.before.approvals[(request.agent@, request.name@)] <= t.now
            < t.before.approvals[(request.agent@, request.name@)] + secret.window_secs)),
        forall|k: int|
            0 <= k < t.before.grants.len() ==> !((#[trigger] t.before.grants[k]).until > t.now
                && t.before.grants[k].secrets.contains(request.name@)),
    ensures
        t.action is Ask,
        match t.event->manifest {
            Some(m) => if texts(m.secrets@).contains(request.name@) {
                t.next == (Flow::Declaring { secret, manifest: m })
            } else {
                t.next == (Flow::Confirming { secret })
            },
            None => t.next == (Flow::Confirming { secret }),
        },
{
}

/// A grant stands for a name exactly while it has not run out, for the manifest with the same
/// contents in the same place, and for what it listed.
pub proof fn a_grant_stands_for_what_was_approved(
    grants: Seq<GrantV>,
    m: crate::project::ManifestV,
    name: Seq<char>,
    now: u64,
)
    ensures
        granted(grants, Some(m), name, now) <==> exists|i: int|
            0 <= i < grants.len() && (#[trigger] grants[i]).until > now && grants[i].hash == m.hash
                && grants[i].dir == m.dir && grants[i].secrets.contains(name),
        !granted(grants, None, name, now),
{
    if exists|i: int|
        0 <= i < grants.len() && (#[trigger] grants[i]).until > now && grants[i].hash == m.hash
            && grants[i].dir == m.dir && grants[i].secrets.contains(name) {
        let i = choose|i: int|
            0 <= i < grants.len() && (#[trigger] grants[i]).until > now && grants[i].hash == m.hash
                && grants[i].dir == m.dir && grants[i].secrets.contains(name);
        assert(crate::project::grant_covers(grants[i], m, name, now));
    }
}

/// A listing lists what there is: where every secret was read, the answer is their names in order,
/// one to a line, each as often as there are secrets of that name.
pub proof fn a_listing_lists_every_name(request: Request, t: Turn)
    requires
        taken(request, t),
        request.op == Op::List,
        t.flow is Listing,
        t.event is Loaded,
        forall|k: int| 0 <= k < t.event->loaded@.len() ==> (#[trigger] t.event->loaded@[k]).1 is Ok,
    ensures
        exists|names: Seq<Seq<char>>|
            crate::order::sorted(names) && #[trigger] names.to_multiset() == t.event->loaded@.map_values(
                |x: (String, Result<Secret, Problem>)| x.1->Ok_0.name@,
            ).to_multiset() && (t.action matches Action::Reply(Ok(text)) && text@
                == crate::order::join(names, "\n"@)),
        t.after == t.before,
{
    if let Event::Loaded { loaded, manifest, token } = t.event {
        let results = crate::broker::results_of(loaded@);
        lemma_none_failed(results);
        assert(crate::lookup::names_of(results) =~= loaded@.map_values(
            |x: (String, Result<Secret, Problem>)| x.1->Ok_0.name@,
        ));
        assert(crate::broker::lists(loaded@, t.action));
    }
}

proof fn lemma_none_failed(results: Seq<Result<Secret, Problem>>)
    requires
        forall|k: int| 0 <= k < results.len() ==> (#[trigger] results[k]) is Ok,
    ensures
        crate::lookup::first_failure(results) == results.len(),
    decreases results.len(),
{
    if results.len() > 0 {
        assert(results[0] is Ok);
        let rest = results.drop_first();
        assert forall|k: int| 0 <= k < rest.len() implies (#[trigger] rest[k]) is Ok by {
            assert(rest[k] == results[k + 1]);
        }
        lemma_none_failed(rest);
    }
}

/// What failed outside is what is answered, and nothing changes on that account.
pub proof fn a_failure_is_passed_on(request: Request, t: Turn, e: Problem)
    requires
        taken(request, t),
        t.event == Event::Failed(e),
    ensures
        t.after == t.before,
        t.next is Done,
        t.action == Action::Reply(Err::<String, Problem>(e)),
{
}

/// What was recorded is what is answered: the value that was held, the value of the secret, or the
/// refusal, and with that the request is done.
pub proof fn what_was_recorded_is_answered(request: Request, t: Turn)
    requires
        taken(request, t),
        t.flow is Recording,
        t.event is Recorded,
    ensures
        t.next is Done,
        t.flow matches Flow::Recording { answer: Answer::Held(v) } ==> (t.action matches Action::Reply(
            Ok(w),
        ) && w@ == v@),
        t.flow matches Flow::Recording { answer: Answer::Secret(s) } ==> (
        t.action matches Action::Reply(Ok(w)) && w@ == s.value@),
        t.flow matches Flow::Recording { answer: Answer::Refusal(e) } ==> t.action == Action::Reply(
            Err::<String, Problem>(e),
        ),
        t.after.key == t.before.key && t.after.tokens == t.before.tokens && t.after.approvals
            == t.before.approvals && t.after.grants == t.before.grants,
{
}

/// Whoever asked for a token gets that token and the names it opens, and nothing else: what is answered
/// is taken apart into just these.
pub proof fn a_token_reaches_whoever_asked(
    request: Request,
    t: Turn,
    token: String,
    names: Vec<String>,
    r: (String, Vec<String>),
)
    requires
        taken(request, t),
        t.flow == (Flow::Recording { answer: Answer::Token(token, names) }),
        t.event is Recorded,
        !token@.contains('\n'),
        forall|i: int|
            0 <= i < names@.len() ==> (#[trigger] texts(names@)[i]).len() > 0 && !texts(
                names@,
            )[i].contains('\n') && (i < names@.len() - 1 ==> texts(names@)[i].last() != '\r'),
        t.action matches Action::Reply(Ok(text)) ==> crate::commands::splits_grant(text@, r),
    ensures
        t.action matches Action::Reply(Ok(_)),
        r.0@ == token@,
        texts(r.1@) == texts(names@),
{
    crate::commands::a_grant_is_read_back(token@, texts(names@), r);
}

/// A finger leads on: with the key at hand the secrets are read, for the read that asked, for the
/// listing once it is recorded, and for the token; what a project declares is saved before anything
/// goes; and what was asked for by itself goes at once.
pub proof fn a_finger_leads_on(request: Request, t: Turn)
    requires
        taken(request, t),
        t.event is Unlocked,
    ensures
        t.flow is Unlocking ==> t.action is Load && t.next == (Flow::Looking { asked: true }),
        t.flow is GrantUnlocking ==> t.action is Load && t.next is GrantLoading,
        t.flow is ListUnlocking ==> t.action is Record && t.next is ListRecording && texts(
            t.action->secrets@,
        ) == seq!["<list>"@] && t.action->decision@ == "approved"@,
        t.flow matches Flow::Confirming { secret } ==> t.next == (Flow::Recording {
            answer: Answer::Secret(secret),
        }),
        t.flow matches Flow::Declaring { secret, manifest: _ } ==> t.next == (Flow::Saving { secret })
            && (t.action matches Action::Save(g) && grants_of(g@) == t.after.grants),
        t.event matches Event::Unlocked { key: _, grants } ==> t.after.grants.take(grants@.len() as int)
            == grants_of(grants@) && t.after.grants.len() <= grants@.len() + 1 && (!(t.flow
            is Declaring) ==> t.after.grants.len() == grants@.len()),
        t.after.leases == t.before.leases && t.after.tokens == t.before.tokens,
{
    if let Event::Unlocked { key, grants } = t.event {
        assert(t.after.grants.take(grants@.len() as int) =~= grants_of(grants@));
    }
}

/// A request that is recorded or saved goes on to what it was for.
pub proof fn a_request_goes_on(request: Request, t: Turn)
    requires
        taken(request, t),
    ensures
        t.flow is ListRecording && t.event is Recorded ==> t.next is Listing && t.action is Load
            && t.after == t.before,
        (t.flow matches Flow::Saving { secret } && t.event is Saved) ==> t.after == t.before && (
        t.next matches Flow::Recording { answer: Answer::Secret(s) } && t.flow == (Flow::Saving {
            secret: s,
        })),
        t.flow is Start && t.event is Begin && request.op == Op::List && t.action is Record ==> texts(
            t.action->secrets@,
        ) == seq!["<list>"@] && t.action->decision@ == "within window"@,
{
}

/// A listing is asked for exactly where the key is gone or the agent's last finger for one is five
/// minutes old, or none.
pub proof fn a_listing_is_asked_for_every_five_minutes(request: Request, t: Turn)
    requires
        taken(request, t),
        request.op == Op::List,
        t.flow is Start,
        t.event is Begin,
    ensures
        ({
            let slot = (request.agent@, "\u{0}list"@);
            let fresh = t.before.approvals.contains_key(slot) && t.before.approvals[slot] <= t.now
                < t.before.approvals[slot] + 300;
            &&& key_at_hand(t.before, t.now) && fresh ==> t.next is ListRecording
            &&& !key_at_hand(t.before, t.now) || !fresh ==> t.next is ListUnlocking && t.action is Ask
        }),
{
}

/// A token is refused for the first name that names nothing, where every secret was read, and where all
/// that is named is marked `never` because of that; a secret that could not be read is passed on.
pub proof fn a_token_is_refused_for_the_first_cause(request: Request, t: Turn, j: int)
    requires
        taken(request, t),
        request.op == Op::Grant,
        t.flow is GrantLoading,
        t.event is Loaded,
        no_trailing_slash(texts(request.names@)),
        forall|k: int| 0 <= k < t.event->loaded@.len() ==> (#[trigger] t.event->loaded@[k]).1 is Ok,
        0 <= j < request.names@.len(),
        forall|k: int|
            0 <= k < t.event->loaded@.len() ==> !names_or_holds(
                texts(request.names@)[j],
                (#[trigger] t.event->loaded@[k]).1->Ok_0.name@,
            ),
    ensures
        t.after == t.before,
        t.action matches Action::Reply(Err(Problem::NothingUnder(p))) && exists|i: int|
            0 <= i <= j && p@ == #[trigger] texts(request.names@)[i],
{
    if let Event::Loaded { loaded, manifest, token } = t.event {
        let patterns = texts(request.names@);
        assert(!crate::broker::matches_some(loaded@, patterns[j])) by {
            if crate::broker::matches_some(loaded@, patterns[j]) {
                let k = choose|k: int|
                    0 <= k < loaded@.len() && crate::import::selected(
                        (#[trigger] loaded@[k]).1->Ok_0.name@,
                        patterns[j],
                    );
                crate::import::a_namespace_is_what_lies_under_it(
                    loaded@[k].1->Ok_0.name@,
                    patterns[j],
                );
            }
        }
        assert(mints(t.before, t.after, request, loaded@, token@, t.now, t.next, t.action));
    }
}

/// What a project grant covers goes under it and needs no approval of its own: it is recorded as that,
/// and nobody is noted as approved, even where the key had to be asked for.
pub proof fn what_a_grant_covers_goes_under_it(request: Request, t: Turn, secret: Secret)
    requires
        taken(request, t),
        request.op == Op::Get,
        t.flow is Looking,
        came_upon(request, t, secret),
        under_grant(request, t),
        secret.mode == Mode::Always || (secret.mode == Mode::Window
            && !t.before.approvals.contains_key((request.agent@, request.name@))),
    ensures
        t.next == (Flow::Recording { answer: Answer::Secret(secret) }),
        t.action is Record && t.action->decision@ == "project grant"@,
        t.after == t.before,
{
}

} // verus!

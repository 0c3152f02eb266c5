//! What the broker promises of a request as a whole, from its arrival to the answer.

use crate::broker::{
    approval, asks, carries, cooled, decision, fits, found, granted, grant_reason, list_reason,
    manifest_of, records, release_reason, steps, token_value, Action, Answer, BrokerV, Decision, Event, Flow,
    Op, Request, LIST_SLOT,
};
use crate::store::{Mode, Secret, DEFAULT_WINDOW_SECS};
use crate::text::texts;
use vstd::prelude::*;

verus! {

/// One step of a request.
pub struct Turn {
    /// What the broker held
    pub before: BrokerV,
    /// How far the request had got
    pub flow: Flow,
    /// What came of the last thing that was to be done
    pub event: Event,
    /// When
    pub now: u64,
    /// What the broker holds from now on
    pub after: BrokerV,
    /// How far the request has got
    pub next: Flow,
    /// What is to be done
    pub action: Action,
}

/// The broker took this step.
pub open spec fn taken(request: Request, t: Turn) -> bool {
    &&& fits(t.flow, t.event)
    &&& steps(t.before, t.after, request, t.flow, t.event, t.now, t.next, t.action)
}

/// A request from its arrival on: each step goes on where the last one stopped. Other requests may
/// have changed what the broker holds in between.
pub open spec fn course(request: Request, turns: Seq<Turn>) -> bool {
    &&& turns.len() > 0
    &&& turns[0].flow is Start
    &&& forall|i: int| 0 <= i < turns.len() ==> taken(request, #[trigger] turns[i])
    &&& forall|i: int, j: int|
        0 <= i < turns.len() && j == i + 1 && j < turns.len() ==> (#[trigger] turns[i]).next == (
        #[trigger] turns[j]).flow
}

/// The text that the request was answered with.
pub open spec fn answered(turns: Seq<Turn>, value: Seq<char>) -> bool {
    turns.last().action matches Action::Reply(Ok(text)) && text@ == value
}

/// Somebody put a finger on the sensor during the request.
pub open spec fn prompted(turns: Seq<Turn>) -> bool {
    exists|i: int| 0 <= i < turns.len() && (#[trigger] turns[i]).event is Unlocked
}

/// A token or a lease held the value when the request arrived.
pub open spec fn held(request: Request, first: Turn, value: Seq<char>) -> bool {
    let name = request.name@;
    let b = first.before;
    ||| request.token@.len() > 0 && token_value(b.tokens, request.token@, name, first.now) == Some(
        value,
    )
    ||| b.leases.contains_key(name) && first.now < b.leases[name].1 && b.leases[name].0 == value
}

/// The step looked the name up and came upon this secret, which is not marked `never` unless a
/// person reads it.
pub open spec fn came_upon(request: Request, t: Turn, secret: Secret) -> bool {
    &&& t.event matches Event::Loaded { loaded, manifest: _, token: _ } && found(
        loaded@,
        request.name@,
    ) == Ok::<_, crate::problem::Problem>(Some(secret))
    &&& secret.mode == Mode::Never ==> request.interactive
}

/// A project grant covers the name in this step.
pub open spec fn under_grant(request: Request, t: Turn) -> bool {
    t.event matches Event::Loaded { loaded: _, manifest, token: _ } && granted(
        t.before.grants,
        manifest_of(manifest),
        request.name@,
        t.now,
    )
}

/// The secret goes without asking: its mode or an approval lets it through, or a project grant
/// covers it. One marked `never` never does.
pub open spec fn let_through(request: Request, t: Turn, secret: Secret) -> bool {
    secret.mode != Mode::Never && (decision(
        secret.mode,
        secret.window_secs,
        approval(t.before, request.agent@, request.name@),
        t.now,
    ) == Decision::Allow || under_grant(request, t))
}

/// The secret was looked up during the request.
pub open spec fn looked_up(request: Request, turns: Seq<Turn>, secret: Secret) -> bool {
    exists|i: int| 0 <= i < turns.len() && came_upon(request, #[trigger] turns[i], secret)
}

/// The secret was looked up during the request, and may go: somebody was asked, or nobody had to be.
pub open spec fn cleared(request: Request, turns: Seq<Turn>, secret: Secret) -> bool {
    exists|i: int|
        0 <= i < turns.len() && came_upon(request, #[trigger] turns[i], secret) && (prompted(turns)
            || let_through(request, turns[i], secret))
}

/// What a read carries with it, step by step.
spec fn carried(request: Request, turns: Seq<Turn>, flow: Flow) -> bool {
    match flow {
        Flow::Unlocking => true,
        Flow::Looking { asked } => asked ==> prompted(turns),
        Flow::Confirming { secret } => looked_up(request, turns, secret),
        Flow::Declaring { secret, manifest: _ } => looked_up(request, turns, secret),
        Flow::Saving { secret } => cleared(request, turns, secret),
        Flow::Recording { answer } => match answer {
            Answer::Held(value) => held(request, turns[0], value@),
            Answer::Secret(secret) => cleared(request, turns, secret),
            Answer::Refusal(_) => true,
            Answer::Token(_, _) => false,
        },
        Flow::Done => true,
        _ => false,
    }
}

proof fn lemma_carried(request: Request, turns: Seq<Turn>, i: int)
    requires
        course(request, turns),
        request.op == Op::Get,
        0 <= i < turns.len(),
    ensures
        carried(request, turns, turns[i].next),
    decreases i,
{
    let t = turns[i];
    assert(taken(request, t));
    if i > 0 {
        lemma_carried(request, turns, i - 1);
        assert(turns[i - 1].next == t.flow);
        match t.flow {
            Flow::Confirming { secret } => {
                if t.event is Unlocked {
                    assert(prompted(turns));
                    let k = choose|k: int|
                        0 <= k < turns.len() && came_upon(request, #[trigger] turns[k], secret);
                    assert(came_upon(request, turns[k], secret));
                }
            },
            Flow::Declaring { secret, manifest: _ } => {
                if t.event is Unlocked {
                    assert(prompted(turns));
                    let k = choose|k: int|
                        0 <= k < turns.len() && came_upon(request, #[trigger] turns[k], secret);
                    assert(came_upon(request, turns[k], secret));
                }
            },
            Flow::Looking { asked } => {
                if let Event::Loaded { loaded, manifest, token } = t.event {
                    if let Ok(Some(secret)) = found(loaded@, request.name@) {
                        if secret.mode != Mode::Never || request.interactive {
                            assert(came_upon(request, turns[i], secret));
                        }
                    }
                }
            },
            _ => {},
        }
    }
}

/// No value leaves without leave. Whatever a read is answered with was held for it by a token or a
/// lease, or it is the value of the secret under the very name that was asked for, which went
/// because somebody put a finger on the sensor during this request, because its mode or an approval
/// that still carries lets it through, or because a project grant covers it. One marked `never`
/// goes to nobody but a person, and only with the finger.
pub proof fn no_value_leaves_without_leave(request: Request, turns: Seq<Turn>, value: Seq<char>)
    requires
        course(request, turns),
        request.op == Op::Get,
        answered(turns, value),
    ensures
        held(request, turns[0], value) || exists|secret: Secret| #[trigger]
            cleared(request, turns, secret) && secret.value@ == value,
{
    let n = turns.len() - 1;
    let t = turns[n];
    assert(taken(request, t));
    if n > 0 {
        lemma_carried(request, turns, n - 1);
        assert(turns[n - 1].next == t.flow);
        if let Flow::Recording { answer: Answer::Secret(secret) } = t.flow {
            assert(cleared(request, turns, secret));
        }
    }
}

/// A broker without the key gives nothing away unasked: where no token and no lease holds the
/// value, the first thing a read does is ask for this secret, for this agent, and it is answered
/// only if the finger came.
pub proof fn a_cold_read_takes_a_finger(request: Request, turns: Seq<Turn>, value: Seq<char>)
    requires
        course(request, turns),
        request.op == Op::Get,
        answered(turns, value),
        cooled(turns[0].before, turns[0].now).key is None,
        !held(request, turns[0], value),
    ensures
        asks(turns[0].action, release_reason(request.agent@, request.name@)),
        turns.len() > 1,
        turns[1].event is Unlocked,
{
    assert(taken(request, turns[0]));
    if turns[0].next is Recording {
        lemma_first_answer(request, turns, value);
    }
    if turns.len() > 1 {
        assert(turns[0].next == turns[1].flow);
        assert(taken(request, turns[1]));
        if turns.len() > 2 {
            assert(turns[1].next == turns[2].flow);
            assert(taken(request, turns[2]));
        }
    }
}

/// What a token or a lease holds is what is answered.
proof fn lemma_first_answer(request: Request, turns: Seq<Turn>, value: Seq<char>)
    requires
        course(request, turns),
        request.op == Op::Get,
        answered(turns, value),
        turns[0].next is Recording,
    ensures
        held(request, turns[0], value),
{
    assert(taken(request, turns[0]));
    if turns.len() > 1 {
        assert(turns[0].next == turns[1].flow);
        assert(taken(request, turns[1]));
        if turns.len() > 2 {
            assert(turns[1].next == turns[2].flow);
            assert(taken(request, turns[2]));
        }
    }
}

/// `always` asks for every read: a secret in that mode is released only in a request in which
/// somebody put a finger on the sensor, or under a project grant.
pub proof fn always_asks_for_every_read(request: Request, turns: Seq<Turn>, secret: Secret)
    requires
        cleared(request, turns, secret),
        secret.mode == Mode::Always,
    ensures
        prompted(turns) || exists|i: int|
            0 <= i < turns.len() && under_grant(request, #[trigger] turns[i]),
{
    let i = choose|i: int|
        0 <= i < turns.len() && came_upon(request, #[trigger] turns[i], secret) && (prompted(turns)
            || let_through(request, turns[i], secret));
    assert(came_upon(request, turns[i], secret));
}

/// A listing is answered only if the finger came, or the agent's window for listings still carries
/// and the key is at hand.
pub proof fn a_listing_takes_a_finger_or_its_window(
    request: Request,
    turns: Seq<Turn>,
    value: Seq<char>,
)
    requires
        course(request, turns),
        request.op == Op::List,
        answered(turns, value),
    ensures
        ({
            let b = turns[0].before;
            let now = turns[0].now;
            ||| cooled(b, now).key is Some && carries(
                DEFAULT_WINDOW_SECS,
                approval(b, request.agent@, LIST_SLOT@),
                now,
            )
            ||| asks(turns[0].action, list_reason(request.agent@)) && turns.len() > 1
                && turns[1].event is Unlocked
        }),
{
    assert(taken(request, turns[0]));
    if turns.len() > 1 {
        assert(turns[0].next == turns[1].flow);
        assert(taken(request, turns[1]));
        if turns.len() > 2 {
            assert(turns[1].next == turns[2].flow);
            assert(taken(request, turns[2]));
        }
    }
}

/// A token is handed out only if the finger came, after a prompt that named what it covers, for
/// whom and for how long.
pub proof fn a_token_takes_a_finger(request: Request, turns: Seq<Turn>, value: Seq<char>)
    requires
        course(request, turns),
        request.op == Op::Grant,
        answered(turns, value),
    ensures
        asks(
            turns[0].action,
            grant_reason(texts(request.names@), request.agent@, request.ttl),
        ),
        turns.len() > 1,
        turns[1].event is Unlocked,
{
    assert(taken(request, turns[0]));
    if turns.len() > 1 {
        assert(turns[0].next == turns[1].flow);
        assert(taken(request, turns[1]));
        if turns.len() > 2 {
            assert(turns[1].next == turns[2].flow);
            assert(taken(request, turns[2]));
        }
    }
}

// ---------------------------------------------------------------------------------------------
// How often

/// Nobody is asked from here on.
spec fn spent(flow: Flow) -> bool {
    match flow {
        Flow::Start => false,
        Flow::Looking { asked } => asked,
        _ => true,
    }
}

proof fn lemma_spent(request: Request, turns: Seq<Turn>, i: int, j: int)
    requires
        course(request, turns),
        0 <= i < j < turns.len(),
        turns[i].action is Ask,
    ensures
        spent(turns[j].flow),
        !(turns[j].action is Ask),
    decreases j,
{
    assert(taken(request, turns[i]));
    assert(taken(request, turns[j]));
    if j > i + 1 {
        lemma_spent(request, turns, i, j - 1);
        assert(taken(request, turns[j - 1]));
    }
    assert(turns[j - 1].next == turns[j].flow);
}

/// A request raises one prompt at the most, whatever it asks for and whatever comes back.
pub proof fn a_request_asks_at_most_once(request: Request, turns: Seq<Turn>, i: int, j: int)
    requires
        course(request, turns),
        0 <= i < turns.len(),
        0 <= j < turns.len(),
        turns[i].action is Ask,
        turns[j].action is Ask,
    ensures
        i == j,
{
    if i < j {
        lemma_spent(request, turns, i, j);
    }
    if j < i {
        lemma_spent(request, turns, j, i);
    }
}

/// The reasons for which a value is released.
pub open spec fn is_reason(why: Seq<char>) -> bool {
    ||| why == "by token"@
    ||| why == "within lease"@
    ||| why == "within window"@
    ||| why == "project grant"@
    ||| why == "approved"@
}

/// The action is to record that this secret was released, for one of the reasons there are.
pub open spec fn records_release(action: Action, name: Seq<char>) -> bool {
    exists|why: Seq<char>, by_key: bool|
        is_reason(why) && #[trigger] records(action, name, why, by_key)
}

proof fn lemma_reason(request: Request, t: Turn)
    requires
        taken(request, t),
        t.next matches Flow::Recording { answer } && (answer is Held || answer is Secret),
    ensures
        records_release(t.action, request.name@),
{
    let name = request.name@;
    if records(t.action, name, "by token"@, false) {
        assert(is_reason("by token"@));
    }
    if records(t.action, name, "within lease"@, false) {
        assert(is_reason("within lease"@));
    }
    if records(t.action, name, "within window"@, true) {
        assert(is_reason("within window"@));
    }
    if records(t.action, name, "project grant"@, true) {
        assert(is_reason("project grant"@));
    }
    if records(t.action, name, "approved"@, true) {
        assert(is_reason("approved"@));
    }
}

/// A read that is answered with a value was recorded once, right before the answer: one record of
/// this secret with the reason for its release, which was written.
pub proof fn a_release_is_recorded_once(request: Request, turns: Seq<Turn>, value: Seq<char>)
    requires
        course(request, turns),
        request.op == Op::Get,
        answered(turns, value),
    ensures
        turns.len() > 1,
        records_release(turns[turns.len() - 2].action, request.name@),
        turns.last().event is Recorded,
        forall|i: int|
            0 <= i < turns.len() && (#[trigger] turns[i]).action is Record ==> i == turns.len() - 2,
{
    let n = turns.len() - 1;
    let t = turns[n];
    assert(taken(request, t));
    if n > 0 {
        lemma_carried(request, turns, n - 1);
        assert(turns[n - 1].next == t.flow);
        assert(taken(request, turns[n - 1]));
        lemma_reason(request, turns[n - 1]);
    }
    assert forall|i: int| 0 <= i < turns.len() && (#[trigger] turns[i]).action is Record implies i
        == n - 1 by {
        assert(taken(request, turns[i]));
        lemma_carried(request, turns, i);
        if i < n {
            assert(turns[i].next == turns[i + 1].flow);
            assert(taken(request, turns[i + 1]));
            if i + 1 < n {
                assert(turns[i + 1].next == turns[i + 2].flow);
                assert(taken(request, turns[i + 2]));
            }
        }
    }
}

} // verus!

//! What makes no difference to an answer: a token that opens nothing makes none to a read, and an
//! approval of a secret makes none to a listing.

use crate::broker::{
    approval, begins_get, begins_list, carries, cooled, lists, records, results_of, token_value,
    Action, Answer, BrokerV, Event, Flow, Op, Request, LIST_SLOT,
};
use crate::course::{answered, course, taken, Turn};
use crate::lookup::names_of;
use crate::order::{lemma_sorted_unique, sorted};
use crate::problem::Problem;
use crate::project::grants_of;
use crate::store::DEFAULT_WINDOW_SECS;
use crate::text::texts;
use vstd::prelude::*;
use vstd::string::*;

verus! {

/// Both answer the same to whoever asked.
pub open spec fn same_reply(a: Result<String, Problem>, b: Result<String, Problem>) -> bool {
    match (a, b) {
        (Ok(x), Ok(y)) => x@ == y@,
        (Err(x), Err(y)) => x.words() == y.words(),
        _ => false,
    }
}

/// Both are the same to do.
pub open spec fn same_action(a: Action, b: Action) -> bool {
    match (a, b) {
        (Action::Ask(x), Action::Ask(y)) => x@ == y@,
        (Action::Load, Action::Load) => true,
        (Action::Save(x), Action::Save(y)) => grants_of(x@) == grants_of(y@),
        (
            Action::Record { secrets: x, decision: d, by_key: k },
            Action::Record { secrets: y, decision: e, by_key: l },
        ) => texts(x@) == texts(y@) && d@ == e@ && k == l,
        (Action::Reply(x), Action::Reply(y)) => same_reply(x, y),
        _ => false,
    }
}

spec fn same_answer(a: Answer, b: Answer) -> bool {
    match (a, b) {
        (Answer::Held(x), Answer::Held(y)) => x@ == y@,
        (Answer::Refusal(x), Answer::Refusal(y)) => x.words() == y.words(),
        _ => a == b,
    }
}

/// Both have got as far.
spec fn same_flow(a: Flow, b: Flow) -> bool {
    match (a, b) {
        (Flow::Recording { answer: x }, Flow::Recording { answer: y }) => same_answer(x, y),
        _ => a == b,
    }
}

/// Two requests that go step by step through the same: what comes back from the outside, and when,
/// is the same for both.
pub open spec fn in_step(a: Seq<Turn>, b: Seq<Turn>) -> bool {
    &&& a.len() == b.len()
    &&& forall|i: int|
        #![trigger a[i]]
        #![trigger b[i]]
        0 <= i < a.len() ==> a[i].event == b[i].event && a[i].now == b[i].now
}

/// Nothing else changes what the broker holds between two steps.
pub open spec fn undisturbed(turns: Seq<Turn>) -> bool {
    forall|i: int, j: int|
        0 <= i < turns.len() && j == i + 1 && j < turns.len() ==> (#[trigger] turns[i]).after == (
        #[trigger] turns[j]).before
}

/// Every step of both does the same.
pub open spec fn do_the_same(a: Seq<Turn>, b: Seq<Turn>) -> bool {
    forall|i: int|
        #![trigger a[i]]
        #![trigger b[i]]
        0 <= i < a.len() ==> same_action(a[i].action, b[i].action)
}

// ---------------------------------------------------------------------------------------------
// A token that opens nothing

/// What the broker holds, but for its tokens.
spec fn bare(b: BrokerV) -> BrokerV {
    BrokerV { tokens: Map::empty(), ..b }
}

/// The requests ask for the same read, whatever token each presents.
pub open spec fn same_read(a: Request, b: Request) -> bool {
    &&& a.op == Op::Get && b.op == Op::Get
    &&& a.name@ == b.name@
    &&& a.agent@ == b.agent@
    &&& a.interactive == b.interactive
}

/// As far as a read gets.
spec fn reading(flow: Flow) -> bool {
    match flow {
        Flow::Unlocking => true,
        Flow::Looking { .. } => true,
        Flow::Confirming { .. } => true,
        Flow::Declaring { .. } => true,
        Flow::Saving { .. } => true,
        Flow::Recording { answer } => !(answer is Token),
        Flow::Done => true,
        _ => false,
    }
}

proof fn lemma_same_step(p: Request, q: Request, s: Turn, t: Turn)
    requires
        same_read(p, q),
        taken(p, s),
        taken(q, t),
        s.event == t.event,
        s.now == t.now,
        reading(s.flow),
        same_flow(s.flow, t.flow),
        bare(s.before) == bare(t.before),
    ensures
        reading(s.next),
        same_flow(s.next, t.next),
        bare(s.after) == bare(t.after),
        same_action(s.action, t.action),
{
    assert(s.before.key == t.before.key) by {
        assert(bare(s.before).key == bare(t.before).key);
    }
    assert(s.before.key_at == t.before.key_at) by {
        assert(bare(s.before).key_at == bare(t.before).key_at);
    }
    assert(s.before.leases == t.before.leases) by {
        assert(bare(s.before).leases == bare(t.before).leases);
    }
    assert(s.before.approvals == t.before.approvals) by {
        assert(bare(s.before).approvals == bare(t.before).approvals);
    }
    assert(s.before.grants == t.before.grants) by {
        assert(bare(s.before).grants == bare(t.before).grants);
    }
    let name = p.name@;
    assert(approval(s.before, p.agent@, name) == approval(t.before, p.agent@, name));
}

proof fn lemma_same_read(p: Request, q: Request, a: Seq<Turn>, b: Seq<Turn>, i: int)
    requires
        same_read(p, q),
        course(p, a),
        course(q, b),
        undisturbed(a),
        undisturbed(b),
        in_step(a, b),
        a[0].before == b[0].before,
        q.token@.len() == 0,
        token_value(a[0].before.tokens, p.token@, p.name@, a[0].now) is None,
        0 <= i < a.len(),
    ensures
        reading(a[i].next),
        same_flow(a[i].next, b[i].next),
        bare(a[i].after) == bare(b[i].after),
        same_action(a[i].action, b[i].action),
    decreases i,
{
    assert(taken(p, a[i]));
    assert(taken(q, b[i]));
    if i == 0 {
        if a[0].event is Begin {
            let x = a[0].before;
            let now = a[0].now;
            assert(begins_get(x, a[0].after, p, now, a[0].next, a[0].action));
            assert(begins_get(x, b[0].after, q, now, b[0].next, b[0].action));
        }
    } else {
        lemma_same_read(p, q, a, b, i - 1);
        assert(a[i - 1].next == a[i].flow && b[i - 1].next == b[i].flow);
        assert(a[i - 1].after == a[i].before && b[i - 1].after == b[i].before);
        lemma_same_step(p, q, a[i], b[i]);
    }
}

/// A token that is unknown, lapsed, or granted for other names is worth nothing: from start to end
/// the read raises the same prompts, writes the same records and gets the same answer as it does
/// without a token.
pub proof fn a_token_that_opens_nothing_changes_nothing(
    with: Request,
    without: Request,
    a: Seq<Turn>,
    b: Seq<Turn>,
)
    requires
        same_read(with, without),
        without.token@.len() == 0,
        course(with, a),
        course(without, b),
        undisturbed(a),
        undisturbed(b),
        in_step(a, b),
        a[0].before == b[0].before,
        token_value(a[0].before.tokens, with.token@, with.name@, a[0].now) is None,
    ensures
        do_the_same(a, b),
{
    assert forall|i: int|
        #![trigger a[i]]
        #![trigger b[i]]
        0 <= i < a.len() implies same_action(a[i].action, b[i].action) by {
        lemma_same_read(with, without, a, b, i);
    }
}

/// A token that opens the name answers by itself: the read is recorded as by the token, nobody is
/// asked at any step, and what is answered is what the token holds.
pub proof fn a_token_that_opens_the_name_answers(request: Request, turns: Seq<Turn>)
    requires
        course(request, turns),
        request.op == Op::Get,
        request.token@.len() > 0,
        turns[0].event is Begin,
        token_value(
            turns[0].before.tokens,
            request.token@,
            request.name@,
            turns[0].now,
        ) is Some,
    ensures
        records(turns[0].action, request.name@, "by token"@, false),
        forall|i: int| 0 <= i < turns.len() ==> !((#[trigger] turns[i]).action is Ask),
        forall|value: Seq<char>| #[trigger]
            answered(turns, value) ==> token_value(
                turns[0].before.tokens,
                request.token@,
                request.name@,
                turns[0].now,
            ) == Some(value),
{
    assert(taken(request, turns[0]));
    assert forall|i: int| 0 <= i < turns.len() implies !((#[trigger] turns[i]).action is Ask)
        && i < 2 by {
        if i > 0 {
            assert(turns[0].next == turns[1].flow);
            assert(taken(request, turns[1]));
            if i > 1 {
                assert(turns[1].next == turns[2].flow);
                assert(taken(request, turns[2]));
            }
        }
    }
    if turns.len() > 1 {
        assert(turns[1].action == turns.last().action);
        assert(turns[0].next == turns[1].flow);
        assert(taken(request, turns[1]));
    }
}

// ---------------------------------------------------------------------------------------------
// Approvals that are not for listing

/// As far as a listing gets.
spec fn listing(flow: Flow) -> bool {
    flow is ListUnlocking || flow is ListRecording || flow is Listing || flow is Done
}

/// The names that were loaded are listed in one way.
proof fn lemma_same_list(event: Event, a: Action, b: Action)
    requires
        event matches Event::Loaded { loaded, manifest: _, token: _ } && lists(loaded@, a) && lists(
            loaded@,
            b,
        ),
    ensures
        same_action(a, b),
{
    if let Event::Loaded { loaded, manifest: _, token: _ } = event {
        let all = names_of(results_of(loaded@)).to_multiset();
        match (a, b) {
            (Action::Reply(Ok(x)), Action::Reply(Ok(y))) => {
                let m = choose|names: Seq<Seq<char>>|
                    sorted(names) && #[trigger] names.to_multiset() == all && x@
                        == crate::order::join(names, "\n"@);
                let n = choose|names: Seq<Seq<char>>|
                    sorted(names) && #[trigger] names.to_multiset() == all && y@
                        == crate::order::join(names, "\n"@);
                lemma_sorted_unique(m, n);
            },
            _ => {},
        }
    }
}

proof fn lemma_same_listing(request: Request, a: Seq<Turn>, b: Seq<Turn>, i: int)
    requires
        request.op == Op::List,
        course(request, a),
        course(request, b),
        in_step(a, b),
        a[0].before.key == b[0].before.key,
        a[0].before.key_at == b[0].before.key_at,
        approval(a[0].before, request.agent@, LIST_SLOT@) == approval(
            b[0].before,
            request.agent@,
            LIST_SLOT@,
        ),
        0 <= i < a.len(),
    ensures
        listing(a[i].next),
        a[i].next == b[i].next,
        same_action(a[i].action, b[i].action),
        i > 0 ==> !(a[i].action is Ask),
    decreases i,
{
    assert(taken(request, a[i]));
    assert(taken(request, b[i]));
    if i == 0 {
        if a[0].event is Begin {
            let now = a[0].now;
            assert(begins_list(a[0].before, a[0].after, request, now, a[0].next, a[0].action));
            assert(begins_list(b[0].before, b[0].after, request, now, b[0].next, b[0].action));
        }
    } else {
        lemma_same_listing(request, a, b, i - 1);
        assert(a[i - 1].next == a[i].flow && b[i - 1].next == b[i].flow);
        if a[i].flow is Listing && a[i].event is Loaded {
            lemma_same_list(a[i].event, a[i].action, b[i].action);
        }
    }
}

/// An approval of a secret never pays for a listing: two brokers that differ in what they hold
/// approved of secrets, and hold the same of listing, raise the same prompts for it, write the same
/// records and give the same answer, and each asks once if its key is gone or the window for
/// listing has run out, and else not at all.
pub proof fn an_approval_of_a_secret_never_pays_for_a_listing(
    request: Request,
    a: Seq<Turn>,
    b: Seq<Turn>,
)
    requires
        request.op == Op::List,
        course(request, a),
        course(request, b),
        in_step(a, b),
        a[0].before == (BrokerV { approvals: a[0].before.approvals, ..b[0].before }),
        approval(a[0].before, request.agent@, LIST_SLOT@) == approval(
            b[0].before,
            request.agent@,
            LIST_SLOT@,
        ),
    ensures
        do_the_same(a, b),
        a[0].event is Begin ==> (a[0].action is Ask <==> !(cooled(
            a[0].before,
            a[0].now,
        ).key is Some && carries(
            DEFAULT_WINDOW_SECS,
            approval(a[0].before, request.agent@, LIST_SLOT@),
            a[0].now,
        ))),
        forall|i: int| 0 < i < a.len() ==> !((#[trigger] a[i]).action is Ask),
{
    assert forall|i: int|
        #![trigger a[i]]
        #![trigger b[i]]
        0 <= i < a.len() implies same_action(a[i].action, b[i].action) by {
        lemma_same_listing(request, a, b, i);
    }
    assert forall|i: int| 0 < i < a.len() implies !((#[trigger] a[i]).action is Ask) by {
        lemma_same_listing(request, a, b, i);
    }
    assert(taken(request, a[0]));
}

} // verus!

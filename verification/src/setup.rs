//! Turning sync on: which questions are asked, in what order, and what comes of the answers.
//!
//! Nothing here waits for an answer. Each function takes what came of the last thing that was asked
//! for, and says what to do next.

use crate::commands::{
    accept_generate, changes_remote, first_recipient, prompt, read_destination, read_way,
    remember_remote, Destination, WayIn,
};
use crate::disk::{acts, path_join, write_acts, Step};
use crate::outside::maybe;
use crate::problem::Problem;
use crate::sync::{chosen_remote, configured_remote, default_remote};
use crate::text::{lines, seen, texts, trim};
use crate::yubikey::{
    agrees, generate, management_key_is_supported, piv_slots_in_use, slot_lines, supported,
};
use vstd::prelude::*;
use vstd::string::*;
use vstd::utf8::encode_utf8;

verus! {

// ---------------------------------------------------------------------------------------------
// A way in

/// How far turning sync on has got.
pub enum Enabling {
    /// Nothing was asked yet
    Start,
    /// How the copy is opened was asked
    Asked,
    /// The way in is being made
    Opening,
    /// There is a way in
    Done,
}

/// What came of it.
pub enum EnablingEvent {
    /// It begins. The store may have a wrap already that opens it elsewhere.
    Begin { portable: bool },
    /// An answer
    Answer(String),
    /// The way in was made
    Opened,
}

/// What to do next.
pub enum EnablingAction {
    /// Ask how the copy is opened elsewhere
    AskWay,
    /// Wrap the key this way
    Open(WayIn),
    /// Choose where the copy goes. How it is opened and where it goes are separate questions.
    ChooseRemote,
    /// Stop
    Fail(Problem),
}

/// The event is what the flow waits for.
pub open spec fn enabling_fits(flow: Enabling, event: EnablingEvent) -> bool {
    match event {
        EnablingEvent::Begin { .. } => flow is Start,
        EnablingEvent::Answer(_) => flow is Asked,
        EnablingEvent::Opened => flow is Opening,
    }
}

/// What comes next: a store with a wrap that opens it elsewhere needs no other.
pub open spec fn enables(event: EnablingEvent, next: Enabling, action: EnablingAction) -> bool {
    match event {
        EnablingEvent::Begin { portable } => if portable {
            next is Done && action is ChooseRemote
        } else {
            next is Asked && action is AskWay
        },
        EnablingEvent::Answer(a) => if trim(a@) == "1"@ {
            next is Opening && action == EnablingAction::Open(WayIn::Yubikey)
        } else if trim(a@) == "2"@ {
            next is Opening && action == EnablingAction::Open(WayIn::Passphrase)
        } else {
            &&& next is Done
            &&& action matches EnablingAction::Fail(Problem::NotOneOrTwo(said))
            &&& said@ == trim(a@)
        },
        EnablingEvent::Opened => next is Done && action is ChooseRemote,
    }
}

/// Take the next step of turning sync on.
pub fn enable_sync(flow: Enabling, event: EnablingEvent) -> (r: (Enabling, EnablingAction))
    requires
        enabling_fits(flow, event),
    ensures
        enables(event, r.0, r.1),
{
    match event {
        EnablingEvent::Begin { portable } => if portable {
            (Enabling::Done, EnablingAction::ChooseRemote)
        } else {
            (Enabling::Asked, EnablingAction::AskWay)
        },
        EnablingEvent::Answer(a) => {
            proof {
                lemma_digits();
                assert(Destination::ICloud.digit() != Destination::Directory.digit());
            }
            match read_way(a.as_str()) {
                Ok(way) => (Enabling::Opening, EnablingAction::Open(way)),
                Err(e) => (Enabling::Done, EnablingAction::Fail(e)),
            }
        },
        EnablingEvent::Opened => (Enabling::Done, EnablingAction::ChooseRemote),
    }
}

// ---------------------------------------------------------------------------------------------
// A destination

/// How far choosing a destination has got.
pub enum Picking {
    /// Nothing was asked yet
    Start,
    /// Whether to change the destination there is was asked
    Changing,
    /// Where the copy goes was asked
    Choosing,
    /// Where exactly was asked
    Naming(Destination),
    /// The store is being made a repository that goes there
    Preparing(String),
    /// The destination stands
    Done,
}

/// What came of it.
pub enum PickingEvent {
    /// It begins, with what the file of the chosen destination holds
    Begin(Option<String>),
    /// An answer
    Answer(String),
    /// The store is a repository that goes there
    Prepared,
}

/// What to do next.
pub enum PickingAction {
    /// Ask whether to change this destination
    AskChange(String),
    /// Ask where the copy goes, and before that forget where it went
    AskWhere { forget: bool },
    /// Ask where exactly
    AskName(Destination),
    /// Make the store a repository that goes there
    Prepare(String),
    /// Remember this destination
    Remember { remote: String, steps: Vec<Step> },
    /// Leave everything as it is
    Keep,
    /// Stop
    Fail(Problem),
}

/// The event is what the flow waits for.
pub open spec fn picking_fits(flow: Picking, event: PickingEvent) -> bool {
    match event {
        PickingEvent::Begin(_) => flow is Start,
        PickingEvent::Answer(_) => flow is Changing || flow is Choosing || flow is Naming,
        PickingEvent::Prepared => flow is Preparing,
    }
}

/// The action is to remember this destination.
pub open spec fn remembers(action: PickingAction, remote: Seq<char>) -> bool {
    action matches PickingAction::Remember { remote: r, steps } && r@ == remote && acts(steps@)
        == write_acts("remote"@, encode_utf8(trim(remote)))
}

/// What comes of an answer to where the copy goes.
pub open spec fn chooses(
    answer: Seq<char>,
    set: Option<Seq<char>>,
    home: Option<Seq<char>>,
    next: Picking,
    action: PickingAction,
) -> bool {
    if trim(answer) == Destination::ICloud.digit() {
        &&& next is Done
        &&& match set {
            Some(s) => remembers(action, s),
            None => match home {
                Some(h) => remembers(
                    action,
                    path_join(h, "Library/Mobile Documents/com~apple~CloudDocs/passbox"@),
                ),
                None => action == PickingAction::Fail(Problem::HomeNotSet),
            },
        }
    } else if trim(answer) == Destination::Directory.digit() {
        next == Picking::Naming(Destination::Directory) && action == PickingAction::AskName(
            Destination::Directory,
        )
    } else if trim(answer) == Destination::Git.digit() {
        next == Picking::Naming(Destination::Git) && action == PickingAction::AskName(
            Destination::Git,
        )
    } else if trim(answer) == Destination::Rclone.digit() {
        next == Picking::Naming(Destination::Rclone) && action == PickingAction::AskName(
            Destination::Rclone,
        )
    } else {
        &&& next is Done
        &&& action matches PickingAction::Fail(Problem::NotOneToFour(said))
        &&& said@ == trim(answer)
    }
}

/// What comes next. A destination is asked for once and remembered, so that a later bare `sync`
/// cannot surprise anybody. One that was set already is offered for changing.
pub open spec fn picks(
    flow: Picking,
    event: PickingEvent,
    set: Option<Seq<char>>,
    home: Option<Seq<char>>,
    next: Picking,
    action: PickingAction,
) -> bool {
    match event {
        PickingEvent::Begin(raw) => match chosen_remote(maybe(raw)) {
            Some(already) => {
                &&& next is Changing
                &&& action matches PickingAction::AskChange(a)
                &&& a@ == already
            },
            None => next is Choosing && action == (PickingAction::AskWhere { forget: false }),
        },
        PickingEvent::Answer(a) => match flow {
            Picking::Changing => if agrees(a@) {
                next is Choosing && action == (PickingAction::AskWhere { forget: true })
            } else {
                next is Done && action is Keep
            },
            Picking::Naming(to) => if trim(a@).len() == 0 {
                next is Done && action == PickingAction::Fail(Problem::NothingGiven)
            } else if to == Destination::Git {
                &&& next matches Picking::Preparing(url)
                &&& url@ == trim(a@)
                &&& action matches PickingAction::Prepare(at)
                &&& at@ == trim(a@)
            } else {
                next is Done && remembers(action, trim(a@))
            },
            _ => chooses(a@, set, home, next, action),
        },
        PickingEvent::Prepared => {
            &&& flow matches Picking::Preparing(url)
            &&& next is Done
            &&& remembers(action, url@)
        },
    }
}

fn remember(remote: String) -> (r: (Picking, PickingAction))
    ensures
        r.0 is Done,
        remembers(r.1, remote@),
{
    let steps = remember_remote(remote.as_str());
    (Picking::Done, PickingAction::Remember { remote, steps })
}

proof fn lemma_digits()
    ensures
        forall|a: Destination, b: Destination| #[trigger]
            a.digit() == #[trigger] b.digit() ==> a == b,
{
    reveal_strlit("1");
    reveal_strlit("2");
    reveal_strlit("3");
    reveal_strlit("4");
    assert forall|a: Destination, b: Destination| #[trigger]
        a.digit() == #[trigger] b.digit() implies a == b by {
        assert(a.digit()[0] == b.digit()[0]);
    }
}

/// Take the next step of choosing a destination. `set` is what the environment names, and `home`
/// the home directory.
pub fn choose_remote(
    flow: Picking,
    event: PickingEvent,
    set: Option<String>,
    home: Option<&str>,
) -> (r: (Picking, PickingAction))
    requires
        picking_fits(flow, event),
    ensures
        picks(flow, event, maybe(set), seen(home), r.0, r.1),
{
    match event {
        PickingEvent::Begin(raw) => {
            let held = match &raw {
                Some(text) => Some(text.as_str()),
                None => None,
            };
            match configured_remote(held) {
                Some(already) => (Picking::Changing, PickingAction::AskChange(already)),
                None => (Picking::Choosing, PickingAction::AskWhere { forget: false }),
            }
        },
        PickingEvent::Answer(a) => match flow {
            Picking::Changing => if changes_remote(a.as_str()) {
                (Picking::Choosing, PickingAction::AskWhere { forget: true })
            } else {
                (Picking::Done, PickingAction::Keep)
            },
            Picking::Naming(to) => match prompt(a.as_str()) {
                Err(e) => (Picking::Done, PickingAction::Fail(e)),
                Ok(text) => match to {
                    Destination::Git => {
                        let url = text.clone();
                        (Picking::Preparing(url), PickingAction::Prepare(text))
                    },
                    _ => remember(text),
                },
            },
            _ => {
                proof {
                    lemma_digits();
                }
                match read_destination(a.as_str()) {
                    Err(e) => {
                        proof {
                            assert(Destination::ICloud.digit() != trim(a@));
                            assert(Destination::Directory.digit() != trim(a@));
                            assert(Destination::Git.digit() != trim(a@));
                            assert(Destination::Rclone.digit() != trim(a@));
                        }
                        (Picking::Done, PickingAction::Fail(e))
                    },
                    Ok(Destination::ICloud) => match default_remote(set, None, home) {
                        Ok(remote) => remember(remote),
                        Err(e) => (Picking::Done, PickingAction::Fail(e)),
                    },
                    Ok(to) => (Picking::Naming(to), PickingAction::AskName(to)),
                }
            },
        },
        PickingEvent::Prepared => match flow {
            Picking::Preparing(url) => remember(url),
            _ => (Picking::Done, PickingAction::Keep),
        },
    }
}

// ---------------------------------------------------------------------------------------------
// A token

/// How far turning sync on with a token has got.
pub enum Token {
    /// Nothing was done yet
    Start,
    /// The plugin is being installed, if it is not there
    Installing,
    /// The token is being asked for its recipients
    Looking,
    /// The PIV applet is being read
    Reading,
    /// What the applet holds is being shown
    Showing(Option<String>),
    /// Whether to provision a slot was asked
    Confirming,
    /// The card is being freed, if something holds it
    Freeing,
    /// A slot is being provisioned
    Generating,
    /// The token is being asked again
    LookingAgain,
    /// The key is being wrapped
    Wrapping,
    /// The token opens the store, or never will
    Done,
}

/// What came of it.
pub enum TokenEvent {
    /// It begins
    Begin,
    /// What was to be done was done
    Did,
    /// The recipients on the token
    Found(Vec<String>),
    /// What `ykman piv info` printed, where it could run
    Applet(Option<String>),
    /// An answer
    Answer(String),
    /// The plugin was run to provision a slot, and ended well or not
    Ran(bool),
    /// What was to be done failed
    Failed(Problem),
}

/// What to do next.
pub enum TokenAction {
    /// Offer to install the plugin
    Install,
    /// Ask the token for its recipients
    Look,
    /// Read the PIV applet
    Read,
    /// Show what the applet holds; nothing where it could not be read
    Show(Option<Vec<String>>),
    /// Ask whether to provision a slot
    AskGenerate,
    /// Offer to free the card
    Free,
    /// Provision a slot
    Generate,
    /// Wrap the key to this recipient
    Wrap(String),
    /// Say that the token opens the store
    Finish,
    /// Stop
    Fail(Problem),
}

/// The event is what the flow waits for.
pub open spec fn token_fits(flow: Token, event: TokenEvent) -> bool {
    match event {
        TokenEvent::Begin => flow is Start,
        TokenEvent::Did => flow is Installing || flow is Showing || flow is Freeing || flow
            is Wrapping,
        TokenEvent::Found(_) => flow is Looking || flow is LookingAgain,
        TokenEvent::Applet(_) => flow is Reading,
        TokenEvent::Answer(_) => flow is Confirming,
        TokenEvent::Ran(_) => flow is Generating,
        TokenEvent::Failed(_) => !(flow is Done),
    }
}

/// The slots that were read, as far as they could be.
pub open spec fn slots_of(slots: Option<Vec<String>>) -> Option<Seq<Seq<char>>> {
    match slots {
        Some(v) => Some(texts(v@)),
        None => None,
    }
}

/// What comes next. A token that holds a recipient is used as it is. Otherwise what the applet
/// holds is shown, a management key that the plugin cannot use stops everything before the plugin
/// asks for a PIN, and a slot is provisioned only where the user says so, since that changes the
/// token.
pub open spec fn takes(flow: Token, event: TokenEvent, next: Token, action: TokenAction) -> bool {
    match event {
        TokenEvent::Begin => next is Installing && action is Install,
        TokenEvent::Failed(e) => next is Done && action == TokenAction::Fail(e),
        TokenEvent::Did => match flow {
            Token::Installing => next is Looking && action is Look,
            Token::Showing(info) => if supported(maybe(info)) {
                next is Confirming && action is AskGenerate
            } else {
                &&& next is Done
                &&& action matches TokenAction::Fail(Problem::ManagementKey(algorithm))
                &&& crate::yubikey::management_algorithm(info->0@) == Some(algorithm@)
            },
            Token::Freeing => next is Generating && action is Generate,
            _ => next is Done && action is Finish,
        },
        TokenEvent::Found(found) => if found@.len() > 0 {
            &&& next is Wrapping
            &&& action matches TokenAction::Wrap(recipient)
            &&& recipient@ == found@[0]@
        } else if flow is Looking {
            next is Reading && action is Read
        } else {
            next is Done && action == TokenAction::Fail(Problem::NoToken)
        },
        TokenEvent::Applet(info) => {
            &&& next matches Token::Showing(held)
            &&& maybe(held) == maybe(info)
            &&& action matches TokenAction::Show(slots)
            &&& slots_of(slots) == match maybe(info) {
                Some(text) => Some(slot_lines(lines(text))),
                None => None,
            }
        },
        TokenEvent::Answer(a) => if agrees(a@) {
            next is Freeing && action is Free
        } else {
            next is Done && action == TokenAction::Fail(Problem::GenerateDeclined)
        },
        TokenEvent::Ran(success) => if success {
            next is LookingAgain && action is Look
        } else {
            next is Done && action == TokenAction::Fail(Problem::GenerateFailed)
        },
    }
}

fn borrowed(text: &Option<String>) -> (r: Option<&str>)
    ensures
        seen(r) == maybe(*text),
{
    match text {
        Some(s) => Some(s.as_str()),
        None => None,
    }
}

/// Take the next step of turning sync on with a token.
pub fn enable_with_yubikey(flow: Token, event: TokenEvent) -> (r: (Token, TokenAction))
    requires
        token_fits(flow, event),
    ensures
        takes(flow, event, r.0, r.1),
{
    match event {
        TokenEvent::Begin => (Token::Installing, TokenAction::Install),
        TokenEvent::Failed(e) => (Token::Done, TokenAction::Fail(e)),
        TokenEvent::Did => match flow {
            Token::Installing => (Token::Looking, TokenAction::Look),
            Token::Showing(info) => match management_key_is_supported(borrowed(&info)) {
                Ok(_) => (Token::Confirming, TokenAction::AskGenerate),
                Err(e) => (Token::Done, TokenAction::Fail(e)),
            },
            Token::Freeing => (Token::Generating, TokenAction::Generate),
            _ => (Token::Done, TokenAction::Finish),
        },
        TokenEvent::Found(found) => match first_recipient(&found) {
            Ok(recipient) => (Token::Wrapping, TokenAction::Wrap(recipient)),
            Err(e) => match flow {
                Token::Looking => (Token::Reading, TokenAction::Read),
                _ => (Token::Done, TokenAction::Fail(e)),
            },
        },
        TokenEvent::Applet(info) => {
            let slots = piv_slots_in_use(borrowed(&info));
            (Token::Showing(info), TokenAction::Show(slots))
        },
        TokenEvent::Answer(a) => match accept_generate(a.as_str()) {
            Ok(_) => (Token::Freeing, TokenAction::Free),
            Err(e) => (Token::Done, TokenAction::Fail(e)),
        },
        TokenEvent::Ran(success) => match generate(success) {
            Ok(_) => (Token::LookingAgain, TokenAction::Look),
            Err(e) => (Token::Done, TokenAction::Fail(e)),
        },
    }
}

/// A token is changed only where the user agreed to it, and nothing is offered that the plugin
/// could not do: the card is freed for provisioning only after an answer that agrees, a slot is
/// provisioned only after the card was freed, and the question is put only where the management key
/// is one the plugin can use.
pub proof fn a_token_is_changed_only_with_leave(
    flow: Token,
    event: TokenEvent,
    next: Token,
    action: TokenAction,
)
    requires
        token_fits(flow, event),
        takes(flow, event, next, action),
    ensures
        action is Free ==> (event matches TokenEvent::Answer(a) && agrees(a@)),
        action is Generate ==> flow is Freeing && event is Did,
        action is AskGenerate ==> (flow matches Token::Showing(info) && supported(maybe(info))),
        next is Freeing ==> action is Free,
        next is Confirming ==> action is AskGenerate,
{
}

/// Nothing is remembered but what was answered, what the environment named, or the folder that
/// Apple replicates; and where the destination stays as it is, nothing is written.
pub proof fn only_a_chosen_destination_is_remembered(
    flow: Picking,
    event: PickingEvent,
    set: Option<Seq<char>>,
    home: Option<Seq<char>>,
    next: Picking,
    action: PickingAction,
)
    requires
        picking_fits(flow, event),
        picks(flow, event, set, home, next, action),
        action is Remember,
    ensures
        next is Done,
        (event matches PickingEvent::Answer(a) && flow is Naming && action->remote@ == trim(a@)) || (
        flow matches Picking::Preparing(url) && action->remote@ == url@) || (flow is Choosing && (
        set == Some(action->remote@) || (set is None && home is Some && action->remote@
            == path_join(home->0, "Library/Mobile Documents/com~apple~CloudDocs/passbox"@)))),
{
}

/// Each answer goes its way: the first is the folder that Apple replicates, unless another is set, the
/// others ask where exactly, and anything else is refused and changes nothing.
pub proof fn an_answer_picks_the_destination(
    a: String,
    set: Option<Seq<char>>,
    home: Option<Seq<char>>,
    next: Picking,
    action: PickingAction,
)
    requires
        picks(Picking::Choosing, PickingEvent::Answer(a), set, home, next, action),
    ensures
        trim(a@) == "1"@ && set is Some ==> remembers(action, set->0),
        trim(a@) == "1"@ && set is None && home is Some ==> remembers(
            action,
            path_join(home->0, "Library/Mobile Documents/com~apple~CloudDocs/passbox"@),
        ),
        trim(a@) == "2"@ ==> action == PickingAction::AskName(Destination::Directory) && next
            == Picking::Naming(Destination::Directory),
        trim(a@) == "3"@ ==> action == PickingAction::AskName(Destination::Git) && next
            == Picking::Naming(Destination::Git),
        trim(a@) == "4"@ ==> action == PickingAction::AskName(Destination::Rclone) && next
            == Picking::Naming(Destination::Rclone),
        trim(a@) != "1"@ && trim(a@) != "2"@ && trim(a@) != "3"@ && trim(a@) != "4"@ ==> (
        action matches PickingAction::Fail(Problem::NotOneToFour(said)) && said@ == trim(a@)),
{
    reveal_strlit("1");
    reveal_strlit("2");
    reveal_strlit("3");
    reveal_strlit("4");
    assert("1"@[0] == '1' && "2"@[0] == '2' && "3"@[0] == '3' && "4"@[0] == '4');
}

/// What is typed as a destination is remembered without the space around it, git only once the store
/// is a repository that goes there, and nothing typed is refused.
pub proof fn what_is_typed_is_remembered(
    to: Destination,
    a: String,
    set: Option<Seq<char>>,
    home: Option<Seq<char>>,
    next: Picking,
    action: PickingAction,
    then: Picking,
    last: PickingAction,
)
    requires
        picks(Picking::Naming(to), PickingEvent::Answer(a), set, home, next, action),
        next is Preparing ==> picks(next, PickingEvent::Prepared, set, home, then, last),
    ensures
        trim(a@).len() == 0 ==> action == PickingAction::Fail(Problem::NothingGiven),
        trim(a@).len() > 0 && to != Destination::Git ==> action is Remember && action->remote@ == trim(
            a@,
        ) && acts(action->steps@) == write_acts("remote"@, encode_utf8(trim(a@))),
        trim(a@).len() > 0 && to == Destination::Git ==> (action matches PickingAction::Prepare(url)
            && url@ == trim(a@)) && next is Preparing && last is Remember && last->remote@ == trim(a@)
            && acts(last->steps@) == write_acts("remote"@, encode_utf8(trim(a@))),
{
    crate::text::lemma_trim(a@);
}

/// A destination that was chosen stands until it is changed with leave: it is shown, and only an answer
/// that agrees leads on.
pub proof fn a_destination_changes_only_with_leave(
    raw: Option<String>,
    set: Option<Seq<char>>,
    home: Option<Seq<char>>,
    next: Picking,
    action: PickingAction,
    a: String,
    then: Picking,
    last: PickingAction,
)
    requires
        picks(Picking::Start, PickingEvent::Begin(raw), set, home, next, action),
        picks(Picking::Changing, PickingEvent::Answer(a), set, home, then, last),
    ensures
        raw is Some && trim(raw->0@).len() > 0 ==> next is Changing && (
        action matches PickingAction::AskChange(now) && now@ == trim(raw->0@)),
        raw is None || trim(raw->0@).len() == 0 ==> next is Choosing && action == (
        PickingAction::AskWhere { forget: false }),
        agrees(a@) ==> then is Choosing && last == (PickingAction::AskWhere { forget: true }),
        !agrees(a@) ==> then is Done && last is Keep,
{
}

/// A store that something opens elsewhere is not asked for another way in; any other is, and the way
/// that was picked is the one that is made, before the question where the copy goes.
pub proof fn a_copy_gets_a_way_in(
    portable: bool,
    a: String,
    begun: EnablingAction,
    answered: EnablingAction,
    opened: EnablingAction,
    x: Enabling,
    y: Enabling,
    z: Enabling,
)
    requires
        enables(EnablingEvent::Begin { portable }, x, begun),
        enables(EnablingEvent::Answer(a), y, answered),
        enables(EnablingEvent::Opened, z, opened),
    ensures
        portable ==> begun is ChooseRemote,
        !portable ==> begun is AskWay && x is Asked,
        trim(a@) == "1"@ ==> answered == EnablingAction::Open(WayIn::Yubikey),
        trim(a@) == "2"@ ==> answered == EnablingAction::Open(WayIn::Passphrase),
        trim(a@) != "1"@ && trim(a@) != "2"@ ==> answered is Fail,
        opened is ChooseRemote,
{
    reveal_strlit("1");
    reveal_strlit("2");
    assert("1"@[0] == '1' && "2"@[0] == '2');
}

/// A token that holds a recipient is used as it is: the first it lists is wrapped to. One that holds
/// none is looked at and, with leave, provisioned, and then asked again; one that still holds none is
/// an error.
pub proof fn a_token_is_used_as_it_is(
    flow: Token,
    found: Vec<String>,
    next: Token,
    action: TokenAction,
)
    requires
        token_fits(flow, TokenEvent::Found(found)),
        takes(flow, TokenEvent::Found(found), next, action),
    ensures
        found@.len() > 0 ==> next is Wrapping && (action matches TokenAction::Wrap(to) && to@
            == found@[0]@),
        found@.len() == 0 && flow is Looking ==> action is Read,
        found@.len() == 0 && flow is LookingAgain ==> action == TokenAction::Fail(Problem::NoToken),
{
}

/// Setting a token up goes on while all is well, and stops where the user declines or something fails.
pub proof fn a_setup_goes_on_while_all_is_well(
    flow: Token,
    event: TokenEvent,
    next: Token,
    action: TokenAction,
)
    requires
        token_fits(flow, event),
        takes(flow, event, next, action),
    ensures
        event is Begin ==> next is Installing && action is Install,
        flow is Installing && event is Did ==> next is Looking && action is Look,
        flow is Reading && event is Applet ==> next is Showing && action is Show,
        (flow matches Token::Showing(info) && supported(maybe(info))) && event is Did ==> next
            is Confirming && action is AskGenerate,
        (event matches TokenEvent::Answer(a) && agrees(a@)) ==> next is Freeing && action is Free,
        (event matches TokenEvent::Answer(a) && !agrees(a@)) ==> next is Done && action
            == TokenAction::Fail(Problem::GenerateDeclined),
        flow is Freeing && event is Did ==> next is Generating && action is Generate,
        event == TokenEvent::Ran(true) ==> next is LookingAgain && action is Look,
        event == TokenEvent::Ran(false) ==> next is Done && action is Fail,
        flow is Wrapping && event is Did ==> next is Done && action is Finish,
{
}

} // verus!

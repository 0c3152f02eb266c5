//! The commands that go back and forth with the outside, step by step.

use passbox::commands::{Destination, WayIn};
use passbox::disk::Step;
use passbox::errands::{exec, run_sync, Exec, ExecAction, ExecEvent, SyncAction, SyncEvent, Syncing};
use passbox::problem::Problem;
use passbox::setup::{
    choose_remote, enable_sync, enable_with_yubikey, Enabling, EnablingAction, EnablingEvent,
    Picking, PickingAction, PickingEvent, Token, TokenAction, TokenEvent,
};
use passbox::store::Store;
use passbox::sync::Report;

fn texts(list: &[&str]) -> Vec<String> {
    list.iter().map(|s| s.to_string()).collect()
}

fn answer(text: &str) -> PickingEvent {
    PickingEvent::Answer(text.to_string())
}

#[test]
fn a_way_in_is_made_before_a_destination_is_chosen() {
    let begin = |portable| enable_sync(Enabling::Start, EnablingEvent::Begin { portable });
    assert!(matches!(
        begin(true),
        (Enabling::Done, EnablingAction::ChooseRemote)
    ));
    let (flow, action) = begin(false);
    assert!(matches!(action, EnablingAction::AskWay));
    let (flow, action) = enable_sync(flow, EnablingEvent::Answer("2\n".into()));
    assert!(matches!(action, EnablingAction::Open(WayIn::Passphrase)));
    let (_, action) = enable_sync(flow, EnablingEvent::Opened);
    assert!(matches!(action, EnablingAction::ChooseRemote));
    let (_, action) = enable_sync(Enabling::Asked, EnablingEvent::Answer("1".into()));
    assert!(matches!(action, EnablingAction::Open(WayIn::Yubikey)));
    let (_, action) = enable_sync(Enabling::Asked, EnablingEvent::Answer("x".into()));
    assert!(matches!(
        action,
        EnablingAction::Fail(Problem::NotOneOrTwo(said)) if said == "x"
    ));
}

fn remembered(action: PickingAction) -> (String, Vec<u8>) {
    match action {
        PickingAction::Remember { remote, steps } => {
            assert_eq!(steps.len(), 2);
            match &steps[0] {
                Step::Write { path, bytes } => {
                    assert_eq!(path, "remote.tmp");
                    (remote, bytes.clone())
                }
                _ => panic!("not a write"),
            }
        }
        _ => panic!("not remembered"),
    }
}

#[test]
fn a_destination_is_asked_for_once_and_remembered() {
    let (flow, action) = choose_remote(Picking::Start, PickingEvent::Begin(None), None, None);
    assert!(matches!(action, PickingAction::AskWhere { forget: false }));
    let (flow, action) = choose_remote(flow, answer("2"), None, None);
    assert!(matches!(
        action,
        PickingAction::AskName(Destination::Directory)
    ));
    let (_, action) = choose_remote(flow, answer(" /Volumes/stick \n"), None, None);
    let (remote, bytes) = remembered(action);
    assert_eq!((remote.as_str(), bytes.as_slice()), ("/Volumes/stick", b"/Volumes/stick".as_slice()));
}

#[test]
fn a_destination_that_was_chosen_is_offered_for_changing() {
    let held = Some("b2:x\n".to_string());
    let begin = || choose_remote(Picking::Start, PickingEvent::Begin(held.clone()), None, None);
    let (flow, action) = begin();
    assert!(matches!(action, PickingAction::AskChange(a) if a == "b2:x"));
    let (_, action) = choose_remote(flow, answer("\n"), None, None);
    assert!(matches!(action, PickingAction::Keep));
    let (flow, _) = begin();
    let (_, action) = choose_remote(flow, answer("Yes"), None, None);
    assert!(matches!(action, PickingAction::AskWhere { forget: true }));
}

#[test]
fn a_git_remote_makes_the_store_a_repository() {
    let (flow, _) = choose_remote(Picking::Choosing, answer("3"), None, None);
    let (flow, action) = choose_remote(flow, answer("git@h:x.git"), None, None);
    assert!(matches!(action, PickingAction::Prepare(url) if url == "git@h:x.git"));
    let (_, action) = choose_remote(flow, PickingEvent::Prepared, None, None);
    assert_eq!(remembered(action).0, "git@h:x.git");
}

#[test]
fn the_first_destination_is_the_one_apple_replicates() {
    let icloud = |set: Option<&str>, home: Option<&str>| {
        let set = set.map(|s| s.to_string());
        choose_remote(Picking::Choosing, answer("1"), set, home).1
    };
    assert_eq!(
        remembered(icloud(None, Some("/h"))).0,
        "/h/Library/Mobile Documents/com~apple~CloudDocs/passbox"
    );
    assert_eq!(remembered(icloud(Some("/env"), Some("/h"))).0, "/env");
    assert!(matches!(
        icloud(None, None),
        PickingAction::Fail(Problem::HomeNotSet)
    ));
    let (_, action) = choose_remote(Picking::Choosing, answer("5"), None, None);
    assert!(matches!(action, PickingAction::Fail(Problem::NotOneToFour(_))));
    let (flow, _) = choose_remote(Picking::Choosing, answer("4"), None, None);
    let (_, action) = choose_remote(flow, answer(""), None, None);
    assert!(matches!(action, PickingAction::Fail(Problem::NothingGiven)));
}

#[test]
fn a_token_that_holds_a_recipient_is_used_as_it_is() {
    let (flow, action) = enable_with_yubikey(Token::Start, TokenEvent::Begin);
    assert!(matches!(action, TokenAction::Install));
    let (flow, action) = enable_with_yubikey(flow, TokenEvent::Did);
    assert!(matches!(action, TokenAction::Look));
    let (flow, action) = enable_with_yubikey(flow, TokenEvent::Found(texts(&["a", "b"])));
    assert!(matches!(action, TokenAction::Wrap(to) if to == "a"));
    let (_, action) = enable_with_yubikey(flow, TokenEvent::Did);
    assert!(matches!(action, TokenAction::Finish));
}

#[test]
fn an_empty_token_is_provisioned_only_with_leave() {
    let info = "Management key algorithm: TDES\nSlot 9A:\n".to_string();
    let (flow, action) = enable_with_yubikey(Token::Looking, TokenEvent::Found(vec![]));
    assert!(matches!(action, TokenAction::Read));
    let (flow, action) = enable_with_yubikey(flow, TokenEvent::Applet(Some(info)));
    assert!(matches!(action, TokenAction::Show(Some(slots)) if slots == texts(&["Slot 9A:"])));
    let (flow, action) = enable_with_yubikey(flow, TokenEvent::Did);
    assert!(matches!(action, TokenAction::AskGenerate));
    let (_, declined) = enable_with_yubikey(Token::Confirming, TokenEvent::Answer("".into()));
    assert!(matches!(
        declined,
        TokenAction::Fail(Problem::GenerateDeclined)
    ));
    let (flow, action) = enable_with_yubikey(flow, TokenEvent::Answer("y".into()));
    assert!(matches!(action, TokenAction::Free));
    let (flow, action) = enable_with_yubikey(flow, TokenEvent::Did);
    assert!(matches!(action, TokenAction::Generate));
    let (_, failed) = enable_with_yubikey(Token::Generating, TokenEvent::Ran(false));
    assert!(matches!(failed, TokenAction::Fail(Problem::GenerateFailed)));
    let (flow, action) = enable_with_yubikey(flow, TokenEvent::Ran(true));
    assert!(matches!(action, TokenAction::Look));
    let (_, action) = enable_with_yubikey(flow, TokenEvent::Found(vec![]));
    assert!(matches!(action, TokenAction::Fail(Problem::NoToken)));
}

#[test]
fn a_management_key_the_plugin_cannot_use_stops_it() {
    let info = Some("Management key algorithm: AES192\n".to_string());
    let (flow, _) = enable_with_yubikey(Token::Reading, TokenEvent::Applet(info));
    let (_, action) = enable_with_yubikey(flow, TokenEvent::Did);
    assert!(matches!(
        action,
        TokenAction::Fail(Problem::ManagementKey(a)) if a == "AES192"
    ));
    // An applet that could not be read speaks for itself
    let (flow, action) = enable_with_yubikey(Token::Reading, TokenEvent::Applet(None));
    assert!(matches!(action, TokenAction::Show(None)));
    let (_, action) = enable_with_yubikey(flow, TokenEvent::Did);
    assert!(matches!(action, TokenAction::AskGenerate));
}

/// Run a child to its end, with each secret's value being its name in capitals
fn run(envs: &[&str], stdin: Option<&str>, command: &[&str]) -> Result<(String, i32), String> {
    let (envs, command) = (texts(envs), texts(command));
    let mut ran = String::new();
    let mut flow = Exec::Start;
    let mut event = ExecEvent::Begin;
    loop {
        let (next, action) = exec(&envs, stdin, &command, flow, event);
        flow = next;
        event = match action {
            ExecAction::Read(name) if name == "never" => {
                ExecEvent::Failed(Problem::MarkedNever(name))
            }
            ExecAction::Read(name) => ExecEvent::Value(name.to_uppercase()),
            ExecAction::Run { child, stdin } => {
                ran = format!(
                    "{} {:?} {:?} {:?}",
                    child.program, child.args, child.vars, stdin
                );
                ExecEvent::Ended(if child.program == "killed" { None } else { Some(3) })
            }
            ExecAction::Exit(code) => return Ok((ran, code)),
            ExecAction::Fail(e) => return Err(e.message()),
        };
    }
}

#[test]
fn a_child_gets_what_was_named() {
    let (ran, code) = run(&["A=x", "B=y"], Some("z"), &["sh", "-c"]).unwrap();
    assert_eq!(
        ran,
        "sh [\"-c\"] [(\"A\", \"X\"), (\"B\", \"Y\")] Some(\"Z\")"
    );
    assert_eq!(code, 3);
    let (ran, _) = run(&[], None, &["cat"]).unwrap();
    assert_eq!(ran, "cat [] [] None");
}

/// A child that ends badly ends this program the same way
#[test]
fn exec_passes_the_child_exit_code_through() {
    let (_, code) = run(&[], None, &["sh", "-c", "exit 3"]).unwrap();
    assert_eq!(code, 3);
    let (_, code) = run(&[], None, &["killed"]).unwrap();
    assert_eq!(code, 1);
}

#[test]
fn a_child_that_cannot_have_its_secrets_is_not_run() {
    assert_eq!(
        run(&["A=never"], None, &["sh"]).unwrap_err(),
        "never is marked never, refusing"
    );
    assert_eq!(
        run(&["A"], None, &["sh"]).unwrap_err(),
        "expected VAR=secret, got A"
    );
    assert_eq!(run(&[], None, &[]).unwrap_err(), "no command to run");
}

fn sync(flow: Syncing, event: SyncEvent, given: Option<&str>) -> (Syncing, SyncAction) {
    let store = Store { dir: "/s".into() };
    let given = given.map(|g| g.to_string());
    run_sync(&store, given, None, Some("/chosen"), Some("/h"), flow, event)
}

fn begin(enable: bool, initialised: bool, portable: bool) -> SyncEvent {
    SyncEvent::Begin {
        enable,
        initialised,
        portable,
    }
}

#[test]
fn a_sync_goes_where_it_was_told() {
    let (_, action) = sync(Syncing::Start, begin(false, true, true), None);
    assert!(matches!(action, SyncAction::Copy(dir) if dir == "/chosen"));
    let (flow, action) = sync(Syncing::Start, begin(false, false, false), Some("/given"));
    assert!(matches!(action, SyncAction::Copy(dir) if dir == "/given"));
    let report = Report {
        pushed: 2,
        pulled: 1,
    };
    let (_, action) = sync(flow, SyncEvent::Copied(report), Some("/given"));
    assert!(matches!(
        action,
        SyncAction::Finish { clear: true, line: Some(l) } if l == "2 sent, 1 received, /given"
    ));
    let (_, action) = sync(Syncing::Start, begin(false, true, true), Some("x.git"));
    assert!(matches!(
        action,
        SyncAction::Finish {
            clear: false,
            line: None
        }
    ));
}

#[test]
fn a_sync_through_rclone() {
    let (flow, action) = sync(Syncing::Start, begin(false, true, true), Some("b2:x"));
    assert!(matches!(action, SyncAction::Rclone(args) if args[2] == "b2:x"));
    let (_, action) = sync(flow, SyncEvent::Ran(Some(true)), Some("b2:x"));
    assert!(matches!(action, SyncAction::Finish { clear: true, .. }));
    let (_, action) = sync(Syncing::Running, SyncEvent::Ran(None), None);
    assert!(matches!(action, SyncAction::Fail(Problem::NoRclone)));
    let (_, action) = sync(Syncing::Running, SyncEvent::Ran(Some(false)), None);
    assert!(matches!(action, SyncAction::Fail(Problem::RcloneFailed)));
}

#[test]
fn sync_is_off_until_a_way_in_is_made() {
    let (_, action) = sync(Syncing::Start, begin(false, true, false), None);
    assert!(matches!(action, SyncAction::Fail(Problem::SyncIsOff)));
    let (flow, action) = sync(Syncing::Start, begin(true, true, false), None);
    assert!(matches!(action, SyncAction::Enable));
    let (_, action) = sync(flow, SyncEvent::Enabled, None);
    assert!(matches!(action, SyncAction::Copy(dir) if dir == "/chosen"));
}

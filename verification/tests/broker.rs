//! The broker: deciding, tokens, leases, and whole requests.

use passbox::broker::{
    ancestry, answer_of, audit_record, bad_request, caller_cwd, capped_notice, decide, goes_on,
    grant, grant_ttl, is_idle, list, new_token, parse_ps, request, respond, socket_is_up, token_lookup, Action,
    Broker, Decision, Event, Flow, Lease, Op, Request, TokenGrant, KEY_TTL_SECS, LIST_SLOT,
    MAX_GRANT_SECS,
};
use passbox::crypto::StoreKey;
use passbox::problem::Problem;
use passbox::project::{self, Grant, Manifest};
use passbox::store::{Mode, Secret, Store};
use passbox::table::Table;

const WINDOW: u64 = 300;

#[test]
fn open_never_asks() {
    assert_eq!(decide(Mode::Open, WINDOW, None, 1000), Decision::Allow);
}

#[test]
fn never_is_always_refused() {
    assert_eq!(decide(Mode::Never, WINDOW, None, 1000), Decision::Deny);
    assert_eq!(decide(Mode::Never, WINDOW, Some(999), 1000), Decision::Deny);
}

#[test]
fn always_asks_even_inside_a_window() {
    assert_eq!(
        decide(Mode::Always, WINDOW, Some(999), 1000),
        Decision::Prompt
    );
}

fn grant_of(pairs: &[(&str, &str)], expires: u64) -> TokenGrant {
    let mut values = Table::new();
    for (k, v) in pairs {
        values.insert(k, v.to_string());
    }
    TokenGrant { values, expires }
}

#[test]
fn a_token_opens_only_what_it_was_granted() {
    let mut tokens = Table::new();
    tokens.insert("tok", grant_of(&[("bean/pk", "value")], 2_000));
    assert_eq!(
        token_lookup(&tokens, "tok", "bean/pk", 1_000).as_deref(),
        Some("value")
    );
    assert!(token_lookup(&tokens, "tok", "personal/github", 1_000).is_none());
}

#[test]
fn an_unknown_token_opens_nothing() {
    let mut tokens = Table::new();
    tokens.insert("tok", grant_of(&[("bean/pk", "v")], 2_000));
    assert!(token_lookup(&tokens, "guessed", "bean/pk", 1_000).is_none());
}

#[test]
fn a_lapsed_token_opens_nothing() {
    let mut tokens = Table::new();
    tokens.insert("tok", grant_of(&[("bean/pk", "v")], 2_000));
    assert!(token_lookup(&tokens, "tok", "bean/pk", 2_000).is_none());
    assert!(token_lookup(&tokens, "tok", "bean/pk", 9_999).is_none());
}

#[test]
fn a_grant_is_capped_at_a_day() {
    let asked: u64 = 7 * 86_400;
    assert_eq!(asked.min(MAX_GRANT_SECS), MAX_GRANT_SECS);
    assert_eq!(600u64.min(MAX_GRANT_SECS), 600);
    assert_eq!(grant_ttl(asked), MAX_GRANT_SECS);
    assert_eq!(grant_ttl(600), 600);
    assert_eq!(grant_ttl(0), 300);
    assert_eq!(
        capped_notice(asked).as_deref(),
        Some("capped 604800s at 86400s")
    );
    assert_eq!(capped_notice(600), None);
}

#[test]
fn a_lease_outlives_the_store_key() {
    let mut leases: Table<Lease> = Table::new();
    leases.insert(
        "trade/pk",
        Lease {
            value: "value".into(),
            until: 2_000,
        },
    );
    let now = 1_500; // past KEY_TTL_SECS, so no key would be cached
    assert!(now > KEY_TTL_SECS);
    assert!(leases.get("trade/pk").is_some_and(|l| now < l.until));
}

#[test]
fn a_lease_does_not_cover_another_secret() {
    let mut leases: Table<Lease> = Table::new();
    leases.insert(
        "trade/pk",
        Lease {
            value: "value".into(),
            until: 2_000,
        },
    );
    assert!(!leases.has("personal/github"));
}

#[test]
fn a_window_holds_until_it_expires() {
    assert_eq!(decide(Mode::Window, WINDOW, None, 1000), Decision::Prompt);
    assert_eq!(
        decide(Mode::Window, WINDOW, Some(1000), 1000),
        Decision::Allow
    );
    assert_eq!(
        decide(Mode::Window, WINDOW, Some(1000), 1299),
        Decision::Allow
    );
    assert_eq!(
        decide(Mode::Window, WINDOW, Some(1000), 1300),
        Decision::Prompt
    );
    assert_eq!(
        decide(Mode::Window, WINDOW, Some(1000), 9999),
        Decision::Prompt
    );
}

/// Listing rides its own slot, so a `get` approval cannot be spent on enumerating everything
#[test]
fn the_list_slot_cannot_hold_a_real_name() {
    assert!(LIST_SLOT.contains('\u{0}'));
    assert_eq!(Op::default(), Op::Get);
}

#[test]
fn a_zero_window_asks_every_time() {
    assert_eq!(decide(Mode::Window, 0, Some(1000), 1000), Decision::Prompt);
}

#[test]
fn an_approval_from_the_future_is_not_trusted() {
    assert_eq!(
        decide(Mode::Window, WINDOW, Some(2000), 1000),
        Decision::Prompt
    );
    assert_eq!(
        decide(Mode::Never, WINDOW, Some(2000), 1000),
        Decision::Deny
    );
}

// Whole requests, with a finger that always agrees

struct World {
    broker: Broker,
    key: StoreKey,
    secrets: Vec<Secret>,
    manifest: Option<Manifest>,
    asked: Vec<String>,
    log: Vec<(String, String)>,
    saved: usize,
    finger: bool,
    disk_full: bool,
}

fn secret(name: &str, mode: Mode, value: &str, lease: u64) -> Secret {
    Secret {
        name: name.to_string(),
        mode,
        window_secs: WINDOW,
        lease_secs: lease,
        value: value.to_string(),
        created: 1,
        updated: 1,
    }
}

impl World {
    fn new(secrets: Vec<Secret>) -> World {
        World {
            broker: Broker::new(Store {
                dir: "/s".to_string(),
            }),
            key: StoreKey::generate(),
            secrets,
            manifest: None,
            asked: Vec::new(),
            log: Vec::new(),
            saved: 0,
            finger: true,
            disk_full: false,
        }
    }

    fn ask(&mut self, request: &Request, now: u64) -> Result<String, String> {
        let mut flow = Flow::Start;
        let mut event = Event::Begin;
        loop {
            let (next, action) = self.broker.handle(request, flow, event, now);
            flow = next;
            event = match action {
                Action::Ask(reason) => {
                    self.asked.push(reason);
                    if self.finger {
                        Event::Unlocked {
                            key: self.key.copy(),
                            grants: Vec::new(),
                        }
                    } else {
                        Event::Failed(Problem::Outside("no finger".to_string()))
                    }
                }
                Action::Load => Event::Loaded {
                    loaded: self
                        .secrets
                        .iter()
                        .enumerate()
                        .map(|(i, s)| (format!("id{i}"), Ok(s.copy())))
                        .collect(),
                    manifest: self.manifest.as_ref().map(|m| m.copy()),
                    token: new_token(),
                },
                Action::Save(grants) => {
                    self.saved = grants.len();
                    Event::Saved
                }
                Action::Record {
                    secrets, decision, ..
                } => {
                    if self.disk_full {
                        Event::Failed(Problem::Outside("disk full".to_string()))
                    } else {
                        for s in secrets {
                            self.log.push((s, decision.clone()));
                        }
                        Event::Recorded
                    }
                }
                Action::Reply(r) => return r.map_err(|e| e.message()),
            };
        }
    }

    fn get(&mut self, name: &str, now: u64) -> Result<String, String> {
        self.ask(&request(name, "aide", None, false), now)
    }
}

fn last(log: &[(String, String)]) -> (&str, &str) {
    let (a, b) = log.last().unwrap();
    (a, b)
}

#[test]
fn a_window_runs_from_the_prompt() {
    let mut w = World::new(vec![secret("db", Mode::Window, "v", 0)]);
    assert_eq!(w.get("db", 1000).unwrap(), "v");
    assert_eq!(w.asked, vec!["release the password for db to aide"]);
    assert_eq!(last(&w.log), ("db", "approved"));

    assert_eq!(w.get("db", 1299).unwrap(), "v");
    assert_eq!(w.asked.len(), 1);
    assert_eq!(last(&w.log), ("db", "within window"));

    // The busy read a moment ago did not push the window back
    assert_eq!(w.get("db", 1300).unwrap(), "v");
    assert_eq!(w.asked.len(), 2);
}

#[test]
fn an_open_secret_asks_only_for_the_key() {
    let mut w = World::new(vec![
        secret("a", Mode::Open, "va", 0),
        secret("b", Mode::Open, "vb", 0),
    ]);
    assert_eq!(w.get("a", 1000).unwrap(), "va");
    assert_eq!(w.get("b", 1100).unwrap(), "vb");
    assert_eq!(w.asked.len(), 1);
    assert_eq!(last(&w.log), ("b", "within window"));
}

#[test]
fn an_always_secret_asks_for_every_read() {
    let mut w = World::new(vec![secret("a", Mode::Always, "va", 0)]);
    w.get("a", 1000).unwrap();
    w.get("a", 1001).unwrap();
    w.get("a", 1002).unwrap();
    assert_eq!(w.asked.len(), 3);
}

#[test]
fn a_never_secret_is_refused_and_recorded() {
    let mut w = World::new(vec![secret("bank", Mode::Never, "hush", 0)]);
    let err = w.get("bank", 1000).unwrap_err();
    assert_eq!(err, "bank is marked never, refusing");
    assert_eq!(last(&w.log), ("bank", "denied"));
}

#[test]
fn a_person_reads_a_never_secret_with_a_finger_every_time() {
    let mut w = World::new(vec![secret("bank", Mode::Never, "hush", 3600)]);
    let mine = request("bank", "me", None, true);
    assert_eq!(w.ask(&mine, 1000).unwrap(), "hush");
    assert_eq!(w.ask(&mine, 1001).unwrap(), "hush");
    let reason = "release the password for bank to me";
    assert_eq!(w.asked, vec![reason, reason]);
    assert_eq!(last(&w.log), ("bank", "approved"));

    // Nothing is left behind for an agent, under the same name or another
    let err = "bank is marked never, refusing";
    let same = request("bank", "me", None, false);
    assert_eq!(w.ask(&same, 1002).unwrap_err(), err);
    assert_eq!(w.get("bank", 1002).unwrap_err(), err);
    w.finger = false;
    assert_eq!(w.ask(&mine, 1003).unwrap_err(), "no finger");
}

#[test]
fn an_unknown_name_is_refused_and_recorded() {
    let mut w = World::new(vec![]);
    assert_eq!(w.get("nope", 1000).unwrap_err(), "no secret named nope");
    assert_eq!(last(&w.log), ("nope", "unknown"));
}

#[test]
fn without_a_finger_nothing_is_released() {
    let mut w = World::new(vec![secret("a", Mode::Open, "va", 0)]);
    w.finger = false;
    assert_eq!(w.get("a", 1000).unwrap_err(), "no finger");
    assert!(w.log.is_empty());
}

#[test]
fn without_a_finger_nothing_is_listed_or_granted() {
    let mut w = World::new(vec![secret("a", Mode::Open, "va", 0)]);
    w.get("a", 1000).unwrap();
    w.finger = false;
    assert_eq!(w.ask(&list("aide"), 1001).unwrap_err(), "no finger");
    let names = vec!["a".to_string()];
    assert_eq!(
        w.ask(&grant(&names, "aide", 60), 1001).unwrap_err(),
        "no finger"
    );
    assert_eq!(
        w.asked[1..],
        ["list your secret names for aide", "grant a to aide for 60s"]
    );
    assert_eq!(w.log.len(), 1);
}

#[test]
fn what_cannot_be_recorded_is_not_released() {
    let mut w = World::new(vec![secret("a", Mode::Open, "va", 60)]);
    w.disk_full = true;
    assert_eq!(w.get("a", 1000).unwrap_err(), "disk full");
    w.disk_full = false;
    // Nor was it leased on the way
    w.get("a", 5000).unwrap();
    assert_eq!(w.asked.len(), 2);
}

#[test]
fn a_leased_value_answers_without_a_key() {
    let mut w = World::new(vec![
        secret("trade/pk", Mode::Window, "value", 86_400),
        secret("other", Mode::Window, "o", 0),
    ]);
    w.get("trade/pk", 1000).unwrap();
    assert_eq!(w.asked.len(), 1);

    // Long after the key is gone, and whoever asks
    assert_eq!(
        w.ask(&request("trade/pk", "another", None, false), 50_000).unwrap(),
        "value"
    );
    assert_eq!(w.asked.len(), 1);
    assert_eq!(last(&w.log), ("trade/pk", "within lease"));

    w.get("other", 50_000).unwrap();
    assert_eq!(w.asked.len(), 2);
}

#[test]
fn an_expired_lease_stops_answering() {
    let mut w = World::new(vec![secret("trade/pk", Mode::Window, "value", 1_000)]);
    w.get("trade/pk", 1_000).unwrap();
    w.get("trade/pk", 1_999).unwrap();
    assert_eq!(w.asked.len(), 1);
    w.get("trade/pk", 2_000).unwrap();
    assert_eq!(w.asked.len(), 2);
}

#[test]
fn the_key_is_gone_after_five_minutes() {
    let mut w = World::new(vec![secret("a", Mode::Open, "va", 0)]);
    w.get("a", 1000).unwrap();
    w.get("a", 1000 + KEY_TTL_SECS - 1).unwrap();
    assert_eq!(w.asked.len(), 1);
    w.get("a", 1000 + KEY_TTL_SECS).unwrap();
    assert_eq!(w.asked.len(), 2);
    assert!(is_idle(1000, 1300));
    assert!(!is_idle(1000, 1299));
    assert!(!is_idle(2000, 1000));
}

#[test]
fn listing_has_a_window_of_its_own() {
    let mut w = World::new(vec![
        secret("b/two", Mode::Window, "2", 0),
        secret("a/one", Mode::Window, "1", 0),
    ]);
    w.get("a/one", 1000).unwrap();
    assert_eq!(w.ask(&list("aide"), 1001).unwrap(), "a/one\nb/two");
    assert_eq!(w.asked.len(), 2);
    assert_eq!(w.asked[1], "list your secret names for aide");
    assert_eq!(last(&w.log), ("<list>", "approved"));

    w.ask(&list("aide"), 1200).unwrap();
    assert_eq!(w.asked.len(), 2);
    assert_eq!(last(&w.log), ("<list>", "within window"));

    w.ask(&list("codex"), 1200).unwrap();
    assert_eq!(w.asked.len(), 3);
}

#[test]
fn a_token_covers_names_and_namespaces() {
    let mut w = World::new(vec![
        secret("bean/pk", Mode::Window, "1", 0),
        secret("bean/bank", Mode::Never, "2", 0),
        secret("beanstalk/x", Mode::Window, "3", 0),
        secret("top", Mode::Always, "4", 0),
    ]);
    let names = vec!["top".to_string(), "bean".to_string()];
    let answer = w.ask(&grant(&names, "job", 3600), 1000).unwrap();
    assert_eq!(w.asked, vec!["grant top, bean to job for 3600s"]);
    let (token, covered) = passbox::commands::split_grant(&answer);
    assert_eq!(token.len(), 64);
    assert_eq!(covered, vec!["bean/pk", "top"]);
    assert_eq!(
        w.log,
        vec![
            ("bean/pk".to_string(), "granted".to_string()),
            ("top".to_string(), "granted".to_string())
        ]
    );

    // No prompt for whoever holds it, even for `always`
    let held = Some(token.clone());
    assert_eq!(
        w.ask(&request("top", "job", held.clone(), false), 4000).unwrap(),
        "4"
    );
    assert_eq!(last(&w.log), ("top", "by token"));
    assert_eq!(w.asked.len(), 1);

    // Nothing beside what was granted, and nothing once it lapsed
    w.ask(&request("beanstalk/x", "job", held.clone(), false), 4000)
        .unwrap();
    assert_eq!(w.asked.len(), 2);
    w.ask(&request("top", "job", held, false), 4600).unwrap();
    assert_eq!(w.asked.len(), 3);
}

/// Unknown, lapsed, or for another name: the read is the one it would be without a token
#[test]
fn a_token_that_opens_nothing_changes_nothing() {
    let world = || {
        let mut w = World::new(vec![
            secret("a", Mode::Window, "va", 0),
            secret("b", Mode::Always, "vb", 0),
        ]);
        let names = vec!["a".to_string()];
        let answer = w.ask(&grant(&names, "job", 60), 1000).unwrap();
        let (token, _) = passbox::commands::split_grant(&answer);
        (w, token)
    };
    for (name, now, unknown) in [("b", 1001, false), ("a", 1060, false), ("a", 1001, true)] {
        let (mut with, token) = world();
        let (mut without, _) = world();
        let token = if unknown { "nonsense".to_string() } else { token };
        let one = with.ask(&request(name, "job", Some(token), false), now);
        let two = without.ask(&request(name, "job", None, false), now);
        assert_eq!(one, two);
        assert_eq!(with.asked, without.asked);
        assert_eq!(with.log, without.log);
    }
}

/// However many secrets were approved, a listing asks as often
#[test]
fn an_approval_of_a_secret_never_pays_for_a_listing() {
    let secrets = || vec![secret("a", Mode::Window, "va", 0)];
    let mut approved = World::new(secrets());
    let mut other = World::new(secrets());
    approved.get("a", 1000).unwrap();
    other.ask(&request("a", "codex", None, false), 1000).unwrap();
    assert_eq!(approved.ask(&list("aide"), 1001), other.ask(&list("aide"), 1001));
    assert_eq!((approved.asked.len(), other.asked.len()), (2, 2));
    assert_eq!(approved.asked[1], other.asked[1]);
    assert_eq!(last(&approved.log), last(&other.log));
}

#[test]
fn a_record_names_who_asked_and_who_called() {
    let asked = request("db", "aide", None, false);
    let r = audit_record(&asked, "passbox < zsh", "db", "approved", 7);
    assert_eq!((r.at, r.agent.as_str(), r.secret.as_str()), (7, "aide", "db"));
    assert_eq!((r.decision.as_str(), r.caller.as_str()), ("approved", "passbox < zsh"));
}

/// One read, one record and one prompt at the most
#[test]
fn a_release_is_recorded_once() {
    let mut w = World::new(vec![
        secret("a", Mode::Always, "va", 0),
        secret("b", Mode::Open, "vb", 60),
    ]);
    for (i, (name, now)) in [("a", 1000), ("a", 1001), ("b", 1002), ("b", 9000)].iter().enumerate() {
        let before = w.asked.len();
        w.get(name, *now).unwrap();
        assert_eq!(w.log.len(), i + 1);
        assert_eq!(last(&w.log).0, *name);
        assert!(w.asked.len() - before <= 1);
    }
}

#[test]
fn waiting_and_looking_up_end() {
    assert!(goes_on(0, Some(2)));
    assert!(goes_on(5, Some(2)));
    assert!(!goes_on(6, Some(2)));
    assert!(!goes_on(0, None));
    assert_eq!(socket_is_up(0, false).ok(), Some(false));
    assert_eq!(socket_is_up(49, true).ok(), Some(true));
    assert_eq!(
        socket_is_up(50, true).err().unwrap().message(),
        "the broker never opened its socket"
    );
}

#[test]
fn a_token_for_nothing_is_refused() {
    let mut w = World::new(vec![secret("bank", Mode::Never, "2", 0)]);
    let names = |n: &str| vec![n.to_string()];
    assert_eq!(
        w.ask(&grant(&names("nope"), "job", 0), 1000).unwrap_err(),
        "no secret named nope, and nothing under nope/"
    );
    assert_eq!(
        w.ask(&grant(&names("bank"), "job", 0), 1000).unwrap_err(),
        "bank matched only secrets marked never"
    );
}

fn manifest(raw: &str, secrets: &[&str]) -> Manifest {
    project::read(
        "/work",
        raw.as_bytes(),
        secrets.iter().map(|s| s.to_string()).collect(),
        None,
    )
}

#[test]
fn one_prompt_covers_a_manifest() {
    let mut w = World::new(vec![
        secret("warm", Mode::Open, "0", 0),
        secret("a/b", Mode::Window, "1", 0),
        secret("c/d", Mode::Window, "2", 0),
    ]);
    w.get("warm", 990).unwrap();
    w.manifest = Some(manifest("m1", &["a/b", "c/d"]));
    assert_eq!(w.get("a/b", 1000).unwrap(), "1");
    assert_eq!(
        w.asked[1],
        "give aide access to 2 secrets declared by /work for 60 minutes"
    );
    assert_eq!(w.saved, 1);
    assert_eq!(last(&w.log), ("a/b", "project grant"));

    assert_eq!(w.get("c/d", 1001).unwrap(), "2");
    assert_eq!(w.asked.len(), 2);
    assert_eq!(last(&w.log), ("c/d", "project grant"));

    // An edited manifest is another manifest
    w.manifest = Some(manifest("m2", &["a/b", "c/d"]));
    w.get("a/b", 1002).unwrap();
    assert_eq!(w.asked.len(), 3);
}

#[test]
fn a_secret_that_cannot_be_read_fails_the_search() {
    let store = Store {
        dir: "/s".to_string(),
    };
    let mut broker = Broker::new(store);
    let req = request("b", "me", None, false);
    let (flow, _) = broker.handle(&req, Flow::Start, Event::Begin, 1000);
    let (flow, _) = broker.handle(
        &req,
        flow,
        Event::Unlocked {
            key: StoreKey::generate(),
            grants: vec![Grant {
                dir: "/x".into(),
                hash: "h".into(),
                secrets: vec!["b".into()],
                until: 2000,
            }],
        },
        1000,
    );
    let loaded = vec![
        ("1".to_string(), Err(Problem::NotASecret)),
        ("2".to_string(), Ok(secret("b", Mode::Open, "v", 0))),
    ];
    let (_, action) = broker.handle(
        &req,
        flow,
        Event::Loaded {
            loaded,
            manifest: None,
            token: String::new(),
        },
        1000,
    );
    match action {
        Action::Reply(Err(e)) => assert_eq!(e.message(), "secret file is not valid json"),
        _ => panic!("the search went on"),
    }
}

#[test]
fn answers_come_back_as_they_were_sent() {
    assert_eq!(
        answer_of(respond(Ok("v".to_string()))).ok().as_deref(),
        Some("v")
    );
    let err = |r: Result<String, Problem>| r.err().unwrap().message();
    assert_eq!(
        err(answer_of(respond(Err(Problem::NoSecret("x".into()))))),
        "no secret named x"
    );
    assert_eq!(
        err(answer_of(bad_request("not json"))),
        "bad request: not json"
    );
    let mut empty = respond(Ok("v".to_string()));
    empty.value = None;
    assert_eq!(err(answer_of(empty)), "broker sent no value");
    let mut mute = bad_request("x");
    mute.error = None;
    assert_eq!(err(answer_of(mute)), "refused");
}

#[test]
fn callers_are_read_from_the_kernel() {
    assert_eq!(
        parse_ps("  501 /bin/zsh\n"),
        Some(("/bin/zsh".to_string(), Some(501)))
    );
    assert_eq!(
        parse_ps("    1 /sbin/launchd"),
        Some(("/sbin/launchd".to_string(), None))
    );
    assert_eq!(parse_ps(""), None);
    assert_eq!(ancestry(&vec![]), "unknown");
    assert_eq!(
        ancestry(&vec!["passbox".to_string(), "zsh".to_string()]),
        "passbox < zsh"
    );
    assert_eq!(
        caller_cwd("p123\nfcwd\nn/Users/x/work\n").as_deref(),
        Some("/Users/x/work")
    );
    assert_eq!(caller_cwd("p123\n"), None);
}

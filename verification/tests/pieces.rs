//! The smaller parts: redaction, the tree, base64, tokens, entries, manifests and commands.

use passbox::commands::{
    accept_generate, add, agent, agent_list_names, agent_read_secret, audit, changes_remote,
    check_sync, confirm_passphrase, exit_code, fields, first_recipient, get, git_push,
    importing_line, imported_line, init, ls, machine_add, may_have_pulled, new_passphrase, prompt,
    read_destination, read_secret_as, read_value, read_way, run_child, set_mode,
    split_command, split_env, split_grant, stored_line, sync_line, targets, test_work_factor,
    through_broker, typed_value, work_factor_fits, Destination, Handover, WayIn,
};
use passbox::import::{self, entries, imported, select, show, store_dir, Fate};
use passbox::mcp::{
    call, call_result, choose_call, initialize, list_secrets, redact, reply, run_with_secret,
    show_output, tools, Call, Session, Turn,
};
use passbox::number::{parse_up_to, to_decimal, to_signed_decimal};
use passbox::order::{join_texts, sort, sort_dedup};
use passbox::problem::Problem;
use passbox::project::{self, dirs_from, manifest_path, Grant, Manifest};
use passbox::se::{base64, outcome, seal_request, unwrap, wrap, KeyPair, Sealed};
use passbox::store::{hostname, id_of, new_id, now, seconds, Mode, Secret, Store};
use passbox::sync::{
    classify, configured_remote, default_remote, is_home, rclone_args, skip, sort_paths,
    sync_via_rclone, Kind, Report,
};
use passbox::tree::render;
use passbox::yubikey::{
    accept_install, accept_stop, check_install, check_management_key, check_recipient, check_stopped, generate,
    is_yes, management_key_is_supported, offer_install, offer_to_stop_scdaemon, piv_slots_in_use,
    recipient, recipients, Offer, PLUGIN_NAME,
};
use serde_json::Value;

fn texts(list: &[&str]) -> Vec<String> {
    list.iter().map(|s| s.to_string()).collect()
}

fn words(r: Result<(), Problem>) -> String {
    r.err().unwrap().message()
}

// Redaction and the protocol

#[test]
fn the_secret_is_scrubbed_from_whatever_the_command_printed() {
    let out = redact("token is ghp_abc123 ok", "ghp_abc123");
    assert_eq!(out, "token is [redacted by passbox] ok");
    assert!(!out.contains("ghp_abc123"));
}

#[test]
fn redacting_every_occurrence() {
    let out = redact("a s b s", "s");
    assert_eq!(out.matches("[redacted by passbox]").count(), 2);
}

#[test]
fn an_empty_secret_does_not_blank_the_output() {
    assert_eq!(redact("hello", ""), "hello");
}

#[test]
fn redaction_works_from_the_left() {
    assert_eq!(redact("aaa", "aa"), "[redacted by passbox]a");
    assert_eq!(redact("xyxyz", "xyz"), "xy[redacted by passbox]");
    assert_eq!(redact("short", "longer than that"), "short");
}

#[test]
fn the_tool_list_offers_no_way_to_read_a_value() {
    let listed: Value = serde_json::from_str(&tools()).unwrap();
    let names: Vec<&str> = listed["tools"]
        .as_array()
        .unwrap()
        .iter()
        .map(|t| t["name"].as_str().unwrap())
        .collect();
    assert_eq!(names, vec!["list_secrets", "run_with_secret"]);
}

#[test]
fn initialize_echoes_the_version_the_client_asked_for() {
    let text = initialize("{\"protocolVersion\": \"2024-11-05\"}", "0.1.0");
    let reply: Value = serde_json::from_str(&text).unwrap();
    assert_eq!(reply["protocolVersion"], "2024-11-05");
    assert_eq!(reply["serverInfo"]["name"], "passbox");
    let text = initialize("{}", "0.1.0");
    let reply: Value = serde_json::from_str(&text).unwrap();
    assert_eq!(reply["protocolVersion"], "2025-06-18");
    assert_eq!(reply["serverInfo"]["version"], "0.1.0");
}

#[test]
fn a_client_names_itself() {
    let mut session = Session::new();
    assert_eq!(session.agent, "mcp");
    let line = "{\"id\":1,\"method\":\"initialize\",\"params\":{\"clientInfo\":{\"name\":\"codex\"}}}";
    match session.serve(line, "0.1.0") {
        Turn::Result { id, result } => {
            let text = reply(&id, &result).unwrap();
            let value: Value = serde_json::from_str(&text).unwrap();
            assert_eq!(value["id"], 1);
            assert_eq!(value["jsonrpc"], "2.0");
            assert_eq!(value["result"]["protocolVersion"], "2025-06-18");
        }
        _ => panic!("no handshake"),
    }
    assert_eq!(session.agent, "codex");
}

#[test]
fn lines_that_are_no_calls() {
    let mut session = Session::new();
    assert!(matches!(session.serve("  \n", "1"), Turn::Quiet));
    assert!(matches!(session.serve("{nonsense", "1"), Turn::Quiet));
    assert!(matches!(session.serve("{\"id\":1}", "1"), Turn::Quiet));
    assert!(matches!(
        session.serve("{\"id\":1,\"method\":\"unheard/of\"}", "1"),
        Turn::Quiet
    ));
    match session.serve("{\"id\":\"x\",\"method\":\"ping\"}", "1") {
        Turn::Result { id, result } => assert_eq!(
            reply(&id, &result).as_deref(),
            Some("{\"id\":\"x\",\"jsonrpc\":\"2.0\",\"result\":{}}")
        ),
        _ => panic!("no pong"),
    }
    // A notification takes no reply
    match session.serve("{\"method\":\"tools/list\"}", "1") {
        Turn::Result { id, result } => {
            assert_eq!(result, tools());
            assert_eq!(reply(&id, &result), None);
        }
        _ => panic!("no list"),
    }
}

#[test]
fn tool_calls_are_taken_apart() {
    let run = "{\"id\":2,\"method\":\"tools/call\",\"params\":{\"name\":\"run_with_secret\",\
               \"arguments\":{\"secret\":\"github/token\",\"command\":[\"gh\",7,\"api\"],\
               \"env_var\":\"GH_TOKEN\"}}}";
    let mut session = Session::new();
    match session.serve(run, "1") {
        Turn::Call {
            id,
            call: Call::Run {
                secret,
                command,
                env_var,
            },
        } => {
            assert_eq!(id.as_deref(), Some("2"));
            assert_eq!(secret, "github/token");
            assert_eq!(command, vec!["gh", "api"]);
            assert_eq!(env_var.as_deref(), Some("GH_TOKEN"));
        }
        _ => panic!("not a call"),
    }
    assert!(matches!(
        call("{\"params\":{\"name\":\"list_secrets\"}}"),
        Call::List
    ));
    let refused = |text: &str| match call(text) {
        Call::Refused(e) => e.message(),
        Call::Said(text) => text,
        _ => panic!("accepted"),
    };
    assert_eq!(
        refused("{\"params\":{\"name\":\"get_secret\"}}"),
        "no tool named get_secret"
    );
    assert_eq!(refused("{}"), "no tool named ");
    assert_eq!(
        refused("{\"params\":{\"name\":\"run_with_secret\"}}"),
        "secret is required"
    );
    assert_eq!(
        refused("{\"params\":{\"name\":\"run_with_secret\",\"arguments\":{\"secret\":\"s\"}}}"),
        "command is required"
    );
    assert_eq!(
        refused(
            "{\"params\":{\"name\":\"run_with_secret\",\"arguments\":{\"secret\":\"s\",\"command\":[]}}}"
        ),
        "command was empty"
    );
}

#[test]
fn what_stands_in_a_call_decides_it() {
    let tool = || Some("run_with_secret".to_string());
    let items = || Some(vec![Some("gh".to_string()), None, Some("api".to_string())]);
    match choose_call(tool(), Some("s".into()), items(), None) {
        Call::Run {
            secret,
            command,
            env_var,
        } => {
            assert_eq!(secret, "s");
            assert_eq!(command, vec!["gh", "api"]);
            assert_eq!(env_var, None);
        }
        _ => panic!("not a run"),
    }
    assert!(matches!(
        choose_call(tool(), None, items(), None),
        Call::Refused(Problem::SecretRequired)
    ));
    assert!(matches!(
        choose_call(tool(), Some("s".into()), None, None),
        Call::Refused(Problem::CommandRequired)
    ));
    assert!(matches!(
        choose_call(tool(), Some("s".into()), Some(vec![None]), None),
        Call::Said(_)
    ));
    assert!(matches!(
        choose_call(None, None, None, None),
        Call::Refused(Problem::NoTool(_))
    ));
}

#[test]
fn what_stands_in_a_message_decides_the_turn() {
    let mut session = Session::new();
    let text = |s: &str| Some(s.to_string());
    let turn = session.take(text("1"), text("ping"), None, None, Call::List, "9");
    assert!(matches!(turn, Turn::Result { result, .. } if result == "{}"));
    let turn = session.take(None, text("tools/call"), None, None, Call::List, "9");
    assert!(matches!(
        turn,
        Turn::Call {
            id: None,
            call: Call::List
        }
    ));
    let turn = session.take(
        text("1"),
        text("initialize"),
        text("p"),
        text("codex"),
        Call::List,
        "9",
    );
    assert!(matches!(
        turn,
        Turn::Result { result, .. } if result
            == "{\"capabilities\":{\"tools\":{}},\"protocolVersion\":\"p\",\
                \"serverInfo\":{\"name\":\"passbox\",\"version\":\"9\"}}"
    ));
    assert_eq!(session.agent, "codex");
    // An empty name is no name
    session.take(None, text("initialize"), None, text(""), Call::List, "9");
    assert_eq!(session.agent, "codex");
    let turn = session.take(text("1"), None, None, None, Call::List, "9");
    assert!(matches!(turn, Turn::Quiet));
}

#[test]
fn json_strings_are_escaped() {
    let odd = "q\" b\\ \u{8}\t\n\u{c}\r \u{1}\u{1f}\u{7f} \u{e9}";
    let text = call_result(Ok(odd.to_string()));
    assert_eq!(
        text,
        "{\"content\":[{\"text\":\"q\\\" b\\\\ \\b\\t\\n\\f\\r \\u0001\\u001f\u{7f} \u{e9}\",\
         \"type\":\"text\"}]}"
    );
    let value: Value = serde_json::from_str(&text).unwrap();
    assert_eq!(value["content"][0]["text"], odd);
}

#[test]
fn tool_results_are_json() {
    let ok: Value = serde_json::from_str(&call_result(Ok("a \"b\"\n".into()))).unwrap();
    assert_eq!(ok["content"][0]["text"], "a \"b\"\n");
    assert!(ok.get("isError").is_none());
    let err = call_result(Err(Problem::NoSecret("x".into())));
    let err: Value = serde_json::from_str(&err).unwrap();
    assert_eq!(err["content"][0]["text"], "no secret named x");
    assert_eq!(err["isError"], true);
    assert_eq!(list_secrets(&vec![]), "no secrets yet");
    assert_eq!(list_secrets(&texts(&["a", "b"])), "a\nb");
}

#[test]
fn a_command_is_shown_without_its_secret() {
    assert_eq!(
        run_with_secret(b"hello s3cret", b"", true, Some(0), "s3cret"),
        "hello [redacted by passbox]"
    );
    assert_eq!(
        run_with_secret(b"out", b"warn s3cret\n", false, Some(3), "s3cret"),
        "out\nstderr:\nwarn [redacted by passbox]\n\nexit: 3"
    );
    assert_eq!(
        run_with_secret(b"", b" \n", false, None, "zz"),
        "\nexit: 1"
    );
    assert_eq!(show_output("a s b", "", true, None, "s"), "a [redacted by passbox] b");
    assert_eq!(
        run_with_secret(b"\xff", b"", true, Some(0), "zz"),
        "\u{fffd}"
    );
}

// The tree

#[test]
fn nests_by_namespace() {
    let out = render(
        &texts(&["bean/api-key", "bean/hl-mainnet-pk", "top"]),
        false,
    );
    assert_eq!(
        out,
        "passbox\n\
         ├── bean\n\
         │   ├── api-key\n\
         │   └── hl-mainnet-pk\n\
         └── top\n"
    );
}

#[test]
fn deep_paths_keep_indenting() {
    let out = render(
        &texts(&["r2/storage/access-key-id", "r2/storage/secret"]),
        false,
    );
    assert_eq!(
        out,
        "passbox\n\
         └── r2\n\
         \x20   └── storage\n\
         \x20       ├── access-key-id\n\
         \x20       └── secret\n"
    );
}

/// Colour marks namespaces, so a leaf never carries an escape sequence
#[test]
fn colour_only_marks_namespaces() {
    let out = render(&texts(&["bean/api-key", "top"]), true);
    assert!(out.contains("\x1b[1;34mbean\x1b[0m"));
    assert!(out.contains("└── top\n"));
    assert!(!out.contains("\x1b[1;34mtop"));
    assert!(!out.contains("\x1b[1;34mapi-key"));
}

/// A line for the program, one for each name and one for each namespace; colours are all that
/// colour adds
#[test]
fn a_tree_has_a_line_for_every_place() {
    let names = texts(&["bean/api/key", "bean/api", "bean/pk", "top", "top"]);
    let plain = render(&names, false);
    assert_eq!(plain.lines().count(), 1 + 5);
    let colour = render(&names, true);
    assert_ne!(colour, plain);
    let bare = colour.replace("\u{1b}[1;34m", "").replace("\u{1b}[0m", "");
    assert_eq!(bare, plain);
}

#[test]
fn an_empty_store_renders_just_the_root() {
    assert_eq!(render(&vec![], false), "passbox\n");
}

#[test]
fn the_order_of_names_does_not_matter() {
    let a = render(&texts(&["b/x", "a", "b", "//b//y"]), false);
    let b = render(&texts(&["b//y", "b", "a", "b/x", "a"]), false);
    assert_eq!(a, b);
    assert_eq!(
        a,
        "passbox\n├── a\n└── b\n\u{20}   ├── x\n\u{20}   └── y\n"
    );
}

// The Secure Enclave

#[test]
fn base64_matches_known_vectors() {
    assert_eq!(base64(b""), "");
    assert_eq!(base64(b"f"), "Zg==");
    assert_eq!(base64(b"fo"), "Zm8=");
    assert_eq!(base64(b"foo"), "Zm9v");
    assert_eq!(base64(b"foob"), "Zm9vYg==");
    assert_eq!(base64(b"fooba"), "Zm9vYmE=");
    assert_eq!(base64(b"foobar"), "Zm9vYmFy");
    assert_eq!(base64(&[0xff, 0xfe, 0xfd]), "//79");
}

#[test]
fn a_wrap_is_put_together_and_asked_for() {
    let pair = KeyPair {
        public_key: "pub".into(),
        key_blob: "blob".into(),
    };
    let ask = seal_request(&pair, b"foo");
    assert_eq!((ask.public_key.as_str(), ask.plaintext.as_str()), ("pub", "Zm9v"));
    let whole = wrap(
        pair,
        Sealed {
            ephemeral: "eph".into(),
            ciphertext: "ct".into(),
        },
    );
    assert_eq!(whole.public_key, "pub");
    let open = unwrap(&whole);
    assert_eq!(
        (
            open.key_blob.as_str(),
            open.ephemeral.as_str(),
            open.ciphertext.as_str()
        ),
        ("blob", "eph", "ct")
    );
    assert_eq!(outcome(true, vec![1, 2], b"noise").ok(), Some(vec![1, 2]));
    assert_eq!(
        outcome(false, vec![], b" no finger \n").err().unwrap().message(),
        "no finger"
    );
}

// YubiKeys

#[test]
fn a_plain_x25519_recipient_is_refused() {
    let err = words(recipient(
        "age1yyc8rqn67hcupyasv6d0tdpghndh2nnkk599emt3z8cqzkhr5ccqg4xglx",
    ));
    assert!(err.contains("not an age recipient"), "{err}");
}

/* The exact `ykman piv info` shape this has to read, from a 5.7.4 token */
const AES_INFO: &str = "PIV version:              5.7.4\nPIN tries remaining:      3/3\nManagement key algorithm: AES192\nManagement key is stored on the YubiKey, protected by PIN.\n";

#[test]
fn an_aes_management_key_is_refused_with_the_fix() {
    let err = words(check_management_key(AES_INFO));
    assert!(err.contains("AES192"), "{err}");
    assert!(err.contains("change-management-key -a tdes"), "{err}");
}

#[test]
fn a_tdes_management_key_passes() {
    let info = AES_INFO.replace("AES192", "TDES");
    assert!(check_management_key(&info).is_ok());
    let info = AES_INFO.replace("AES192", "tdes");
    assert!(check_management_key(&info).is_ok());
}

#[test]
fn an_unreadable_applet_does_not_block_the_plugin() {
    assert!(check_management_key("").is_ok());
    assert!(check_management_key("PIV version: 5.7.4\n").is_ok());
    assert!(management_key_is_supported(None).is_ok());
    assert!(management_key_is_supported(Some(AES_INFO)).is_err());
}

/* A real recipient from a provisioned token. The plugin name inside it is `yubikey`, not the
binary name, and comparing against the binary rejected every genuine token. */
#[test]
fn a_real_yubikey_recipient_is_accepted() {
    const REAL: &str = "age1yubikey1q0vlphw7w6z47hqzfl8x950zv7hy66aed5amgcvyx8cu4rqcfh7fswwqa7n";
    assert_eq!(PLUGIN_NAME, "yubikey");
    assert!(recipient(REAL).is_ok());
    assert!(recipient(&format!("  {REAL}\n")).is_ok());
}

#[test]
fn nonsense_is_refused() {
    assert!(recipient("hello").err().is_some());
    assert!(recipient("").err().is_some());
}

#[test]
fn a_recipient_of_another_plugin_is_refused() {
    let parsed = check_recipient("age1se1...", Ok("se".to_string()));
    assert_eq!(
        words(parsed),
        "age1se1... is a se recipient, not a YubiKey one"
    );
    assert!(check_recipient("x", Ok("yubikey".to_string())).is_ok());
    assert_eq!(
        words(check_recipient("x", Err("no bech32".to_string()))),
        "x is not an age recipient: no bech32"
    );
}

#[test]
fn what_a_token_holds_is_listed() {
    let info = "PIV version: 5.7.4\n  Slot 9A (AUTHENTICATION):\n    Key type: ECCP256\nSlot 82:\n";
    assert_eq!(
        piv_slots_in_use(Some(info)),
        Some(texts(&["Slot 9A (AUTHENTICATION):", "Slot 82:"]))
    );
    assert_eq!(piv_slots_in_use(None), None);
    let printed = "#       Serial: 1, Slot: 1\n#    Recipient: age1yubikey1qabc\n\nage1yubikey1qdef extra\n";
    assert_eq!(
        recipients(printed),
        texts(&["age1yubikey1qabc", "age1yubikey1qdef"])
    );
}

#[test]
fn offers_are_made_and_taken() {
    assert_eq!(offer_install(true, false, false).ok(), Some(Offer::Settled));
    assert_eq!(offer_install(false, true, true).ok(), Some(Offer::Ask));
    assert_eq!(
        offer_install(false, true, false).err().unwrap().message(),
        "age-plugin-yubikey is not on PATH, install it with `brew install age-plugin-yubikey`"
    );
    assert!(is_yes(" Yes \n") && is_yes("Y") && !is_yes("yep") && !is_yes(""));
    assert!(accept_install("y").is_ok());
    assert_eq!(
        words(accept_install("no")),
        "install it with `brew install age-plugin-yubikey` and run this again"
    );
    assert!(check_install(true, true).is_ok());
    assert_eq!(
        words(check_install(true, false)),
        "brew could not install age-plugin-yubikey"
    );
    assert_eq!(
        offer_to_stop_scdaemon(false, false).ok(),
        Some(Offer::Settled)
    );
    assert_eq!(offer_to_stop_scdaemon(true, true).ok(), Some(Offer::Ask));
    assert_eq!(
        offer_to_stop_scdaemon(true, false).err().unwrap().message(),
        "stop it with `gpgconf --kill scdaemon` and run this again"
    );
    assert!(accept_stop("yes").is_ok() && accept_stop("n").is_err());
    assert!(check_stopped(true, false).is_ok());
    assert_eq!(
        words(check_stopped(true, true)),
        "scdaemon is still running, stop it with `gpgconf --kill scdaemon`"
    );
    assert!(generate(true).is_ok());
    assert_eq!(
        words(generate(false)),
        "age-plugin-yubikey --generate did not finish"
    );
}

// Entries of pass

#[test]
fn entry_names_mirror_the_pass_layout() {
    let found = entries(&texts(&[
        "fred-api-key.gpg",
        "bean/hl-mainnet-pk.gpg",
        "r2/storage/access-key-id.gpg",
    ]));
    assert_eq!(
        found,
        vec![
            "bean/hl-mainnet-pk",
            "fred-api-key",
            "r2/storage/access-key-id"
        ]
    );
}

/// The git directory and the gpg-id file are not entries
#[test]
fn housekeeping_files_are_not_entries() {
    let found = entries(&texts(&[
        "real.gpg",
        ".gpg-id",
        ".git/objects/ab/cdef.gpg",
        "README.md",
    ]));
    assert_eq!(found, vec!["real"]);
}

fn names() -> Vec<String> {
    texts(&[
        "bean/hl-mainnet-pk",
        "bean/fred-api-key",
        "beanstalk/other",
        "r2/storage/id",
        "top",
    ])
}

#[test]
fn no_prefix_takes_everything() {
    assert_eq!(select(&names(), None).len(), 5);
}

/// `bean` must not drag in `beanstalk`, which is why the match is on a trailing slash
#[test]
fn a_namespace_does_not_match_a_longer_name() {
    let picked = select(&names(), Some("bean"));
    assert_eq!(picked, vec!["bean/hl-mainnet-pk", "bean/fred-api-key"]);
}

#[test]
fn a_full_entry_name_takes_just_that_one() {
    assert_eq!(select(&names(), Some("top")), vec!["top"]);
    assert_eq!(
        select(&names(), Some("r2/storage/id")),
        vec!["r2/storage/id"]
    );
}

#[test]
fn a_trailing_slash_is_tolerated() {
    assert_eq!(select(&names(), Some("bean/")).len(), 2);
}

#[test]
fn an_unknown_prefix_selects_nothing() {
    assert!(select(&names(), Some("nope")).is_empty());
}

#[test]
fn an_empty_store_is_not_an_error() {
    assert!(entries(&vec![]).is_empty());
}

#[test]
fn entries_come_across_whole() {
    assert_eq!(
        store_dir(Some("/p".into()), Some("/home/x".into())),
        "/p"
    );
    assert_eq!(store_dir(None, Some("/home/x".into())), "/home/x/.password-store");
    assert_eq!(store_dir(None, None), "");
    assert_eq!(
        show(true, b"pw\nuser: x\n\n".to_vec(), "").ok().as_deref(),
        Some("pw\nuser: x")
    );
    assert_eq!(
        show(false, vec![], " not in store \n").err().unwrap().message(),
        "not in store"
    );
    assert_eq!(
        show(true, vec![0xff], "").err().unwrap().message(),
        "entry is not text"
    );
    let (id, s) = imported("a", "pw", Mode::Open, None, "new".into(), 9);
    assert_eq!(id, "new");
    assert_eq!((s.window_secs, s.lease_secs, s.created, s.updated), (300, 0, 9, 9));
    let (id, s) = imported("a", "pw", Mode::Open, Some("old".into()), "new".into(), 9);
    assert_eq!((id.as_str(), s.value.as_str()), ("old", "pw"));
    let held = vec![Some("old".to_string()), None];
    let (fates, report) = import::import(&held, false);
    assert_eq!(fates, vec![Fate::Skip, Fate::Create]);
    assert_eq!((report.imported, report.skipped), (1, 1));
    let (fates, report) = import::import(&held, true);
    assert_eq!(fates, vec![Fate::Replace, Fate::Create]);
    assert_eq!(imported_line(report), "imported 2, skipped 0");
    assert_eq!(importing_line(2, 3), "importing 2 of 3 entries");
    let none = passbox::commands::import_pass(&vec![], None, "/p");
    assert_eq!(none.err().unwrap().message(), "no pass entries under /p");
    let miss = passbox::commands::import_pass(&names(), Some("x"), "/p");
    assert_eq!(
        miss.err().unwrap().message(),
        "nothing in pass matches x, of 5 entries"
    );
}

// Manifests and grants

fn manifest(dir: &str, body: &str, secrets: &[&str], window: Option<u64>) -> Manifest {
    project::read(dir, body.as_bytes(), texts(secrets), window)
}

fn grant_for(m: &Manifest, until: u64) -> Grant {
    Grant {
        dir: m.dir.clone(),
        hash: m.hash.clone(),
        secrets: m.secrets.clone(),
        until,
    }
}

#[test]
fn a_manifest_is_found_from_a_subdirectory() {
    let dirs = dirs_from("/tmp/p/src/inner");
    assert_eq!(
        dirs,
        vec!["/tmp/p/src/inner", "/tmp/p/src", "/tmp/p", "/tmp", "/"]
    );
    let found = project::find(&dirs, &vec![false, false, true, false, true]);
    assert_eq!(found, Some(2));
    assert_eq!(manifest_path(&dirs[2]), "/tmp/p/.passbox.toml");
    let m = manifest(&dirs[2], "secrets = [\"a/b\"]\n", &["a/b"], None);
    assert_eq!(m.secrets, vec!["a/b"]);
    assert_eq!(m.dir, "/tmp/p");
    assert_eq!(m.window_secs, 3600);
    assert_eq!(dirs_from("a/b"), vec!["a/b", "a", ""]);
    assert_eq!(dirs_from("/"), vec!["/"]);
    // However the directory is written, it is the same one
    assert_eq!(dirs_from("/a//b"), vec!["/a//b", "/a", "/"]);
    assert_eq!(dirs_from("/a/b//"), vec!["/a/b", "/a", "/"]);
    assert_eq!(dirs_from("/a/./b/."), vec!["/a/./b", "/a", "/"]);
    assert_eq!(dirs_from("//"), vec!["/"]);
    assert_eq!(manifest("/tmp/p/", "", &[], None).dir, "/tmp/p");
}

#[test]
fn no_manifest_anywhere_is_not_an_error() {
    let dirs = dirs_from("/tmp/p");
    assert!(project::find(&dirs, &vec![false, false, false]).is_none());
}

#[test]
fn a_grant_covers_only_what_the_manifest_listed() {
    let m = manifest("/p", "secrets = [\"a/b\"]\n", &["a/b"], None);
    let grant = grant_for(&m, 1000);

    assert!(grant.covers(&m, "a/b", 999));
    assert!(!grant.covers(&m, "other/secret", 999));
    let moved = manifest("/q", "secrets = [\"a/b\"]\n", &["a/b"], None);
    assert!(!grant.covers(&moved, "a/b", 999));
}

#[test]
fn a_grant_expires() {
    let m = manifest("/p", "secrets = [\"a/b\"]\n", &["a/b"], None);
    let grant = grant_for(&m, 1000);
    assert!(!grant.covers(&m, "a/b", 1000));
    assert!(!grant.covers(&m, "a/b", 1001));
}

/// The property the whole design rests on: editing the file cannot widen what it opens
#[test]
fn adding_a_secret_to_the_manifest_voids_the_grant() {
    let before = manifest("/p", "secrets = [\"a/b\"]\n", &["a/b"], None);
    let grant = grant_for(&before, 9999);
    assert!(grant.covers(&before, "a/b", 1));

    let after = manifest(
        "/p",
        "secrets = [\"a/b\", \"stolen/key\"]\n",
        &["a/b", "stolen/key"],
        None,
    );
    assert_ne!(before.hash, after.hash);
    assert!(!grant.covers(&after, "a/b", 1));
    assert!(!grant.covers(&after, "stolen/key", 1));
}

#[test]
fn a_window_is_capped() {
    let m = manifest("/p", "secrets = []\nwindow_secs = 999999\n", &[], Some(999_999));
    assert_eq!(m.window_secs, project::MAX_GRANT_SECS);
    assert_eq!(m.window_secs, 43_200);
}

#[test]
fn a_hash_is_the_sha256_in_hexadecimal() {
    assert_eq!(
        project::hash(b"abc"),
        "ba7816bf8f01cfea414140de5dae2223b00361a396177a9cb410ff61f20015ad"
    );
}

// Destinations

#[test]
fn destinations_are_classified_by_shape() {
    assert_eq!(classify("/Volumes/stick/passbox"), Kind::Directory);
    assert_eq!(classify("~/Dropbox/passbox"), Kind::Directory);
    assert_eq!(classify("b2:passbox"), Kind::Rclone);
    assert_eq!(classify("drive:passbox"), Kind::Rclone);
    assert_eq!(classify("git@github.com:you/store.git"), Kind::Git);
    assert_eq!(classify("https://github.com/you/store.git"), Kind::Git);
    assert_eq!(classify("ssh://git@host/store"), Kind::Git);
}

/// A git URL also contains a colon, so it must be tested before the rclone shape
#[test]
fn a_git_url_is_not_read_as_an_rclone_remote() {
    assert_ne!(classify("git@github.com:you/store.git"), Kind::Rclone);
}

#[test]
fn the_default_remote_is_found_in_order() {
    let all = |set: Option<&str>, raw: Option<&str>, home: Option<&str>| {
        default_remote(set.map(|s| s.to_string()), raw, home)
    };
    assert_eq!(all(Some("/env"), Some("/file"), Some("/h")).ok().unwrap(), "/env");
    assert_eq!(all(None, Some(" /file\n"), Some("/h")).ok().unwrap(), "/file");
    assert_eq!(
        all(None, Some(" \n"), Some("/h")).ok().unwrap(),
        "/h/Library/Mobile Documents/com~apple~CloudDocs/passbox"
    );
    assert_eq!(all(None, None, None).err().unwrap().message(), "HOME is not set");
    assert_eq!(configured_remote(None), None);
}

#[test]
fn what_stays_home() {
    for path in [
        "broker.sock",
        "remote",
        "names",
        "store/.versions",
        "store/.versions/ab/1.age",
        "grants-mac.age",
        "remote/x",
    ] {
        assert!(is_home(path), "{path}");
    }
    for path in ["store/ab.age", "wraps/recipient", "audit-mac.log", "grants-x"] {
        assert!(!is_home(path), "{path}");
    }
    assert!(skip("names") && !skip("names/x"));
}

#[test]
fn paths_are_sorted_by_component() {
    assert_eq!(
        sort_paths(&texts(&["a-b", "a/z", "a", "a/b/c", "a/b"])),
        texts(&["a", "a/b", "a/b/c", "a/z", "a-b"])
    );
}

#[test]
fn rclone_is_called_with_what_stays_home_left_out() {
    let store = Store { dir: "/s".into() };
    let args = rclone_args(&store, "b2:x");
    assert_eq!(args[..3], texts(&["bisync", "/s", "b2:x"])[..]);
    assert!(args.contains(&"- broker.sock".to_string()));
    assert!(args.contains(&"- .versions/**".to_string()));
    assert_eq!(args.last().unwrap(), "--resync-mode=newer");
    assert!(sync_via_rclone(Some(true)).is_ok());
    assert_eq!(
        words(sync_via_rclone(Some(false))),
        "rclone bisync failed, try once with --resync"
    );
    assert_eq!(
        words(sync_via_rclone(None)),
        "rclone is not on PATH, install it or point PASSBOX_REMOTE at a directory"
    );
}

// Fields

#[test]
fn the_first_line_is_the_password() {
    let f = fields("s3cret\nusername: bot\nhost: example.com");
    assert_eq!(f.get("password").unwrap(), "s3cret");
    assert_eq!(f.get("username").unwrap(), "bot");
    assert_eq!(f.get("host").unwrap(), "example.com");
}

#[test]
fn a_later_line_never_replaces_the_password() {
    let f = fields("s3cret\npassword: other\nPassword: third\nuser: a\nuser: b");
    assert_eq!(f.get("password").unwrap(), "s3cret");
    assert_eq!(f.get("user").unwrap(), "b");
    let got = get("a", "s3cret\npassword: other".into(), Some("password"));
    assert_eq!(got.ok().unwrap(), "s3cret");
}

#[test]
fn a_value_holding_a_colon_survives() {
    let f = fields("pw\nurl: https://example.com:8443/x");
    assert_eq!(f.get("url").unwrap(), "https://example.com:8443/x");
}

#[test]
fn a_single_line_secret_has_only_a_password() {
    let f = fields("just-a-token");
    assert_eq!(f.get("password").unwrap(), "just-a-token");
    assert_eq!(f.len(), 1);
}

#[test]
fn fields_are_named_in_lower_case() {
    let f = fields("pw\nUser Name : Bot\nempty:\n: x\nno colon\n");
    assert_eq!(f.get("user name").unwrap(), "Bot");
    assert_eq!(fields("pw\nÄPFEL: 3").get("äpfel").unwrap(), "3");
    assert_eq!(f.len(), 2);
    assert_eq!(fields("").len(), 0);
    assert_eq!(get("a", "pw\nx: y".into(), Some("x")).ok().unwrap(), "y");
    assert_eq!(get("a", "pw\nx: y".into(), None).ok().unwrap(), "pw\nx: y");
    assert_eq!(
        get("a", "pw".into(), Some("x")).err().unwrap().message(),
        "a has no field x"
    );
}

// Commands

fn a_secret(mode: Mode) -> Secret {
    Secret {
        name: "n".into(),
        mode,
        window_secs: 60,
        lease_secs: 7,
        value: "old".into(),
        created: 5,
        updated: 5,
    }
}

#[test]
fn a_new_value_never_widens_access() {
    let old = || Some(("id".to_string(), a_secret(Mode::Never)));
    let fresh = || "fresh".to_string();
    let (id, s) = add("n", "new", None, None, old(), fresh(), 9).ok().unwrap();
    assert_eq!(id, "id");
    assert_eq!((s.mode, s.window_secs, s.lease_secs), (Mode::Never, 60, 7));
    assert_eq!((s.created, s.updated, s.value.as_str()), (5, 9, "new"));
    let open = Some(Mode::Open);
    let (id, s) = add("n", "new", open, Some(1), old(), fresh(), 9).ok().unwrap();
    assert_eq!(id, "id");
    assert_eq!((s.mode, s.window_secs), (Mode::Open, 1));
    let (id, s) = add("n", "new", None, None, None, fresh(), 9).ok().unwrap();
    assert_eq!(id, "fresh");
    assert_eq!(
        (s.mode, s.window_secs, s.lease_secs, s.created),
        (Mode::Window, 300, 0, 9)
    );
    let s = set_mode(a_secret(Mode::Window), Mode::Always, None, Some(86_400), 11);
    assert_eq!(
        (s.mode, s.window_secs, s.lease_secs, s.updated, s.created),
        (Mode::Always, 60, 86_400, 11, 5)
    );
    assert_eq!(stored_line("n", Mode::Never), "stored n as never");
}

#[test]
fn a_mode_is_read_back() {
    for mode in [Mode::Open, Mode::Window, Mode::Always, Mode::Never] {
        assert_eq!(Mode::from_str(&mode.to_text()).ok(), Some(mode));
    }
    assert_eq!(
        Mode::from_str("Open").err().unwrap().message(),
        "unknown mode Open, expected open, window, always or never"
    );
}

#[test]
fn a_namespace_can_be_given_a_mode() {
    assert_eq!(
        targets(&names(), "bean").ok().unwrap(),
        texts(&["bean/fred-api-key", "bean/hl-mainnet-pk"])
    );
    assert_eq!(
        targets(&names(), "nope").err().unwrap().message(),
        "no secret named nope"
    );
}

#[test]
fn what_an_agent_is_handed() {
    assert_eq!(agent(None), "passbox");
    assert_eq!(agent(Some("x".into())), "x");
    assert!(through_broker(false, true));
    assert!(!through_broker(true, true) && !through_broker(false, false));
    assert_eq!(
        read_secret_as("n", Some(a_secret(Mode::Never)), false).ok().unwrap(),
        "old"
    );
    assert_eq!(
        agent_read_secret("n", Some(a_secret(Mode::Never))).err().unwrap().message(),
        "n is marked never, refusing"
    );
    assert_eq!(
        agent_read_secret("n", Some(a_secret(Mode::Always))).ok().unwrap(),
        "old"
    );
    assert_eq!(
        agent_read_secret("n", None).err().unwrap().message(),
        "no secret named n"
    );
    let store = Store { dir: "/s".into() };
    assert_eq!(
        agent_list_names(&store, Some("a\nb"), vec![]).ok().unwrap(),
        texts(&["a", "b"])
    );
    assert_eq!(
        agent_list_names(&store, None, vec![Ok(a_secret(Mode::Open))]).ok().unwrap(),
        texts(&["n"])
    );
}

#[test]
fn commands_are_taken_apart() {
    assert_eq!(
        split_env("A=b=c").ok().unwrap(),
        ("A".to_string(), "b=c".to_string())
    );
    assert_eq!(
        split_env("A").err().unwrap().message(),
        "expected VAR=secret, got A"
    );
    assert_eq!(
        split_command(&texts(&["sh", "-c", "x"])).ok().unwrap(),
        ("sh".to_string(), texts(&["-c", "x"]))
    );
    assert_eq!(
        split_command(&vec![]).err().unwrap().message(),
        "no command to run"
    );
    assert_eq!((exit_code(Some(3)), exit_code(None)), (3, 1));
    assert!(matches!(run_child(None), Handover::Stdin));
    assert!(matches!(run_child(Some("V".into())), Handover::Variable(v) if v == "V"));
}

#[test]
fn sync_needs_a_way_in() {
    assert!(check_sync(true, true, false).is_ok());
    assert!(check_sync(false, false, false).is_ok());
    assert!(check_sync(false, true, true).is_ok());
    assert!(words(check_sync(false, true, false)).starts_with("sync is off."));
    assert_eq!(
        sync_line(
            Report {
                pushed: 2,
                pulled: 1
            },
            "/r"
        ),
        "2 sent, 1 received, /r"
    );
    assert!(may_have_pulled(Kind::Directory, 1) && !may_have_pulled(Kind::Directory, 0));
    assert!(may_have_pulled(Kind::Rclone, 0) && !may_have_pulled(Kind::Git, 5));
    assert_eq!(git_push(false).len(), 0);
    assert_eq!(
        git_push(true),
        vec![
            texts(&["add", "-A"]),
            texts(&["commit", "-m", "update"]),
            texts(&["push"])
        ]
    );
}

#[test]
fn questions_are_answered() {
    assert_eq!(read_way(" 1\n").ok(), Some(WayIn::Yubikey));
    assert_eq!(read_way("2").ok(), Some(WayIn::Passphrase));
    assert_eq!(
        read_way("3\n").err().unwrap().message(),
        "expected 1 or 2, got 3"
    );
    assert_eq!(read_destination("1").ok(), Some(Destination::ICloud));
    assert_eq!(read_destination("2").ok(), Some(Destination::Directory));
    assert_eq!(read_destination("3").ok(), Some(Destination::Git));
    assert_eq!(read_destination("4\n").ok(), Some(Destination::Rclone));
    assert_eq!(
        read_destination("").err().unwrap().message(),
        "expected 1 to 4, got "
    );
    assert!(changes_remote("Y\n") && !changes_remote("\n"));
    assert_eq!(prompt(" /d \n").ok().unwrap(), "/d");
    assert_eq!(prompt(" \n").err().unwrap().message(), "nothing given");
    assert!(accept_generate("yes").is_ok());
    assert_eq!(
        words(accept_generate("")),
        "run `age-plugin-yubikey --generate` when ready, then try again"
    );
    assert_eq!(first_recipient(&texts(&["a", "b"])).ok().unwrap(), "a");
    assert_eq!(
        first_recipient(&vec![]).err().unwrap().message(),
        "no YubiKey recipient found, is the token plugged in?"
    );
}

#[test]
fn passphrases_are_checked() {
    assert!(new_passphrase("twelve chars").is_ok());
    assert!(new_passphrase("zwölf Zeiche").is_ok());
    assert_eq!(
        words(new_passphrase("eleven char")),
        "use at least 12 characters, a copy of this leaves the Mac"
    );
    assert!(confirm_passphrase("a", "a").is_ok());
    assert_eq!(
        words(confirm_passphrase("a", "b")),
        "passphrases do not match"
    );
    assert_eq!(test_work_factor(true, Some("10".into())), Some(10));
    assert_eq!(test_work_factor(true, Some("+10".into())), Some(10));
    assert_eq!(test_work_factor(true, Some("256".into())), None);
    assert_eq!(test_work_factor(true, None), None);
    assert_eq!(test_work_factor(false, Some("10".into())), None);
    assert!(work_factor_fits(None) && work_factor_fits(Some(10)) && !work_factor_fits(Some(0)));
    assert!(work_factor_fits(Some(20)) && !work_factor_fits(Some(53)));
    assert_eq!(machine_add(None, true, true).ok(), Some(WayIn::Yubikey));
    assert_eq!(machine_add(None, true, false).ok(), Some(WayIn::Passphrase));
    assert_eq!(
        machine_add(Some("/w".into()), true, true).err().unwrap().message(),
        "this Mac is already bound, its wrap is /w"
    );
    assert!(init(true, true) && init(false, false) && !init(false, true));
    assert_eq!(typed_value("a".into(), "a").ok().unwrap(), "a");
    assert_eq!(
        typed_value("a".into(), "b").err().unwrap().message(),
        "values do not match"
    );
    assert_eq!(read_value("a\nb\n\n"), "a\nb");
}

#[test]
fn the_audit_log_is_read_from_its_end() {
    let text = "one\n\ntwo\n  \nthree\n";
    assert_eq!(audit(text, 2), texts(&["two", "three"]));
    assert_eq!(audit(text, 20), texts(&["one", "two", "three"]));
    assert_eq!(audit(text, 0), texts(&[]));
}

#[test]
fn a_listing_is_a_tree_only_for_people() {
    let n = texts(&["a/one", "b"]);
    assert_eq!(ls(&n, false), "a/one\nb\n");
    assert!(ls(&n, true).starts_with("passbox\n├── \x1b[1;34ma\x1b[0m\n"));
    assert_eq!(
        split_grant("tok\na\nb"),
        ("tok".to_string(), texts(&["a", "b"]))
    );
    assert_eq!(split_grant("tok"), ("tok".to_string(), vec![]));
}

// Numbers, order and ids

#[test]
fn numbers_are_written_and_read() {
    assert_eq!(to_decimal(0), "0");
    assert_eq!(to_decimal(u64::MAX), "18446744073709551615");
    assert_eq!(parse_up_to("18446744073709551615", u64::MAX), Some(u64::MAX));
    assert_eq!(parse_up_to("18446744073709551616", u64::MAX), None);
    assert_eq!(parse_up_to("+5", 9), Some(5));
    assert_eq!(parse_up_to("", 9), None);
    assert_eq!(parse_up_to("-1", 9), None);
    assert_eq!(to_signed_decimal(-2_147_483_648), "-2147483648");
}

#[test]
fn lists_are_sorted_and_joined() {
    let v = texts(&["b", "a", "b"]);
    assert_eq!(sort(&v), texts(&["a", "b", "b"]));
    assert_eq!(sort_dedup(&v), texts(&["a", "b"]));
    assert_eq!(join_texts(&v, ", "), "b, a, b");
}

#[test]
fn ids_say_nothing() {
    assert_eq!(id_of([0xab; 16]), "ab".repeat(16));
    let (a, b) = (new_id(), new_id());
    assert_eq!(a.len(), 32);
    assert!(a.chars().all(|c| c.is_ascii_hexdigit()));
    assert_ne!(a, b);
}

#[test]
fn machines_and_clocks() {
    assert_eq!(hostname(Some(b"mac\n".to_vec())), "mac");
    assert_eq!(hostname(Some(b" \n".to_vec())), "unknown");
    assert_eq!(hostname(Some(vec![0xff])), "unknown");
    assert_eq!(hostname(None), "unknown");
    assert_eq!((seconds(Some(7)), seconds(None)), (7, 0));
    assert!(now() > 1_600_000_000);
}

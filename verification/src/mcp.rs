//! An MCP server over stdio, exposing actions rather than values.
//!
//! A `get_secret` tool would be the obvious shape and the wrong one: an MCP result lands in the
//! model's context, where it is logged, cached and sent onward. These tools run the command for the
//! agent and hand back only its output, so the value never enters the transcript.

use crate::number::{signed_decimal, to_signed_decimal};
use crate::order::{join, join_texts};
use crate::outside::{
    as_text, json_array_at, json_at, json_get, json_get_array, json_get_string, json_quote,
    json_quoted, json_string_at, maybe, to_text,
};
use crate::problem::Problem;
use crate::text::{
    cat3, cat5, from_chars, matches_at, same, starts_with, texts, to_chars, trim, trimmed,
};
use vstd::prelude::*;
use vstd::string::*;

verus! {

/// The protocol that is spoken where the client asks for none.
pub const PROTOCOL: &'static str = "2025-06-18";

/// What stands in a transcript in place of a secret.
pub const MARKER: &'static str = "[redacted by passbox]";

// ---------------------------------------------------------------------------------------------
// Redaction

/// A text with every occurrence of a secret replaced, from the left.
pub open spec fn redacted(text: Seq<char>, secret: Seq<char>) -> Seq<char>
    decreases text.len(),
{
    if secret.len() == 0 || text.len() < secret.len() {
        text
    } else if starts_with(text, secret) {
        MARKER@ + redacted(text.skip(secret.len() as int), secret)
    } else {
        seq![text[0]] + redacted(text.skip(1), secret)
    }
}

/// A command that echoes its own secret would otherwise put it straight into the transcript.
pub fn redact(text: &str, secret: &str) -> (r: String)
    ensures
        r@ == redacted(text@, secret@),
{
    let t = to_chars(text);
    let s = to_chars(secret);
    let mut out = String::new();
    if s.len() == 0 {
        return text.to_string();
    }
    let mut i: usize = 0;
    assert(t@.skip(0) =~= t@);
    assert(out@ + redacted(t@.skip(0), s@) =~= redacted(t@, s@));
    while t.len() - i >= s.len()
        invariant
            i <= t@.len(),
            s@.len() > 0,
            t@ == text@,
            s@ == secret@,
            out@ + redacted(t@.skip(i as int), s@) == redacted(t@, s@),
        decreases t@.len() - i,
    {
        let ghost rest = t@.skip(i as int);
        let ghost before = out@;
        if matches_at(&t, i, &s) {
            out.append(MARKER);
            proof {
                assert(rest.skip(s@.len() as int) =~= t@.skip(i + s@.len()));
                assert(out@ + redacted(t@.skip(i + s@.len()), s@) =~= before + (MARKER@ + redacted(
                    t@.skip(i + s@.len()),
                    s@,
                )));
            }
            i = i + s.len();
        } else {
            out.push(t[i]);
            proof {
                assert(rest.skip(1) =~= t@.skip(i + 1));
                assert(rest[0] == t@[i as int]);
                assert(out@ + redacted(t@.skip(i + 1), s@) =~= before + (seq![rest[0]] + redacted(
                    t@.skip(i + 1),
                    s@,
                )));
            }
            i = i + 1;
        }
    }
    let tail = from_chars(&t, i, t.len());
    assert(tail@ =~= t@.skip(i as int));
    out.append(tail.as_str());
    out
}

/// The secret stands in the text at this place.
pub open spec fn occurs_at(text: Seq<char>, secret: Seq<char>, i: int) -> bool {
    0 <= i && i + secret.len() <= text.len() && text.subrange(i, i + secret.len()) == secret
}

/// The secret and what replaces it have no piece in common that could make a whole again: neither
/// holds the other, and neither ends as the other begins.
pub open spec fn apart(secret: Seq<char>, marker: Seq<char>) -> bool {
    &&& forall|i: int| !(#[trigger] occurs_at(marker, secret, i))
    &&& forall|i: int| !(#[trigger] occurs_at(secret, marker, i))
    &&& forall|k: int|
        0 < k < secret.len() && k <= marker.len() ==> #[trigger] secret.take(k) != marker.skip(
            marker.len() - k,
        )
    &&& forall|k: int|
        0 < k < secret.len() && k <= marker.len() ==> #[trigger] marker.take(k) != secret.skip(
            secret.len() - k,
        )
}

/// As long as no secret begins, redaction copies.
proof fn lemma_copied(text: Seq<char>, secret: Seq<char>, j: int)
    requires
        secret.len() > 0,
        0 <= j <= text.len(),
        forall|i: int| 0 <= i < j ==> !(#[trigger] occurs_at(text, secret, i)),
    ensures
        redacted(text, secret) == text.take(j) + redacted(text.skip(j), secret),
    decreases j,
{
    if j == 0 {
        assert(text.skip(0) =~= text);
        assert(text.take(0) + redacted(text, secret) =~= redacted(text, secret));
    } else if text.len() < secret.len() {
        assert(text =~= text.take(j) + text.skip(j));
    } else {
        assert(!occurs_at(text, secret, 0));
        let rest = text.skip(1);
        assert forall|i: int| 0 <= i < j - 1 implies !(#[trigger] occurs_at(rest, secret, i)) by {
            assert(!occurs_at(text, secret, i + 1));
            if occurs_at(rest, secret, i) {
                assert(text.subrange(i + 1, i + 1 + secret.len()) =~= rest.subrange(
                    i,
                    i + secret.len(),
                ));
            }
        }
        lemma_copied(rest, secret, j - 1);
        assert(rest.skip(j - 1) =~= text.skip(j));
        assert(seq![text[0]] + (rest.take(j - 1) + redacted(text.skip(j), secret)) =~= text.take(j)
            + redacted(text.skip(j), secret));
    }
}

/// The first place from `j` on where the secret stands, or the length of the text.
proof fn lemma_first(text: Seq<char>, secret: Seq<char>, j: int) -> (m: int)
    requires
        secret.len() > 0,
        0 <= j <= text.len(),
        forall|i: int| 0 <= i < j ==> !(#[trigger] occurs_at(text, secret, i)),
    ensures
        j <= m <= text.len(),
        forall|i: int| 0 <= i < m ==> !(#[trigger] occurs_at(text, secret, i)),
        m < text.len() ==> occurs_at(text, secret, m),
    decreases text.len() - j,
{
    if j == text.len() || occurs_at(text, secret, j) {
        j
    } else {
        lemma_first(text, secret, j + 1)
    }
}

/// What a command printed holds its secret nowhere once it was redacted, as long as the secret and
/// what replaces it have nothing in common that could make it whole again.
pub proof fn a_redacted_text_holds_no_secret(text: Seq<char>, secret: Seq<char>, at: int)
    requires
        secret.len() > 0,
        apart(secret, MARKER@),
    ensures
        !occurs_at(redacted(text, secret), secret, at),
    decreases text.len(),
{
    let out = redacted(text, secret);
    let n = secret.len() as int;
    let mark = MARKER@;
    if text.len() < secret.len() {
    } else if starts_with(text, secret) {
        let rest = redacted(text.skip(n), secret);
        if occurs_at(out, secret, at) {
            if at >= mark.len() {
                a_redacted_text_holds_no_secret(text.skip(n), secret, at - mark.len());
                assert(rest.subrange(at - mark.len(), at - mark.len() + n) =~= out.subrange(
                    at,
                    at + n,
                ));
            } else if at + n <= mark.len() {
                assert(mark.subrange(at, at + n) =~= out.subrange(at, at + n));
                assert(occurs_at(mark, secret, at));
            } else {
                let k = mark.len() - at;
                assert(secret.take(k) =~= mark.skip(mark.len() - k)) by {
                    assert forall|i: int| 0 <= i < k implies secret[i] == mark[at + i] by {
                        assert(out.subrange(at, at + n)[i] == out[at + i]);
                    }
                }
            }
        }
    } else {
        let rest = redacted(text.skip(1), secret);
        if occurs_at(out, secret, at) {
            if at >= 1 {
                a_redacted_text_holds_no_secret(text.skip(1), secret, at - 1);
                assert(rest.subrange(at - 1, at - 1 + n) =~= out.subrange(at, at + n));
            } else {
                lemma_front(text, secret);
            }
        }
    }
}

/// A redacted text that did not begin with the secret does not begin with it afterwards.
proof fn lemma_front(text: Seq<char>, secret: Seq<char>)
    requires
        secret.len() > 0,
        apart(secret, MARKER@),
        text.len() >= secret.len(),
        !starts_with(text, secret),
    ensures
        !occurs_at(redacted(text, secret), secret, 0),
{
    let out = redacted(text, secret);
    let n = secret.len() as int;
    let mark = MARKER@;
    assert(!occurs_at(text, secret, 0));
    assert forall|i: int| 0 <= i < 1 implies !(#[trigger] occurs_at(text, secret, i)) by {}
    let m = lemma_first(text, secret, 1);
    lemma_copied(text, secret, m);
    let rest = redacted(text.skip(m), secret);
    if occurs_at(out, secret, 0) {
        assert(out.subrange(0, n) == secret);
        if m >= n {
            assert(text.subrange(0, n) =~= out.subrange(0, n));
        } else {
            assert(m < text.len());
            assert(starts_with(text.skip(m), secret)) by {
                assert(text.skip(m).subrange(0, n) =~= text.subrange(m, m + n));
            }
            let tail = redacted(text.skip(m).skip(n), secret);
            assert(rest == mark + tail);
            let k = n - m;
            if k <= mark.len() {
                assert(mark.take(k) =~= secret.skip(n - k)) by {
                    assert forall|i: int| 0 <= i < k implies mark[i] == secret[m + i] by {
                        assert(out.subrange(0, n)[m + i] == out[m + i]);
                        assert(out[m + i] == rest[i]);
                    }
                }
            } else {
                assert(occurs_at(secret, mark, m)) by {
                    assert forall|i: int| 0 <= i < mark.len() implies mark[i] == secret[m + i] by {
                        assert(out.subrange(0, n)[m + i] == out[m + i]);
                        assert(out[m + i] == rest[i]);
                    }
                    assert(secret.subrange(m, m + mark.len()) =~= mark);
                }
            }
        }
    }
}

/// What stands between the occurrences of a secret, counted from the left.
pub open spec fn pieces(text: Seq<char>, secret: Seq<char>) -> Seq<Seq<char>>
    decreases text.len(),
{
    if secret.len() == 0 || text.len() < secret.len() {
        seq![text]
    } else if starts_with(text, secret) {
        seq![Seq::<char>::empty()] + pieces(text.skip(secret.len() as int), secret)
    } else {
        let rest = pieces(text.skip(1), secret);
        seq![seq![text[0]] + rest[0]] + rest.drop_first()
    }
}

/// Redaction replaces every occurrence and nothing else, whatever the secret: the text is what
/// stands between with the secret in the gaps, the redacted text is the same with the marker in
/// them, and no piece that stands between holds the secret.
pub proof fn redaction_replaces_every_occurrence(text: Seq<char>, secret: Seq<char>)
    requires
        secret.len() > 0,
    ensures
        pieces(text, secret).len() > 0,
        join(pieces(text, secret), secret) == text,
        join(pieces(text, secret), MARKER@) == redacted(text, secret),
        forall|k: int, i: int|
            0 <= k < pieces(text, secret).len() ==> !(#[trigger] occurs_at(
                pieces(text, secret)[k],
                secret,
                i,
            )),
        pieces(text, secret)[0].len() <= text.len(),
        pieces(text, secret)[0] == text.take(pieces(text, secret)[0].len() as int),
    decreases text.len(),
{
    let p = pieces(text, secret);
    if text.len() < secret.len() {
        assert(p[0] =~= text.take(text.len() as int));
    } else if starts_with(text, secret) {
        let rest = text.skip(secret.len() as int);
        let q = pieces(rest, secret);
        redaction_replaces_every_occurrence(rest, secret);
        assert(p.drop_first() =~= q);
        crate::order::lemma_join_first(p, secret);
        crate::order::lemma_join_first(p, MARKER@);
        assert(join(p, secret) =~= text) by {
            assert(text =~= secret + rest);
        }
        assert(join(p, MARKER@) =~= redacted(text, secret));
        assert forall|k: int, i: int| 0 <= k < p.len() implies !(#[trigger] occurs_at(
            p[k],
            secret,
            i,
        )) by {
            if k > 0 {
                assert(p[k] == q[k - 1]);
            }
        }
        assert(p[0] =~= text.take(0));
    } else {
        let rest = text.skip(1);
        let q = pieces(rest, secret);
        redaction_replaces_every_occurrence(rest, secret);
        let first = seq![text[0]] + q[0];
        assert(p[0] == first);
        assert(p.drop_first() =~= q.drop_first());
        lemma_join_front(p, q, text[0], secret);
        lemma_join_front(p, q, text[0], MARKER@);
        assert(seq![text[0]] + rest =~= text);
        assert(first =~= text.take(first.len() as int));
        assert forall|k: int, i: int| 0 <= k < p.len() implies !(#[trigger] occurs_at(
            p[k],
            secret,
            i,
        )) by {
            if k > 0 {
                assert(p[k] == q[k]);
            } else if occurs_at(first, secret, i) {
                if i == 0 {
                    assert(text.subrange(0, secret.len() as int) =~= first.subrange(
                        0,
                        secret.len() as int,
                    ));
                } else {
                    assert(q[0].subrange(i - 1, i - 1 + secret.len()) =~= first.subrange(
                        i,
                        i + secret.len(),
                    ));
                    assert(occurs_at(q[0], secret, i - 1));
                }
            }
        }
    }
}

proof fn lemma_join_front(p: Seq<Seq<char>>, q: Seq<Seq<char>>, c: char, sep: Seq<char>)
    requires
        q.len() > 0,
        p == seq![seq![c] + q[0]] + q.drop_first(),
    ensures
        join(p, sep) == seq![c] + join(q, sep),
{
    if q.len() == 1 {
        assert(p =~= seq![seq![c] + q[0]]);
    } else {
        crate::order::lemma_join_first(p, sep);
        crate::order::lemma_join_first(q, sep);
        assert(p.drop_first() =~= q.drop_first());
        assert(join(p, sep) =~= seq![c] + join(q, sep));
    }
}

// ---------------------------------------------------------------------------------------------
// The protocol

/// What the server offers: no tool reads a value.
pub const TOOLS: &'static str = "{\"tools\":[{\"description\":\"List the names of available secrets. Raises a Touch ID prompt unless one was already approved inside the window. Returns names only.\",\"inputSchema\":{\"properties\":{},\"type\":\"object\"},\"name\":\"list_secrets\"},{\"description\":\"Run a command with a secret injected, and return only the command's output. The secret value is never returned. Use this instead of asking for a password: put the command that needs it here.\",\"inputSchema\":{\"properties\":{\"command\":{\"description\":\"Command and arguments, for example [\\\"gh\\\", \\\"api\\\", \\\"/user\\\"]\",\"items\":{\"type\":\"string\"},\"type\":\"array\"},\"env_var\":{\"description\":\"Environment variable to hold the secret in the child. Omitted means the secret is piped to the child on stdin.\",\"type\":\"string\"},\"secret\":{\"description\":\"Name of the secret, as shown by list_secrets\",\"type\":\"string\"}},\"required\":[\"secret\",\"command\"],\"type\":\"object\"},\"name\":\"run_with_secret\"}]}";

/// What the server offers.
pub fn tools() -> (r: String)
    ensures
        r@ == TOOLS@,
{
    TOOLS.to_string()
}

/// The answer to a handshake, which echoes the version the client asked for.
pub open spec fn handshake(asked: Option<Seq<char>>, version: Seq<char>) -> Seq<char> {
    let protocol = match asked {
        Some(v) => v,
        None => PROTOCOL@,
    };
    "{\"capabilities\":{\"tools\":{}},\"protocolVersion\":"@ + json_quoted(protocol)
        + ",\"serverInfo\":{\"name\":\"passbox\",\"version\":"@ + json_quoted(version) + "}}"@
}

/// The answer to a handshake with these parameters, by a server of this version.
pub fn initialize(params: &str, version: &str) -> (r: String)
    ensures
        r@ == handshake(json_string_at(params@, "/protocolVersion"@), version@),
{
    let protocol = match json_get_string(params, "/protocolVersion") {
        Some(v) => v,
        None => PROTOCOL.to_string(),
    };
    handshake_text(protocol.as_str(), version)
}

/// The result of a tool. A failure is reported in it, so the model can read it and adjust.
pub open spec fn tool_result(text: Seq<char>, failed: bool) -> Seq<char> {
    "{\"content\":[{\"text\":"@ + json_quoted(text) + (if failed {
        ",\"type\":\"text\"}],\"isError\":true}"@
    } else {
        ",\"type\":\"text\"}]}"@
    })
}

/// The result of a tool.
pub fn call_result(outcome: Result<String, Problem>) -> (r: String)
    ensures
        r@ == match outcome {
            Ok(text) => tool_result(text@, false),
            Err(e) => tool_result(e.words(), true),
        },
{
    match outcome {
        Ok(text) => {
            let q = json_quote(text.as_str());
            cat3("{\"content\":[{\"text\":", q.as_str(), ",\"type\":\"text\"}]}")
        },
        Err(e) => {
            let q = json_quote(e.message().as_str());
            cat3(
                "{\"content\":[{\"text\":",
                q.as_str(),
                ",\"type\":\"text\"}],\"isError\":true}",
            )
        },
    }
}

/// A reply to the message with this id. A message with no id is a notification, which takes none.
pub open spec fn reply_text(id: Seq<char>, result: Seq<char>) -> Seq<char> {
    "{\"id\":"@ + id + ",\"jsonrpc\":\"2.0\",\"result\":"@ + result + "}"@
}

/// A reply to the message with this id, if it had one.
pub fn reply(id: &Option<String>, result: &str) -> (r: Option<String>)
    ensures
        match r {
            Some(text) => id matches Some(i) && text@ == reply_text(i@, result@),
            None => id is None,
        },
{
    match id {
        Some(i) => Some(
            cat5("{\"id\":", i.as_str(), ",\"jsonrpc\":\"2.0\",\"result\":", result, "}"),
        ),
        None => None,
    }
}

/// What is shown of some names.
pub open spec fn names_shown(names: Seq<Seq<char>>, r: Seq<char>) -> bool {
    r == if names.len() == 0 {
        "no secrets yet"@
    } else {
        join(names, "\n"@)
    }
}

/// The names that the agent is shown.
pub fn list_secrets(names: &Vec<String>) -> (r: String)
    ensures
        names_shown(texts(names@), r@),
{
    if names.len() == 0 {
        return "no secrets yet".to_string();
    }
    join_texts(names, "\n")
}

/// What a tool call comes to.
pub enum Call {
    /// List the names
    List,
    /// Run a command with a secret
    Run { secret: String, command: Vec<String>, env_var: Option<String> },
    /// There is nothing to run
    Said(String),
    /// The call is refused
    Refused(Problem),
}

/// The strings of an array, without what is none.
pub open spec fn strings(items: Seq<Option<Seq<char>>>) -> Seq<Seq<char>>
    decreases items.len(),
{
    if items.len() == 0 {
        Seq::empty()
    } else {
        match items.last() {
            Some(s) => strings(items.drop_last()).push(s),
            None => strings(items.drop_last()),
        }
    }
}

fn keep_strings(items: &Vec<Option<String>>) -> (r: Vec<String>)
    ensures
        texts(r@) == strings(items@.map_values(|o: Option<String>| maybe(o))),
{
    let ghost all = items@.map_values(|o: Option<String>| maybe(o));
    let mut out: Vec<String> = Vec::new();
    let mut i: usize = 0;
    assert(texts(out@) =~= strings(all.take(0)));
    while i < items.len()
        invariant
            i <= items@.len(),
            all == items@.map_values(|o: Option<String>| maybe(o)),
            texts(out@) == strings(all.take(i as int)),
        decreases items@.len() - i,
    {
        let ghost before = texts(out@);
        proof {
            assert(all.take(i + 1).drop_last() =~= all.take(i as int));
            assert(all.take(i + 1).last() == maybe(items@[i as int]));
        }
        if let Some(s) = &items[i] {
            out.push(s.clone());
            assert(texts(out@) =~= before.push(s@));
        }
        i = i + 1;
    }
    assert(all.take(i as int) =~= all);
    out
}

/// The array there may be, of the strings there may be.
pub open spec fn maybe_all(o: Option<Vec<Option<String>>>) -> Option<Seq<Option<Seq<char>>>> {
    match o {
        Some(v) => Some(v@.map_values(|o: Option<String>| maybe(o))),
        None => None,
    }
}

/// What a tool call comes to: the tool it names, and for a command the secret, the strings of the
/// command, and the variable to hold the secret.
pub open spec fn call_is(
    tool: Option<Seq<char>>,
    secret: Option<Seq<char>>,
    command: Option<Seq<Option<Seq<char>>>>,
    env_var: Option<Seq<char>>,
    call: Call,
) -> bool {
    let name = match tool {
        Some(n) => n,
        None => Seq::empty(),
    };
    if name == "list_secrets"@ {
        call is List
    } else if name == "run_with_secret"@ {
        match secret {
            None => call == Call::Refused(Problem::SecretRequired),
            Some(secret) => match command {
                None => call == Call::Refused(Problem::CommandRequired),
                Some(items) => if strings(items).len() == 0 {
                    call matches Call::Said(text) && text@ == "command was empty"@
                } else {
                    call matches Call::Run { secret: s, command: c, env_var: v } && s@ == secret
                        && texts(c@) == strings(items) && maybe(v) == env_var
                },
            },
        }
    } else {
        call matches Call::Refused(Problem::NoTool(n)) && n@ == name
    }
}

/// What a tool call comes to, by what stands in its message.
pub fn choose_call(
    tool: Option<String>,
    secret: Option<String>,
    command: Option<Vec<Option<String>>>,
    env_var: Option<String>,
) -> (r: Call)
    ensures
        call_is(maybe(tool), maybe(secret), maybe_all(command), maybe(env_var), r),
{
    let name = match tool {
        Some(n) => n,
        None => {
            let n = String::new();
            assert(n@ =~= Seq::<char>::empty());
            n
        },
    };
    if same(name.as_str(), "list_secrets") {
        return Call::List;
    }
    if !same(name.as_str(), "run_with_secret") {
        return Call::Refused(Problem::NoTool(name));
    }
    let secret = match secret {
        Some(s) => s,
        None => {
            return Call::Refused(Problem::SecretRequired);
        },
    };
    let items = match command {
        Some(v) => v,
        None => {
            return Call::Refused(Problem::CommandRequired);
        },
    };
    let command = keep_strings(&items);
    assert(texts(command@).len() == command@.len());
    if command.len() == 0 {
        return Call::Said("command was empty".to_string());
    }
    Call::Run { secret, command, env_var }
}

/// What a tool call asks for, by the message it came in.
pub open spec fn call_of(message: Seq<char>, call: Call) -> bool {
    call_is(
        json_string_at(message, "/params/name"@),
        json_string_at(message, "/params/arguments/secret"@),
        json_array_at(message, "/params/arguments/command"@),
        json_string_at(message, "/params/arguments/env_var"@),
        call,
    )
}

/// What a tool call asks for.
pub fn call(message: &str) -> (r: Call)
    ensures
        call_of(message@, r),
{
    choose_call(
        json_get_string(message, "/params/name"),
        json_get_string(message, "/params/arguments/secret"),
        json_get_array(message, "/params/arguments/command"),
        json_get_string(message, "/params/arguments/env_var"),
    )
}

/// What an agent is shown of a command: its output, its complaints, how it ended where it failed,
/// and its secret nowhere.
pub open spec fn shown(
    stdout: Seq<char>,
    stderr: Seq<char>,
    success: bool,
    code: Option<i32>,
    secret: Seq<char>,
) -> Seq<char> {
    let said = stdout + (if trim(stderr).len() > 0 {
        "\nstderr:\n"@ + stderr
    } else {
        Seq::empty()
    });
    let ended = match code {
        Some(c) => c as int,
        None => 1,
    };
    redacted(
        said + (if success {
            Seq::empty()
        } else {
            "\nexit: "@ + signed_decimal(ended)
        }),
        secret,
    )
}

/// What an agent is shown of what a command said.
pub fn show_output(
    stdout: &str,
    stderr: &str,
    success: bool,
    code: Option<i32>,
    secret: &str,
) -> (r: String)
    ensures
        r@ == shown(stdout@, stderr@, success, code, secret@),
{
    let mut text = stdout.to_string();
    if to_chars(trimmed(stderr).as_str()).len() > 0 {
        text.append("\nstderr:\n");
        text.append(stderr);
    }
    let ghost said = stdout@ + (if trim(stderr@).len() > 0 {
        "\nstderr:\n"@ + stderr@
    } else {
        Seq::empty()
    });
    assert(text@ =~= said);
    if !success {
        let ended: i32 = match code {
            Some(c) => c,
            None => 1,
        };
        text.append("\nexit: ");
        text.append(to_signed_decimal(ended).as_str());
        assert(text@ =~= said + ("\nexit: "@ + signed_decimal(ended as int)));
    } else {
        assert(text@ =~= said + Seq::<char>::empty());
    }
    redact(text.as_str(), secret)
}

/// What an agent is shown of a command that ran with a secret.
pub fn run_with_secret(
    stdout: &[u8],
    stderr: &[u8],
    success: bool,
    code: Option<i32>,
    secret: &str,
) -> (r: String)
    ensures
        r@ == shown(as_text(stdout@), as_text(stderr@), success, code, secret@),
{
    let out = to_text(stdout);
    let complaint = to_text(stderr);
    show_output(out.as_str(), complaint.as_str(), success, code, secret)
}

/// What a line from the client comes to.
pub enum Turn {
    /// Nothing
    Quiet,
    /// A result that stands already, for the message with this id
    Result { id: Option<String>, result: String },
    /// A tool call, made by the message with this id
    Call { id: Option<String>, call: Call },
}

/// What the server knows of its client.
pub struct Session {
    pub agent: String,
}

/// What a message comes to: a handshake, the tools, a call of one, or a sign of life. A message
/// that asks for anything else, or for nothing, comes to nothing.
pub open spec fn turn_is(
    id: Option<Seq<char>>,
    method: Option<Seq<char>>,
    protocol: Option<Seq<char>>,
    call: Call,
    version: Seq<char>,
    turn: Turn,
) -> bool {
    match method {
        None => turn is Quiet,
        Some(method) => if method == "initialize"@ {
            turn matches Turn::Result { id: i, result } && maybe(i) == id && result@ == handshake(
                protocol,
                version,
            )
        } else if method == "tools/list"@ {
            turn matches Turn::Result { id: i, result } && maybe(i) == id && result@ == TOOLS@
        } else if method == "tools/call"@ {
            turn matches Turn::Call { id: i, call: c } && maybe(i) == id && c == call
        } else if method == "ping"@ {
            turn matches Turn::Result { id: i, result } && maybe(i) == id && result@ == "{}"@
        } else {
            turn is Quiet
        },
    }
}

/// Who the client is after a message: in a handshake it names itself, which beats guessing up the
/// process tree.
pub open spec fn agent_after(
    agent: Seq<char>,
    method: Option<Seq<char>>,
    client: Option<Seq<char>>,
) -> Seq<char> {
    if method == Some("initialize"@) && client is Some && client->0.len() > 0 {
        client->0
    } else {
        agent
    }
}

/// What a line from the client comes to.
pub open spec fn turn_of(line: Seq<char>, version: Seq<char>, turn: Turn) -> bool {
    if trim(line).len() == 0 || json_at(line, ""@) is None {
        turn is Quiet
    } else {
        exists|call: Call| #[trigger]
            call_of(line, call) && turn_is(
                json_at(line, "/id"@),
                json_string_at(line, "/method"@),
                json_string_at(line, "/params/protocolVersion"@),
                call,
                version,
                turn,
            )
    }
}

impl Session {
    /// A client that has not named itself.
    pub fn new() -> (r: Session)
        ensures
            r.agent@ == "mcp"@,
    {
        Session { agent: "mcp".to_string() }
    }

    /// Take a message, by what stands in it.
    pub fn take(
        &mut self,
        id: Option<String>,
        method: Option<String>,
        protocol: Option<String>,
        client: Option<String>,
        call: Call,
        version: &str,
    ) -> (r: Turn)
        ensures
            turn_is(maybe(id), maybe(method), maybe(protocol), call, version@, r),
            final(self).agent@ == agent_after(old(self).agent@, maybe(method), maybe(client)),
    {
        let method = match method {
            Some(m) => m,
            None => {
                return Turn::Quiet;
            },
        };
        if same(method.as_str(), "initialize") {
            if let Some(name) = client {
                if to_chars(name.as_str()).len() > 0 {
                    self.agent = name;
                }
            }
            let protocol = match protocol {
                Some(v) => v,
                None => PROTOCOL.to_string(),
            };
            let result = handshake_text(protocol.as_str(), version);
            return Turn::Result { id, result };
        }
        if same(method.as_str(), "tools/list") {
            return Turn::Result { id, result: tools() };
        }
        if same(method.as_str(), "tools/call") {
            return Turn::Call { id, call };
        }
        if same(method.as_str(), "ping") {
            return Turn::Result { id, result: "{}".to_string() };
        }
        Turn::Quiet
    }

    /// Take a line from the client.
    pub fn serve(&mut self, line: &str, version: &str) -> (r: Turn)
        ensures
            turn_of(line@, version@, r),
            final(self).agent@ == if trim(line@).len() > 0 && json_at(line@, ""@) is Some {
                agent_after(
                    old(self).agent@,
                    json_string_at(line@, "/method"@),
                    json_string_at(line@, "/params/clientInfo/name"@),
                )
            } else {
                old(self).agent@
            },
    {
        if to_chars(trimmed(line).as_str()).len() == 0 {
            return Turn::Quiet;
        }
        if json_get(line, "").is_none() {
            return Turn::Quiet;
        }
        let asked = call(line);
        self.take(
            json_get(line, "/id"),
            json_get_string(line, "/method"),
            json_get_string(line, "/params/protocolVersion"),
            json_get_string(line, "/params/clientInfo/name"),
            asked,
            version,
        )
    }
}

fn handshake_text(protocol: &str, version: &str) -> (r: String)
    ensures
        r@ == handshake(Some(protocol@), version@),
{
    let quoted = json_quote(protocol);
    let this = json_quote(version);
    cat5(
        "{\"capabilities\":{\"tools\":{}},\"protocolVersion\":",
        quoted.as_str(),
        ",\"serverInfo\":{\"name\":\"passbox\",\"version\":",
        this.as_str(),
        "}}",
    )
}

// ---------------------------------------------------------------------------------------------
// What reaches the agent

/// Both what a command printed and what it complained of reach the agent, whether it succeeded or
/// not: what is shown is the redaction of a text that begins with the whole output and, where the
/// complaints are more than white space, holds them whole right after the word that says so.
pub proof fn output_and_complaints_reach_the_agent(
    stdout: Seq<char>,
    stderr: Seq<char>,
    success: bool,
    code: Option<i32>,
    secret: Seq<char>,
)
    ensures
        exists|text: Seq<char>, ending: Seq<char>|
            shown(stdout, stderr, success, code, secret) == redacted(text, secret)
                && #[trigger] text_with(text, stdout, stderr, ending) && (success ==> ending.len() == 0),
{
    let ending = if success {
        Seq::<char>::empty()
    } else {
        "\nexit: "@ + signed_decimal(
            match code {
                Some(c) => c as int,
                None => 1,
            },
        )
    };
    crate::text::a_blank_text_is_all_white_space(stderr);
    let text = if blank(stderr) {
        stdout + ending
    } else {
        stdout + "\nstderr:\n"@ + stderr + ending
    };
    let said = stdout + (if trim(stderr).len() > 0 {
        "\nstderr:\n"@ + stderr
    } else {
        Seq::empty()
    });
    assert(said + ending =~= text);
    assert(text_with(text, stdout, stderr, ending));
}

/// All of it is white space.
pub open spec fn blank(s: Seq<char>) -> bool {
    forall|k: int| 0 <= k < s.len() ==> crate::text::space(#[trigger] s[k])
}

/// The text is the output, then the complaints where there are any, then this ending.
pub open spec fn text_with(
    text: Seq<char>,
    stdout: Seq<char>,
    stderr: Seq<char>,
    ending: Seq<char>,
) -> bool {
    text == if blank(stderr) {
        stdout + ending
    } else {
        stdout + "\nstderr:\n"@ + stderr + ending
    }
}

/// How a command ended is said where it failed, and only there: with its code, and with one where
/// something killed it. Nothing else about what is shown depends on it.
pub proof fn a_failure_adds_its_code(
    stdout: Seq<char>,
    stderr: Seq<char>,
    code: i32,
    any: Option<i32>,
    secret: Seq<char>,
    said: Seq<char>,
)
    requires
        text_with(said, stdout, stderr, Seq::empty()),
    ensures
        shown(stdout, stderr, true, any, secret) == redacted(said, secret),
        shown(stdout, stderr, false, Some(code), secret) == redacted(
            said + "\nexit: "@ + signed_decimal(code as int),
            secret,
        ),
        shown(stdout, stderr, false, None, secret) == redacted(
            said + "\nexit: "@ + signed_decimal(1),
            secret,
        ),
{
    crate::text::a_blank_text_is_all_white_space(stderr);
    let all = stdout + (if trim(stderr).len() > 0 {
        "\nstderr:\n"@ + stderr
    } else {
        Seq::empty()
    });
    assert(said =~= all);
    assert(all + Seq::<char>::empty() =~= said);
    assert(all + ("\nexit: "@ + signed_decimal(code as int)) =~= said + "\nexit: "@ + signed_decimal(
        code as int,
    ));
    assert(all + ("\nexit: "@ + signed_decimal(1)) =~= said + "\nexit: "@ + signed_decimal(1));
}

/// A text that does not hold the secret is shown as it is, and so is any where there is no secret.
pub proof fn what_holds_no_secret_is_shown_as_it_is(text: Seq<char>, secret: Seq<char>)
    requires
        secret.len() == 0 || forall|i: int| !(#[trigger] occurs_at(text, secret, i)),
    ensures
        redacted(text, secret) == text,
    decreases text.len(),
{
    if secret.len() > 0 && text.len() >= secret.len() {
        assert(!occurs_at(text, secret, 0));
        let rest = text.skip(1);
        assert forall|i: int| !(#[trigger] occurs_at(rest, secret, i)) by {
            if occurs_at(rest, secret, i) {
                assert(text.subrange(i + 1, i + 1 + secret.len()) =~= rest.subrange(
                    i,
                    i + secret.len(),
                ));
                assert(occurs_at(text, secret, i + 1));
            }
        }
        what_holds_no_secret_is_shown_as_it_is(rest, secret);
        assert(seq![text[0]] + rest =~= text);
    }
}

/// An argument of a command reaches it as it was given, in its place, the empty one too: only what is
/// no text is left out.
pub proof fn every_argument_counts(items: Seq<Option<Seq<char>>>, s: Seq<char>)
    ensures
        strings(Seq::empty()) == Seq::<Seq<char>>::empty(),
        strings(items.push(Some(s))) == strings(items).push(s),
        strings(items.push(None)) == strings(items),
{
    assert(items.push(Some(s)).drop_last() =~= items);
    assert(items.push(None::<Seq<char>>).drop_last() =~= items);
}

/// There are two tools and neither reads a value: a call lists the names, or runs the command that it
/// gives with the secret that it names, in the variable that it names or else piped. A call of
/// another tool, and one that does not say what to run or with what, is refused and runs nothing.
pub proof fn a_call_runs_what_it_says(
    tool: Option<Seq<char>>,
    secret: Option<Seq<char>>,
    command: Option<Seq<Option<Seq<char>>>>,
    env_var: Option<Seq<char>>,
    call: Call,
)
    requires
        call_is(tool, secret, command, env_var, call),
    ensures
        call is List <==> tool == Some("list_secrets"@),
        call is Run <==> tool == Some("run_with_secret"@) && secret is Some && command is Some
            && strings(command->0).len() > 0,
        call matches Call::Run { secret: s, command: c, env_var: v } ==> Some(s@) == secret
            && command is Some && texts(c@) == strings(command->0) && maybe(v) == env_var,
        call is Said <==> tool == Some("run_with_secret"@) && secret is Some && command is Some
            && strings(command->0).len() == 0,
        tool == Some("run_with_secret"@) && secret is None ==> call == Call::Refused(
            Problem::SecretRequired,
        ),
        tool == Some("run_with_secret"@) && secret is Some && command is None ==> call
            == Call::Refused(Problem::CommandRequired),
        call matches Call::Refused(Problem::NoTool(n)) ==> tool == Some(n@) || (tool is None && n@
            == Seq::<char>::empty()),
{
    reveal_strlit("list_secrets");
    reveal_strlit("run_with_secret");
    assert("list_secrets"@.len() != "run_with_secret"@.len());
}

/// Every message that asks for something it can have is answered under its own id, and a call is
/// passed on as it was made. Whatever else comes in is met with silence.
pub proof fn a_message_is_answered_under_its_id(
    id: Option<Seq<char>>,
    method: Option<Seq<char>>,
    protocol: Option<Seq<char>>,
    call: Call,
    version: Seq<char>,
    turn: Turn,
)
    requires
        turn_is(id, method, protocol, call, version, turn),
    ensures
        turn is Quiet <==> method is None || !(method->0 == "initialize"@ || method->0
            == "tools/list"@ || method->0 == "tools/call"@ || method->0 == "ping"@),
        turn matches Turn::Result { id: i, result: _ } ==> maybe(i) == id,
        turn matches Turn::Call { id: i, call: c } ==> maybe(i) == id && c == call,
        turn is Call <==> method == Some("tools/call"@),
        method == Some("initialize"@) ==> (turn matches Turn::Result { id: _, result } && result@
            == "{\"capabilities\":{\"tools\":{}},\"protocolVersion\":"@ + json_quoted(
            match protocol {
                Some(v) => v,
                None => "2025-06-18"@,
            },
        ) + ",\"serverInfo\":{\"name\":\"passbox\",\"version\":"@ + json_quoted(version) + "}}"@),
        method == Some("tools/list"@) ==> (turn matches Turn::Result { id: _, result } && result@
            == TOOLS@),
        method == Some("ping"@) ==> (turn matches Turn::Result { id: _, result } && result@
            == "{}"@),
{
    reveal_strlit("initialize");
    reveal_strlit("tools/list");
    reveal_strlit("tools/call");
    reveal_strlit("ping");
    assert("tools/list"@[6] == 'l');
    assert("tools/call"@[6] == 'c');
    assert("initialize"@[0] == 'i');
    assert("ping"@.len() == 4);
}

/// The agent in the prompts is who the client said it is in its handshake, for as long as it says
/// nothing else there. No other message renames it, and none takes its name away.
pub proof fn only_a_handshake_names_the_agent(
    agent: Seq<char>,
    method: Option<Seq<char>>,
    client: Seq<char>,
)
    ensures
        client.len() > 0 ==> agent_after(agent, Some("initialize"@), Some(client)) == client,
        method != Some("initialize"@) ==> agent_after(agent, method, Some(client)) == agent,
        agent_after(agent, method, None) == agent,
        agent_after(agent, method, Some(Seq::empty())) == agent,
{
}

/// A result holds the text of the tool, and says that it failed exactly where it did.
pub proof fn a_result_says_whether_it_failed(text: Seq<char>, id: Seq<char>, result: Seq<char>)
    ensures
        tool_result(text, false) == "{\"content\":[{\"text\":"@ + json_quoted(text)
            + ",\"type\":\"text\"}]}"@,
        tool_result(text, true) == "{\"content\":[{\"text\":"@ + json_quoted(text)
            + ",\"type\":\"text\"}],\"isError\":true}"@,
        reply_text(id, result) == "{\"id\":"@ + id + ",\"jsonrpc\":\"2.0\",\"result\":"@ + result
            + "}"@,
{
}

/// The agent is shown every name, one to a line, and a word where there are none.
pub proof fn every_name_is_shown(names: Seq<Seq<char>>, r: Seq<char>)
    requires
        names_shown(names, r),
        forall|i: int|
            0 <= i < names.len() ==> (#[trigger] names[i]).len() > 0 && !names[i].contains('\n') && (i
                < names.len() - 1 ==> names[i].last() != '\r'),
    ensures
        names.len() > 0 ==> crate::text::lines(r) == names,
        names.len() == 0 ==> r == "no secrets yet"@,
{
    crate::order::joined_lines_are_read_back(names);
}

/// A line that is a message is taken as one, however long it is: a call in it is passed on, a question
/// is answered, and only blank lines, what is no JSON and what asks for nothing known are passed over.
pub proof fn no_message_is_passed_over(line: Seq<char>, version: Seq<char>, turn: Turn)
    requires
        turn_of(line, version, turn),
    ensures
        ({
            let method = json_string_at(line, "/method"@);
            let message = !blank(line) && json_at(line, ""@) is Some;
            &&& turn is Call <==> message && method == Some("tools/call"@)
            &&& turn is Result <==> message && (method == Some("initialize"@) || method == Some(
                "tools/list"@,
            ) || method == Some("ping"@))
            &&& turn matches Turn::Call { id: i, call: c } ==> maybe(i) == json_at(line, "/id"@)
                && call_of(line, c)
            &&& turn matches Turn::Result { id: i, result: _ } ==> maybe(i) == json_at(line, "/id"@)
        }),
{
    crate::text::a_blank_text_is_all_white_space(line);
    if trim(line).len() > 0 && json_at(line, ""@) is Some {
        let call = choose|call: Call| #[trigger]
            call_of(line, call) && turn_is(
                json_at(line, "/id"@),
                json_string_at(line, "/method"@),
                json_string_at(line, "/params/protocolVersion"@),
                call,
                version,
                turn,
            );
        a_message_is_answered_under_its_id(
            json_at(line, "/id"@),
            json_string_at(line, "/method"@),
            json_string_at(line, "/params/protocolVersion"@),
            call,
            version,
            turn,
        );
    }
}

} // verus!

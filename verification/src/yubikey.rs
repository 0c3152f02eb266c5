//! A wrap opened by a YubiKey instead of a passphrase.
//!
//! The passphrase wrap is the one file in a synced store worth attacking, because it can be ground
//! offline by anyone holding a copy. This wrap has nothing to grind: the private half lives in the
//! token's secure element and the copy is inert without it in your hand.

use crate::outside::{age_plugin, age_plugin_of, lower, to_lower};
use crate::problem::Problem;
use crate::text::{
    ascii_upper, has_prefix, lines, same, seen, starts_with, texts, to_ascii_upper, to_chars, to_lines,
    to_words, trim, trim_start, trimmed, trimmed_start, words,
};
use vstd::prelude::*;
use vstd::string::*;

verus! {

/// The plugin on PATH. The name inside a recipient is another one: comparing a parsed recipient
/// against the binary's name would reject every real token.
pub const PLUGIN: &'static str = "age-plugin-yubikey";

/// The name inside a recipient, which is what the age plugin API matches on.
pub const PLUGIN_NAME: &'static str = "yubikey";

/// Whether a text is a YubiKey recipient, by the plugin that it is for or why it is for none.
pub fn check_recipient(text: &str, parsed: Result<String, String>) -> (r: Result<(), Problem>)
    ensures
        match r {
            Ok(_) => parsed matches Ok(name) && name@ == PLUGIN_NAME@,
            Err(Problem::NotARecipient(t, why)) => t@ == text@ && (parsed matches Err(w) && why@
                == w@),
            Err(Problem::OtherPlugin(t, name)) => t@ == text@ && (parsed matches Ok(n) && name@
                == n@ && n@ != PLUGIN_NAME@),
            Err(_) => false,
        },
{
    match parsed {
        Ok(name) => if same(name.as_str(), PLUGIN_NAME) {
            Ok(())
        } else {
            Err(Problem::OtherPlugin(text.to_string(), name))
        },
        Err(why) => Err(Problem::NotARecipient(text.to_string(), why)),
    }
}

/// Whether a text is a YubiKey recipient. They look like `age1yubikey1...`.
pub fn recipient(text: &str) -> (r: Result<(), Problem>)
    ensures
        match r {
            Ok(_) => age_plugin(trim(text@)) == Ok::<Seq<char>, Seq<char>>(PLUGIN_NAME@),
            Err(Problem::NotARecipient(t, why)) => t@ == text@ && age_plugin(trim(text@)) == Err::<
                Seq<char>,
                Seq<char>,
            >(why@),
            Err(Problem::OtherPlugin(t, name)) => t@ == text@ && name@ != PLUGIN_NAME@
                && age_plugin(trim(text@)) == Ok::<Seq<char>, Seq<char>>(name@),
            Err(_) => false,
        },
{
    check_recipient(text, age_plugin_of(trimmed(text).as_str()))
}

/// Whether an answer agrees: `y` or `yes`, in any case, with white space around it ignored.
pub open spec fn agrees(answer: Seq<char>) -> bool {
    lower(trim(answer)) == "y"@ || lower(trim(answer)) == "yes"@
}

/// Whether an answer agrees.
pub fn is_yes(answer: &str) -> (r: bool)
    ensures
        r == agrees(answer@),
{
    let said = to_lower(trimmed(answer).as_str());
    same(said.as_str(), "y") || same(said.as_str(), "yes")
}

/// How an offer goes on.
#[derive(Clone, Copy, PartialEq, Eq, Debug, Structural)]
pub enum Offer {
    /// Nothing is needed
    Settled,
    /// Ask first: it changes the user's machine, so it is not something to do quietly
    Ask,
}

/// Whether to offer installing the plugin: not where it is there, and only where Homebrew is and
/// somebody can answer.
pub fn offer_install(installed: bool, brew: bool, terminal: bool) -> (r: Result<Offer, Problem>)
    ensures
        match r {
            Ok(Offer::Settled) => installed,
            Ok(Offer::Ask) => !installed && brew && terminal,
            Err(Problem::PluginMissing) => !installed && !(brew && terminal),
            Err(_) => false,
        },
{
    if installed {
        return Ok(Offer::Settled);
    }
    if !brew || !terminal {
        return Err(Problem::PluginMissing);
    }
    Ok(Offer::Ask)
}

/// What came of the offer, by the answer.
pub fn accept_install(answer: &str) -> (r: Result<(), Problem>)
    ensures
        match r {
            Ok(_) => agrees(answer@),
            Err(Problem::InstallDeclined) => !agrees(answer@),
            Err(_) => false,
        },
{
    if is_yes(answer) {
        Ok(())
    } else {
        Err(Problem::InstallDeclined)
    }
}

/// What came of installing: Homebrew succeeded and the plugin is there.
pub fn check_install(success: bool, installed: bool) -> (r: Result<(), Problem>)
    ensures
        match r {
            Ok(_) => success && installed,
            Err(Problem::InstallFailed) => !(success && installed),
            Err(_) => false,
        },
{
    if !success || !installed {
        Err(Problem::InstallFailed)
    } else {
        Ok(())
    }
}

/// The lines that name a slot, trimmed.
pub open spec fn slot_lines(text: Seq<Seq<char>>) -> Seq<Seq<char>>
    decreases text.len(),
{
    if text.len() == 0 {
        Seq::empty()
    } else {
        let before = slot_lines(text.drop_last());
        if starts_with(trim_start(text.last()), "Slot "@) {
            before.push(trim(text.last()))
        } else {
            before
        }
    }
}

/// What the PIV applet already holds, from what `ykman piv info` printed. OpenPGP is a separate
/// applet on the same chip, so PGP keys are never at risk, but a PIV slot in use is worth seeing
/// before provisioning one. None means the check could not run.
pub fn piv_slots_in_use(info: Option<&str>) -> (r: Option<Vec<String>>)
    ensures
        match r {
            Some(slots) => info matches Some(text) && texts(slots@) == slot_lines(lines(text@)),
            None => info is None,
        },
{
    let text = match info {
        Some(t) => t,
        None => {
            return None;
        },
    };
    let all = to_lines(text);
    let ghost read = texts(all@);
    let mut out: Vec<String> = Vec::new();
    let mut i: usize = 0;
    assert(texts(out@) =~= slot_lines(read.take(0)));
    while i < all.len()
        invariant
            i <= all@.len(),
            read == texts(all@),
            texts(out@) == slot_lines(read.take(i as int)),
        decreases all@.len() - i,
    {
        let ghost before = texts(out@);
        proof {
            assert(read.take(i + 1).drop_last() =~= read.take(i as int));
            assert(read.take(i + 1).last() == all@[i as int]@);
        }
        if has_prefix(trimmed_start(all[i].as_str()).as_str(), "Slot ") {
            let slot = trimmed(all[i].as_str());
            out.push(slot);
            assert(texts(out@) =~= before.push(slot@));
        }
        i = i + 1;
    }
    assert(read.take(i as int) =~= read);
    Some(out)
}

/// What follows the first line that begins with this, trimmed.
pub open spec fn labelled(text: Seq<Seq<char>>, front: Seq<char>) -> Option<Seq<char>>
    decreases text.len(),
{
    if text.len() == 0 {
        None
    } else if starts_with(trim(text[0]), front) {
        Some(trim(trim(text[0]).skip(front.len() as int)))
    } else {
        labelled(text.drop_first(), front)
    }
}

/// The management key's algorithm, where it is named.
pub open spec fn management_algorithm(info: Seq<char>) -> Option<Seq<char>> {
    labelled(lines(info), "Management key algorithm:"@)
}

fn find_labelled(text: &str, front: &str) -> (r: Option<String>)
    ensures
        match r {
            Some(s) => labelled(lines(text@), front@) == Some(s@),
            None => labelled(lines(text@), front@) is None,
        },
{
    let all = to_lines(text);
    let ghost read = texts(all@);
    let mut i: usize = 0;
    assert(read.skip(0) =~= read);
    while i < all.len()
        invariant
            i <= all@.len(),
            read == texts(all@),
            read == lines(text@),
            labelled(read, front@) == labelled(read.skip(i as int), front@),
        decreases all@.len() - i,
    {
        assert(read.skip(i as int)[0] == all@[i as int]@);
        let line = trimmed(all[i].as_str());
        if has_prefix(line.as_str(), front) {
            let v = to_chars(line.as_str());
            let n = to_chars(front).len();
            let rest = crate::text::from_chars(&v, n, v.len());
            assert(rest@ =~= line@.skip(front@.len() as int));
            return Some(trimmed(rest.as_str()));
        }
        assert(read.skip(i as int).drop_first() =~= read.skip(i + 1));
        i = i + 1;
    }
    None
}

/// Whether the plugin can use the management key. It authenticates with the PIV management key and
/// supports TDES only, so an AES key fails after the PIN prompt with an error naming neither the
/// cause nor the token. Recent firmware picks AES192, so this is the state a careful user lands in.
/// An applet that does not say passes.
pub fn check_management_key(info: &str) -> (r: Result<(), Problem>)
    ensures
        match r {
            Ok(_) => match management_algorithm(info@) {
                Some(algorithm) => ascii_upper(algorithm) == "TDES"@,
                None => true,
            },
            Err(Problem::ManagementKey(algorithm)) => management_algorithm(info@) == Some(
                algorithm@,
            ) && ascii_upper(algorithm@) != "TDES"@,
            Err(_) => false,
        },
{
    match find_labelled(info, "Management key algorithm:") {
        Some(algorithm) => if same(to_ascii_upper(algorithm.as_str()).as_str(), "TDES") {
            Ok(())
        } else {
            Err(Problem::ManagementKey(algorithm))
        },
        None => Ok(()),
    }
}

/// The plugin can use the management key, as far as `ykman piv info` says.
pub open spec fn supported(info: Option<Seq<char>>) -> bool {
    info matches Some(text) ==> (management_algorithm(text) matches Some(algorithm) ==> ascii_upper(
        algorithm,
    ) == "TDES"@)
}

/// Whether the plugin can use the management key, from what `ykman piv info` printed. Without it
/// the plugin speaks for itself.
pub fn management_key_is_supported(info: Option<&str>) -> (r: Result<(), Problem>)
    ensures
        match r {
            Ok(_) => supported(seen(info)),
            Err(Problem::ManagementKey(algorithm)) => !supported(seen(info)) && (info matches Some(
                text,
            ) && management_algorithm(text@) == Some(algorithm@)),
            Err(_) => false,
        },
{
    match info {
        Some(text) => check_management_key(text),
        None => Ok(()),
    }
}

/// Whether to offer stopping GPG's scdaemon, which opens the card exclusively and takes it back in
/// the middle of what the plugin does. The card is released when it stops, and gpg-agent starts it
/// again the next time GPG wants it. Stopping another program's daemon is not something to do
/// quietly, so it is offered.
pub fn offer_to_stop_scdaemon(running: bool, terminal: bool) -> (r: Result<Offer, Problem>)
    ensures
        match r {
            Ok(Offer::Settled) => !running,
            Ok(Offer::Ask) => running && terminal,
            Err(Problem::ScdaemonHolds) => running && !terminal,
            Err(_) => false,
        },
{
    if !running {
        return Ok(Offer::Settled);
    }
    if !terminal {
        return Err(Problem::ScdaemonHolds);
    }
    Ok(Offer::Ask)
}

/// What came of the offer, by the answer.
pub fn accept_stop(answer: &str) -> (r: Result<(), Problem>)
    ensures
        match r {
            Ok(_) => agrees(answer@),
            Err(Problem::ScdaemonHolds) => !agrees(answer@),
            Err(_) => false,
        },
{
    if is_yes(answer) {
        Ok(())
    } else {
        Err(Problem::ScdaemonHolds)
    }
}

/// What came of stopping it: the command succeeded and it is gone.
pub fn check_stopped(success: bool, running: bool) -> (r: Result<(), Problem>)
    ensures
        match r {
            Ok(_) => success && !running,
            Err(Problem::ScdaemonRuns) => !success || running,
            Err(_) => false,
        },
{
    if !success || running {
        Err(Problem::ScdaemonRuns)
    } else {
        Ok(())
    }
}

/// The first word that begins with this.
pub open spec fn first_word(all: Seq<Seq<char>>, front: Seq<char>) -> Option<Seq<char>>
    decreases all.len(),
{
    if all.len() == 0 {
        None
    } else if starts_with(all[0], front) {
        Some(all[0])
    } else {
        first_word(all.drop_first(), front)
    }
}

fn find_word(line: &str, front: &str) -> (r: Option<String>)
    ensures
        match r {
            Some(s) => first_word(words(line@), front@) == Some(s@),
            None => first_word(words(line@), front@) is None,
        },
{
    let all = to_words(line);
    let ghost read = texts(all@);
    let mut i: usize = 0;
    assert(read.skip(0) =~= read);
    while i < all.len()
        invariant
            i <= all@.len(),
            read == texts(all@),
            read == words(line@),
            first_word(read, front@) == first_word(read.skip(i as int), front@),
        decreases all@.len() - i,
    {
        assert(read.skip(i as int)[0] == all@[i as int]@);
        if has_prefix(all[i].as_str(), front) {
            return Some(all[i].clone());
        }
        assert(read.skip(i as int).drop_first() =~= read.skip(i + 1));
        i = i + 1;
    }
    None
}

/// The recipient in each line that holds one.
pub open spec fn listed(text: Seq<Seq<char>>) -> Seq<Seq<char>>
    decreases text.len(),
{
    if text.len() == 0 {
        Seq::empty()
    } else {
        match first_word(words(text.last()), "age1yubikey1"@) {
            Some(w) => listed(text.drop_last()).push(w),
            None => listed(text.drop_last()),
        }
    }
}

/// Recipients already provisioned on whatever token is plugged in, from what the plugin listed.
pub fn recipients(printed: &str) -> (r: Vec<String>)
    ensures
        texts(r@) == listed(lines(printed@)),
{
    let all = to_lines(printed);
    let ghost read = texts(all@);
    let mut out: Vec<String> = Vec::new();
    let mut i: usize = 0;
    assert(texts(out@) =~= listed(read.take(0)));
    while i < all.len()
        invariant
            i <= all@.len(),
            read == texts(all@),
            texts(out@) == listed(read.take(i as int)),
        decreases all@.len() - i,
    {
        let ghost before = texts(out@);
        proof {
            assert(read.take(i + 1).drop_last() =~= read.take(i as int));
            assert(read.take(i + 1).last() == all@[i as int]@);
        }
        if let Some(w) = find_word(all[i].as_str(), "age1yubikey1") {
            out.push(w);
            assert(texts(out@) =~= before.push(w@));
        }
        i = i + 1;
    }
    assert(read.take(i as int) =~= read);
    out
}

/// What came of provisioning a slot. It changes the token, so it runs only when the user says so.
pub fn generate(success: bool) -> (r: Result<(), Problem>)
    ensures
        match r {
            Ok(_) => success,
            Err(Problem::GenerateFailed) => !success,
            Err(_) => false,
        },
{
    if success {
        Ok(())
    } else {
        Err(Problem::GenerateFailed)
    }
}

/// The slots in use are the lines that begin with the word, in their order and without the space around
/// them, and no other line is one.
pub proof fn a_slot_is_a_line_that_says_so(text: Seq<Seq<char>>, line: Seq<char>)
    ensures
        slot_lines(Seq::empty()) == Seq::<Seq<char>>::empty(),
        ({
            let t = trim_start(line);
            let slot = t.len() >= 5 && t.take(5) == "Slot "@;
            slot_lines(text.push(line)) == if slot {
                slot_lines(text).push(trim(line))
            } else {
                slot_lines(text)
            }
        }),
{
    reveal_strlit("Slot ");
    assert(text.push(line).drop_last() =~= text);
    let t = trim_start(line);
    assert(t.len() >= 5 ==> t.take(5) =~= t.subrange(0, 5));
}

/// The management key's algorithm is what the first line that names it says, and where the applet names
/// none, or cannot be read, nothing stands in the way. Only TDES, in letters of any size, will do.
pub proof fn only_tdes_will_do(info: Seq<char>, i: int, algorithm: Seq<char>)
    requires
        0 <= i < lines(info).len(),
        trim(lines(info)[i]) == "Management key algorithm:"@ + algorithm,
        forall|j: int|
            0 <= j < i ==> !starts_with(
                trim(#[trigger] lines(info)[j]),
                "Management key algorithm:"@,
            ),
    ensures
        management_algorithm(info) == Some(trim(algorithm)),
        supported(Some(info)) <==> ascii_upper(trim(algorithm)) == "TDES"@,
        supported(None),
{
    lemma_labelled(lines(info), i, algorithm);
}

proof fn lemma_labelled(text: Seq<Seq<char>>, i: int, rest: Seq<char>)
    requires
        0 <= i < text.len(),
        trim(text[i]) == "Management key algorithm:"@ + rest,
        forall|j: int|
            0 <= j < i ==> !starts_with(trim(#[trigger] text[j]), "Management key algorithm:"@),
    ensures
        labelled(text, "Management key algorithm:"@) == Some(trim(rest)),
    decreases i,
{
    let front = "Management key algorithm:"@;
    if i == 0 {
        let t = trim(text[0]);
        assert(t.subrange(0, front.len() as int) =~= front);
        assert(t.skip(front.len() as int) =~= rest);
    } else {
        let more = text.drop_first();
        assert(!starts_with(trim(text[0]), front));
        assert forall|j: int| 0 <= j < i - 1 implies !starts_with(trim(#[trigger] more[j]), front) by {
            assert(more[j] == text[j + 1]);
        }
        lemma_labelled(more, i - 1, rest);
    }
}

/// Every line that holds a recipient gives its first one, in the order of the lines, and a line without
/// one gives nothing.
pub proof fn a_recipient_is_taken_from_its_line(text: Seq<Seq<char>>, line: Seq<char>, i: int)
    ensures
        listed(Seq::empty()) == Seq::<Seq<char>>::empty(),
        0 <= i < words(line).len() && starts_with(words(line)[i], "age1yubikey1"@) && (forall|j: int|
            0 <= j < i ==> !starts_with(#[trigger] words(line)[j], "age1yubikey1"@)) ==> listed(
            text.push(line),
        ) == listed(text).push(words(line)[i]),
        (forall|j: int|
            0 <= j < words(line).len() ==> !starts_with(#[trigger] words(line)[j], "age1yubikey1"@))
            ==> listed(text.push(line)) == listed(text),
{
    assert(text.push(line).drop_last() =~= text);
    lemma_first_word(words(line), "age1yubikey1"@, i);
}

proof fn lemma_first_word(all: Seq<Seq<char>>, front: Seq<char>, i: int)
    ensures
        0 <= i < all.len() && starts_with(all[i], front) && (forall|j: int|
            0 <= j < i ==> !starts_with(#[trigger] all[j], front)) ==> first_word(all, front) == Some(
            all[i],
        ),
        (forall|j: int| 0 <= j < all.len() ==> !starts_with(#[trigger] all[j], front)) ==> first_word(
            all,
            front,
        ) is None,
    decreases all.len(),
{
    if all.len() > 0 {
        let rest = all.drop_first();
        lemma_first_word(rest, front, i - 1);
        assert forall|j: int| 0 <= j < rest.len() implies #[trigger] rest[j] == all[j + 1] by {}
        if 0 < i < all.len() && starts_with(all[i], front) && (forall|j: int|
            0 <= j < i ==> !starts_with(#[trigger] all[j], front)) {
            assert(!starts_with(all[0], front));
            assert(rest[i - 1] == all[i]);
            assert forall|j: int| 0 <= j < i - 1 implies !starts_with(#[trigger] rest[j], front) by {
                assert(rest[j] == all[j + 1]);
            }
        }
        if forall|j: int| 0 <= j < all.len() ==> !starts_with(#[trigger] all[j], front) {
            assert(!starts_with(all[0], front));
            assert forall|j: int| 0 <= j < rest.len() implies !starts_with(#[trigger] rest[j], front) by {
                assert(rest[j] == all[j + 1]);
            }
        }
    }
}

} // verus!

//! Bring entries across from `pass`, decrypting through GPG and re-encrypting to the store key.

use crate::disk::{extension, file_name, join, name_of, path_join, stem_and_extension};
use crate::order::{sort, sorted};
use crate::outside::text_of;
use crate::problem::Problem;
use crate::store::{Mode, Secret, DEFAULT_WINDOW_SECS};
use crate::text::{
    cat2, copy_texts, from_chars, has_prefix, same, seen, starts_with, texts, to_chars, trim,
    trim_end_of, trimmed, trimmed_end_of,
};
use vstd::prelude::*;
use vstd::string::*;
use vstd::utf8::{decode_utf8, valid_utf8};

verus! {

/// Where `pass` keeps its entries.
pub fn store_dir(set: Option<String>, home: Option<String>) -> (r: String)
    ensures
        r@ == match set {
            Some(dir) => dir@,
            None => match home {
                Some(h) => path_join(h@, ".password-store"@),
                None => Seq::empty(),
            },
        },
{
    match set {
        Some(dir) => dir,
        None => match home {
            Some(h) => join(h.as_str(), ".password-store"),
            None => {
                let r = String::new();
                assert(r@ =~= Seq::<char>::empty());
                r
            },
        },
    }
}

/// A part of a path begins here, with a dot.
pub open spec fn hidden_at(path: Seq<char>, i: int) -> bool {
    (i == 0 || path[i - 1] == '/') && path[i] == '.'
}

/// No part of a path begins with a dot.
pub open spec fn nothing_hidden(path: Seq<char>) -> bool {
    forall|i: int| 0 <= i < path.len() ==> !(#[trigger] hidden_at(path, i))
}

/// An entry: a file with the extension `gpg`, with nothing hidden on the way to it. The git
/// directory and the gpg-id file are none.
pub open spec fn is_entry(path: Seq<char>) -> bool {
    nothing_hidden(path) && extension(file_name(path)) == Some("gpg"@)
}

/// The names of the entries among some files, which are their paths with the `.gpg` taken off.
pub open spec fn entry_names(files: Seq<Seq<char>>) -> Seq<Seq<char>>
    decreases files.len(),
{
    if files.len() == 0 {
        Seq::empty()
    } else {
        let before = entry_names(files.drop_last());
        let path = files.last();
        if is_entry(path) {
            before.push(path.take(path.len() - 4))
        } else {
            before
        }
    }
}

fn shows_all(path: &str) -> (r: bool)
    ensures
        r == nothing_hidden(path@),
{
    let v = to_chars(path);
    let mut i: usize = 0;
    while i < v.len()
        invariant
            i <= v@.len(),
            v@ == path@,
            forall|j: int| 0 <= j < i ==> !(#[trigger] hidden_at(path@, j)),
        decreases v@.len() - i,
    {
        if v[i] == '.' && (i == 0 || v[i - 1] == '/') {
            assert(hidden_at(path@, i as int));
            return false;
        }
        i = i + 1;
    }
    true
}

proof fn lemma_gpg_tail(path: Seq<char>)
    requires
        extension(file_name(path)) == Some("gpg"@),
    ensures
        path.len() > 4,
{
    reveal_strlit("gpg");
    let name = file_name(path);
    crate::text::lemma_rcut(path, '/');
    crate::text::lemma_rcut(name, '.');
    let dot = crate::text::rcut(name, '.');
    assert(name.subrange(dot + 1, name.len() as int).len() == 3);
}

/// The names of the entries among the files that a walk found, in order.
pub fn entries(files: &Vec<String>) -> (r: Vec<String>)
    ensures
        sorted(texts(r@)),
        texts(r@).to_multiset() == entry_names(texts(files@)).to_multiset(),
        r@.len() == entry_names(texts(files@)).len(),
{
    let mut found: Vec<String> = Vec::new();
    let ghost all = texts(files@);
    let mut i: usize = 0;
    assert(texts(found@) =~= entry_names(all.take(0)));
    while i < files.len()
        invariant
            i <= files@.len(),
            all == texts(files@),
            texts(found@) == entry_names(all.take(i as int)),
        decreases files@.len() - i,
    {
        let path = files[i].as_str();
        proof {
            assert(all.take(i + 1).drop_last() =~= all.take(i as int));
            assert(all.take(i + 1).last() == path@);
        }
        let ghost before = texts(found@);
        let mut entry = false;
        if shows_all(path) {
            if let (_, Some(e)) = stem_and_extension(name_of(path).as_str()) {
                entry = same(e.as_str(), "gpg");
            }
        }
        if entry {
            proof {
                lemma_gpg_tail(path@);
            }
            let v = to_chars(path);
            let name = from_chars(&v, 0, v.len() - 4);
            assert(name@ =~= path@.take(path@.len() - 4));
            found.push(name);
            assert(texts(found@) =~= before.push(name@));
        }
        i = i + 1;
    }
    assert(all.take(i as int) =~= all);
    sort(&found)
}

/// `name` is the entry that `prefix` names, or lies in the namespace under it. `bean` does not drag
/// in `beanstalk`, because a namespace ends in a slash.
pub open spec fn selected(name: Seq<char>, prefix: Seq<char>) -> bool {
    name == prefix || starts_with(name, trim_end_of(prefix, '/') + "/"@)
}

/// The names that a prefix selects: every name where there is none.
pub open spec fn selection(all: Seq<Seq<char>>, prefix: Option<Seq<char>>) -> Seq<Seq<char>> {
    match prefix {
        Some(p) => all.filter(|name: Seq<char>| selected(name, p)),
        None => all,
    }
}

/// No prefix takes everything. A prefix takes that entry, or the namespace under it.
pub fn select(all: &Vec<String>, prefix: Option<&str>) -> (r: Vec<String>)
    ensures
        texts(r@) == selection(texts(all@), seen(prefix)),
{
    let prefix = match prefix {
        Some(p) => p,
        None => {
            return copy_texts(all);
        },
    };
    let namespace = cat2(trimmed_end_of(prefix, '/').as_str(), "/");
    let ghost names = texts(all@);
    let ghost keep = |name: Seq<char>| selected(name, prefix@);
    let mut out: Vec<String> = Vec::new();
    let mut i: usize = 0;
    proof {
        reveal(Seq::filter);
        assert(texts(out@) =~= names.take(0).filter(keep));
    }
    while i < all.len()
        invariant
            i <= all@.len(),
            names == texts(all@),
            namespace@ == trim_end_of(prefix@, '/') + "/"@,
            keep == (|name: Seq<char>| selected(name, prefix@)),
            texts(out@) == names.take(i as int).filter(keep),
        decreases all@.len() - i,
    {
        let ghost before = texts(out@);
        if same(all[i].as_str(), prefix) || has_prefix(all[i].as_str(), namespace.as_str()) {
            out.push(all[i].clone());
            assert(texts(out@) =~= before.push(all@[i as int]@));
        }
        proof {
            reveal(Seq::filter);
            assert(names.take(i + 1).drop_last() =~= names.take(i as int));
            assert(names.take(i + 1).last() == all@[i as int]@);
        }
        i = i + 1;
    }
    assert(names.take(i as int) =~= names);
    out
}

/// What an entry is taken to hold.
pub open spec fn shows(
    success: bool,
    stdout: Seq<u8>,
    stderr: Seq<char>,
    r: Result<String, Problem>,
) -> bool {
    match r {
        Ok(body) => success && valid_utf8(stdout) && body@ == trim_end_of(
            decode_utf8(stdout),
            '\n',
        ),
        Err(Problem::PassFailed(why)) => !success && why@ == trim(stderr),
        Err(Problem::EntryIsNotText) => success && !valid_utf8(stdout),
        Err(_) => false,
    }
}

/// The body of an entry, from what `pass show` printed. The whole of it is kept, not just the first
/// line: entries commonly carry `key: value` lines under the password.
pub fn show(success: bool, stdout: Vec<u8>, stderr: &str) -> (r: Result<String, Problem>)
    ensures
        shows(success, stdout@, stderr@, r),
{
    if !success {
        return Err(Problem::PassFailed(trimmed(stderr)));
    }
    match text_of(stdout) {
        Some(body) => Ok(trimmed_end_of(body.as_str(), '\n')),
        None => Err(Problem::EntryIsNotText),
    }
}

/// What came across.
#[derive(Clone, Copy, PartialEq, Eq, Debug, Structural)]
pub struct Report {
    pub imported: usize,
    pub skipped: usize,
}

/// What becomes of one entry.
#[derive(Clone, Copy, PartialEq, Eq, Debug, Structural)]
pub enum Fate {
    /// It is in the store already, and stays as it is
    Skip,
    /// It is in the store already, and its value is replaced
    Replace,
    /// It is new
    Create,
}

/// What becomes of an entry, by whether the store has one of that name.
pub open spec fn fate_of(present: bool, force: bool) -> Fate {
    if !present {
        Fate::Create
    } else if force {
        Fate::Replace
    } else {
        Fate::Skip
    }
}

/// How many entries are skipped.
pub open spec fn skips_in(present: Seq<bool>, force: bool) -> nat
    decreases present.len(),
{
    if present.len() == 0 {
        0
    } else {
        skips_in(present.drop_last(), force) + if fate_of(present.last(), force) == Fate::Skip {
            1nat
        } else {
            0
        }
    }
}

/// Which entries the store has already, by the ids that were found for them.
pub open spec fn present_in(held: Seq<Option<String>>) -> Seq<bool> {
    held.map_values(|id: Option<String>| id is Some)
}

/// Decide what becomes of some entries, by the id that the store has for each name, and count them.
/// Entries already in the store are skipped unless they are forced.
pub fn import(held: &Vec<Option<String>>, force: bool) -> (r: (Vec<Fate>, Report))
    ensures
        r.0@.len() == held@.len(),
        forall|i: int|
            0 <= i < held@.len() ==> #[trigger] r.0@[i] == fate_of(held@[i] is Some, force),
        r.1.skipped == skips_in(present_in(held@), force),
        r.1.imported + r.1.skipped == held@.len(),
{
    let mut out: Vec<Fate> = Vec::new();
    let mut report = Report { imported: 0, skipped: 0 };
    let ghost present = present_in(held@);
    let mut i: usize = 0;
    assert(present.take(0) =~= Seq::<bool>::empty());
    while i < held.len()
        invariant
            i <= held@.len(),
            present == present_in(held@),
            out@.len() == i,
            forall|j: int| 0 <= j < i ==> #[trigger] out@[j] == fate_of(held@[j] is Some, force),
            report.skipped == skips_in(present.take(i as int), force),
            report.imported + report.skipped == i,
        decreases held@.len() - i,
    {
        proof {
            assert(present.take(i + 1).drop_last() =~= present.take(i as int));
            assert(present.take(i + 1).last() == (held@[i as int] is Some));
        }
        if held[i].is_some() && !force {
            out.push(Fate::Skip);
            report.skipped = report.skipped + 1;
        } else {
            out.push(
                if held[i].is_some() {
                    Fate::Replace
                } else {
                    Fate::Create
                },
            );
            report.imported = report.imported + 1;
        }
        i = i + 1;
    }
    assert(present.take(i as int) =~= present);
    (out, report)
}

/// What an entry becomes.
pub open spec fn comes_across(
    name: Seq<char>,
    value: Seq<char>,
    mode: Mode,
    held: Option<String>,
    fresh: Seq<char>,
    now: u64,
    r: (String, Secret),
) -> bool {
    &&& r.0@ == match held {
        Some(id) => id@,
        None => fresh,
    }
    &&& r.1.name@ == name
    &&& r.1.value@ == value
    &&& r.1.mode == mode
    &&& r.1.window_secs == DEFAULT_WINDOW_SECS
    &&& r.1.lease_secs == 0
    &&& r.1.created == now
    &&& r.1.updated == now
}

/// The secret that an entry becomes, and the id it goes under: one that is in the store already
/// keeps its id, and a new one gets the fresh one.
pub fn imported(
    name: &str,
    value: &str,
    mode: Mode,
    held: Option<String>,
    fresh: String,
    now: u64,
) -> (r: (String, Secret))
    ensures
        comes_across(name@, value@, mode, held, fresh@, now, r),
{
    let secret = Secret {
        name: name.to_string(),
        mode,
        window_secs: DEFAULT_WINDOW_SECS,
        lease_secs: 0,
        value: value.to_string(),
        created: now,
        updated: now,
    };
    let id = match held {
        Some(id) => id,
        None => fresh,
    };
    (id, secret)
}

/// A namespace never reaches a longer name beside it: what a prefix without a slash at its end
/// selects is that name itself or has a slash right after the prefix.
pub proof fn a_namespace_ends_in_a_slash(name: Seq<char>, prefix: Seq<char>)
    requires
        prefix.len() > 0,
        prefix.last() != '/',
        selected(name, prefix),
        name != prefix,
    ensures
        name.len() > prefix.len(),
        name.take(prefix.len() as int) == prefix,
        name[prefix.len() as int] == '/',
{
    reveal_strlit("/");
    let p = prefix + "/"@;
    assert(trim_end_of(prefix, '/') == prefix);
    assert(name.subrange(0, p.len() as int) == p);
    assert(p[prefix.len() as int] == '/');
    assert(name.subrange(0, p.len() as int)[prefix.len() as int] == name[prefix.len() as int]);
    assert forall|i: int| 0 <= i < prefix.len() implies name[i] == prefix[i] by {
        assert(name.subrange(0, p.len() as int)[i] == p[i]);
    }
    assert(name.take(prefix.len() as int) =~= prefix);
}

/// A namespace is all that lies under it, at any depth, and the entry of that very name: a prefix that
/// does not end in a slash selects a name if and only if it is the name, or the name goes on after it
/// with a slash.
pub proof fn a_namespace_is_what_lies_under_it(name: Seq<char>, prefix: Seq<char>)
    requires
        prefix.len() > 0,
        prefix.last() != '/',
    ensures
        selected(name, prefix) <==> name == prefix || (name.len() > prefix.len() && name.take(
            prefix.len() as int,
        ) == prefix && name[prefix.len() as int] == '/'),
{
    reveal_strlit("/");
    let p = prefix + "/"@;
    assert(trim_end_of(prefix, '/') == prefix);
    if selected(name, prefix) && name != prefix {
        a_namespace_ends_in_a_slash(name, prefix);
    }
    if name.len() > prefix.len() && name.take(prefix.len() as int) == prefix && name[prefix.len() as int]
        == '/' {
        assert forall|i: int| 0 <= i < p.len() implies name[i] == p[i] by {
            if i < prefix.len() {
                assert(name.take(prefix.len() as int)[i] == prefix[i]);
            }
        }
        assert(name.subrange(0, p.len() as int) =~= p);
    }
}

/// A namespace is taken whole: whatever lies under it is selected, however many slashes it holds, and
/// slashes at the end of what was typed make no difference to that.
pub proof fn a_namespace_is_taken_whole(prefix: Seq<char>, slashes: nat, rest: Seq<char>)
    requires
        prefix.len() > 0,
        prefix.last() != '/',
    ensures
        selected(prefix, prefix),
        selected(prefix + seq!['/'] + rest, prefix),
        selected(prefix + seq!['/'] + rest, prefix + Seq::new(slashes, |i: int| '/')),
    decreases slashes,
{
    let name = prefix + seq!['/'] + rest;
    assert(name.take(prefix.len() as int) =~= prefix);
    a_namespace_is_what_lies_under_it(name, prefix);
    lemma_slashes_off(prefix, slashes);
}

proof fn lemma_slashes_off(prefix: Seq<char>, slashes: nat)
    requires
        prefix.len() > 0,
        prefix.last() != '/',
    ensures
        trim_end_of(prefix + Seq::new(slashes, |i: int| '/'), '/') == prefix,
    decreases slashes,
{
    let s = prefix + Seq::new(slashes, |i: int| '/');
    if slashes == 0 {
        assert(s =~= prefix);
    } else {
        let fewer = (slashes - 1) as nat;
        lemma_slashes_off(prefix, fewer);
        assert(s.drop_last() =~= prefix + Seq::new(fewer, |i: int| '/'));
    }
}

/// A selection is of what there is: it holds a name if and only if the name is there and is selected,
/// in the order and as often as it is there, and without a prefix it is everything.
pub proof fn a_selection_takes_all_that_match(all: Seq<Seq<char>>, prefix: Seq<char>, name: Seq<char>)
    requires
        prefix.len() > 0,
        prefix.last() != '/',
    ensures
        selection(all, Some(prefix)).contains(name) <==> all.contains(name) && (name == prefix || (
        name.len() > prefix.len() && name.take(prefix.len() as int) == prefix && name[prefix.len() as int]
            == '/')),
        selection(all, None) == all,
        selection(all.push(name), Some(prefix)) == selection(all, Some(prefix)) + selection(
            seq![name],
            Some(prefix),
        ),
{
    let keep = |n: Seq<char>| selected(n, prefix);
    a_namespace_is_what_lies_under_it(name, prefix);
    broadcast use vstd::seq_lib::group_filter_ensures;

    if all.contains(name) && selected(name, prefix) {
        let i = choose|i: int| 0 <= i < all.len() && all[i] == name;
        assert(keep(all[i]));
    }
    if selection(all, Some(prefix)).contains(name) {
        let out = all.filter(keep);
        let i = choose|i: int| 0 <= i < out.len() && out[i] == name;
        all.lemma_filter_contains_rev(keep, out[i]);
    }
    assert(all.push(name) =~= all + seq![name]);
    Seq::filter_distributes_over_add(all, seq![name], keep);
}

/// A part of the path begins here.
pub open spec fn part_at(path: Seq<char>, i: int) -> bool {
    i == 0 || path[i - 1] == '/'
}

/// An entry is what `pass` keeps as one: a file in the list whose name ends in `.gpg`, with something
/// before that, and of which no part begins with a dot. It is listed by its path without the `.gpg`,
/// and nothing else is.
pub proof fn every_entry_is_listed(files: Seq<Seq<char>>, name: Seq<char>)
    ensures
        entry_names(files).contains(name) <==> {
            let path = name + ".gpg"@;
            &&& files.contains(path)
            &&& name.len() > 0 && name.last() != '/'
            &&& forall|i: int| 0 <= i < path.len() && #[trigger] part_at(path, i) ==> path[i] != '.'
        },
    decreases files.len(),
{
    reveal_strlit(".gpg");
    if files.len() > 0 {
        let front = files.drop_last();
        let last = files.last();
        let path = name + ".gpg"@;
        every_entry_is_listed(front, name);
        lemma_entry(last, name);
        let before = entry_names(front);
        let after = entry_names(files);
        assert(files =~= front.push(last));
        assert(files.contains(path) <==> front.contains(path) || path == last) by {
            if files.contains(path) {
                let i = choose|i: int| 0 <= i < files.len() && files[i] == path;
                if i < front.len() {
                    assert(front[i] == path);
                }
            }
            if front.contains(path) {
                let i = choose|i: int| 0 <= i < front.len() && front[i] == path;
                assert(files[i] == path);
            }
            if path == last {
                assert(files[files.len() - 1] == path);
            }
        }
        if is_entry(last) {
            let short = last.take(last.len() - 4);
            assert(after == before.push(short));
            assert(after.contains(name) <==> before.contains(name) || short == name) by {
                if after.contains(name) {
                    let i = choose|i: int| 0 <= i < after.len() && after[i] == name;
                    if i < before.len() {
                        assert(before[i] == name);
                    }
                }
                if before.contains(name) {
                    let i = choose|i: int| 0 <= i < before.len() && before[i] == name;
                    assert(after[i] == name);
                }
                if short == name {
                    assert(after[after.len() - 1] == name);
                }
            }
        }
    }
}

/// A file is the entry of this name exactly where its path is the name with `.gpg` behind it, and
/// nothing on the way is hidden.
proof fn lemma_entry(path: Seq<char>, name: Seq<char>)
    ensures
        is_entry(path) && path.take(path.len() - 4) == name <==> {
            &&& path == name + ".gpg"@
            &&& name.len() > 0 && name.last() != '/'
            &&& forall|i: int| 0 <= i < path.len() && #[trigger] part_at(path, i) ==> path[i] != '.'
        },
{
    reveal_strlit(".gpg");
    reveal_strlit("gpg");
    let shown = forall|i: int| 0 <= i < path.len() && #[trigger] part_at(path, i) ==> path[i] != '.';
    if nothing_hidden(path) {
        assert forall|i: int| 0 <= i < path.len() && #[trigger] part_at(path, i) implies path[i]
            != '.' by {
            assert(!hidden_at(path, i));
        }
    }
    if shown {
        assert forall|i: int| 0 <= i < path.len() implies !(#[trigger] hidden_at(path, i)) by {
            assert(part_at(path, i) ==> path[i] != '.');
        }
    }
    let file = file_name(path);
    let at = crate::text::rcut(path, '/');
    crate::text::lemma_rcut(path, '/');
    crate::text::lemma_rcut(file, '.');
    let dot = crate::text::rcut(file, '.');
    if extension(file) == Some("gpg"@) {
        lemma_gpg_tail(path);
        assert(file.subrange(dot + 1, file.len() as int) == "gpg"@);
        assert(file.len() == dot + 4);
        let short = path.take(path.len() - 4);
        let tail = file.subrange(dot + 1, file.len() as int);
        assert(tail[0] == 'g' && tail[1] == 'p' && tail[2] == 'g');
        assert(file[dot + 1] == tail[0] && file[dot + 2] == tail[1] && file[dot + 3] == tail[2]);
        let n = path.len();
        assert(path[n - 4] == file[dot] && path[n - 3] == file[dot + 1]);
        assert(path[n - 2] == file[dot + 2] && path[n - 1] == file[dot + 3]);
        assert(path =~= short + ".gpg"@);
        assert(short.last() == file[dot - 1]);
    }
    if path == name + ".gpg"@ && name.len() > 0 && name.last() != '/' {
        assert(path.take(path.len() - 4) =~= name);
        let n = name.len() as int;
        assert(path[n] == '.' && path[n + 1] == 'g' && path[n + 2] == 'p' && path[n + 3] == 'g');
        assert(at < n - 1) by {
            assert(path[n - 1] == name.last());
        }
        let d = n - at - 1;
        assert(file[d] == '.' && file[d + 1] == 'g' && file[d + 2] == 'p' && file[d + 3] == 'g');
        crate::text::lemma_rcut_unique(file, '.', d);
        assert(file.subrange(d + 1, file.len() as int) =~= "gpg"@);
    }
}

/// What is in the store already is left alone unless it is forced, and then it keeps its place;
/// everything else comes across. What is said to be skipped is how many were there already, and
/// nothing where they were forced.
pub proof fn an_import_overwrites_only_by_force(present: Seq<bool>, force: bool)
    ensures
        fate_of(true, false) == Fate::Skip,
        fate_of(true, true) == Fate::Replace,
        fate_of(false, force) == Fate::Create,
        skips_in(present, true) == 0,
        skips_in(present.push(true), false) == skips_in(present, false) + 1,
        skips_in(present.push(false), false) == skips_in(present, false),
        skips_in(Seq::empty(), false) == 0,
    decreases present.len(),
{
    assert(present.push(true).drop_last() =~= present);
    assert(present.push(false).drop_last() =~= present);
    if present.len() > 0 {
        an_import_overwrites_only_by_force(present.drop_last(), force);
    }
}

/// An entry comes across whole, under the name it had, in the mode that was asked for, and asks once in
/// five minutes. One that is in the store already keeps its id, and a new one gets its own.
pub proof fn an_entry_comes_across_whole(
    name: Seq<char>,
    value: Seq<char>,
    mode: Mode,
    held: Option<String>,
    fresh: Seq<char>,
    now: u64,
    r: (String, Secret),
)
    requires
        comes_across(name, value, mode, held, fresh, now, r),
    ensures
        r.1.name@ == name && r.1.value@ == value && r.1.mode == mode,
        r.1.window_secs == 300 && r.1.lease_secs == 0 && r.1.created == now && r.1.updated == now,
        held is Some ==> r.0@ == held->0@,
        held is None ==> r.0@ == fresh,
{
}

/// The body of an entry is kept whole, its later lines too: only the line breaks at its end go. Where
/// `pass` failed its own words are passed on.
pub proof fn the_whole_body_is_kept(
    stdout: Seq<u8>,
    stderr: Seq<char>,
    body: Seq<char>,
    breaks: nat,
    well: Result<String, Problem>,
    ill: Result<String, Problem>,
)
    requires
        shows(true, stdout, stderr, well),
        shows(false, stdout, stderr, ill),
        valid_utf8(stdout),
        decode_utf8(stdout) == body + Seq::new(breaks, |i: int| '\n'),
        body.len() > 0 ==> body.last() != '\n',
    ensures
        well matches Ok(v) && v@ == body,
        ill matches Err(Problem::PassFailed(why)) && why@ == trim(stderr),
{
    crate::commands::a_piped_value_loses_only_its_breaks(body, breaks);
}

} // verus!

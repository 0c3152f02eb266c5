//! Copies the store to and from a directory. No shared mutable file, so there is nothing to merge.

use crate::disk::{
    acts, join, name_change, names_after, path_join, Act, Listing, Step,
};
use crate::history::keep_acts;
use crate::lookup::{id_in, is_secret};
use crate::order::{ascending, lemma_ascending_unique, sort_dedup};
use crate::problem::Problem;
use crate::disk::{file_name, stem};
use crate::store::Store;
use crate::table::Table;
use crate::text::{
    ends_with, has_char, has_prefix, has_suffix, same, seen, starts_with, texts, to_chars, trim, trimmed,
};
use vstd::prelude::*;
use vstd::string::*;

verus! {

/// What a destination is.
#[derive(Clone, Copy, PartialEq, Eq, Debug, Structural)]
pub enum Kind {
    Directory,
    Rclone,
    Git,
}

/// A destination is a directory unless it looks like a git URL or an rclone remote. A git URL also
/// holds a colon, so its shape is looked for first.
pub open spec fn kind_of(remote: Seq<char>) -> Kind {
    let r = trim(remote);
    if starts_with(r, "git@"@) || starts_with(r, "ssh://"@) || ends_with(r, ".git"@) || starts_with(
        r,
        "https://"@,
    ) {
        Kind::Git
    } else if starts_with(r, "/"@) || starts_with(r, "~"@) || starts_with(r, "."@) {
        Kind::Directory
    } else if r.contains(':') {
        Kind::Rclone
    } else {
        Kind::Directory
    }
}

/// What a destination is, by its shape.
pub fn classify(remote: &str) -> (r: Kind)
    ensures
        r == kind_of(remote@),
{
    let remote = trimmed(remote);
    let s = remote.as_str();
    if has_prefix(s, "git@") || has_prefix(s, "ssh://") || has_suffix(s, ".git") || has_prefix(
        s,
        "https://",
    ) {
        return Kind::Git;
    }
    if has_prefix(s, "/") || has_prefix(s, "~") || has_prefix(s, ".") {
        return Kind::Directory;
    }
    if has_char(s, ':') {
        return Kind::Rclone;
    }
    Kind::Directory
}

/// Where a chosen destination is kept, so a later bare `sync` goes to the same place.
pub fn remote_path(store: &Store) -> (r: String)
    ensures
        r@ == path_join(store.dir@, "remote"@),
{
    join(store.dir.as_str(), "remote")
}

/// The destination that was chosen, from what its file holds.
pub open spec fn chosen_remote(raw: Option<Seq<char>>) -> Option<Seq<char>> {
    match raw {
        Some(text) => if trim(text).len() > 0 {
            Some(trim(text))
        } else {
            None
        },
        None => None,
    }
}

/// The destination that was chosen, from what its file holds.
pub fn configured_remote(raw: Option<&str>) -> (r: Option<String>)
    ensures
        match r {
            Some(remote) => chosen_remote(seen(raw)) == Some(remote@),
            None => chosen_remote(seen(raw)) is None,
        },
{
    match raw {
        Some(text) => {
            let remote = trimmed(text);
            if to_chars(remote.as_str()).len() > 0 {
                Some(remote)
            } else {
                None
            }
        },
        None => None,
    }
}

/// The environment wins, then whatever was chosen, then iCloud Drive.
pub fn default_remote(set: Option<String>, raw: Option<&str>, home: Option<&str>) -> (r: Result<
    String,
    Problem,
>)
    ensures
        match r {
            Ok(remote) => match set {
                Some(s) => remote@ == s@,
                None => match chosen_remote(seen(raw)) {
                    Some(chosen) => remote@ == chosen,
                    None => home matches Some(h) && remote@ == path_join(
                        h@,
                        "Library/Mobile Documents/com~apple~CloudDocs/passbox"@,
                    ),
                },
            },
            Err(Problem::HomeNotSet) => set is None && chosen_remote(seen(raw)) is None
                && home is None,
            Err(_) => false,
        },
{
    if let Some(s) = set {
        return Ok(s);
    }
    if let Some(chosen) = configured_remote(raw) {
        return Ok(chosen);
    }
    match home {
        Some(h) => Ok(join(h, "Library/Mobile Documents/com~apple~CloudDocs/passbox")),
        None => Err(Problem::HomeNotSet),
    }
}

// ---------------------------------------------------------------------------------------------
// What stays at home

/// The socket is a live endpoint and the versions are this machine's own history. Grants stay put
/// too, since one that travelled would let a machine you have not touched inherit an approval given
/// here. The chosen remote is machine local, because a USB path on one Mac means nothing on another.
/// The index names what you hold, so it never leaves.
pub open spec fn skips(path: Seq<char>) -> bool {
    path == "broker.sock"@ || path == "remote"@ || path == "names"@ || starts_with(
        path,
        "store/.versions"@,
    ) || (starts_with(path, "grants-"@) && ends_with(path, ".age"@))
}

/// A path stays at home where it or a directory above it is skipped.
pub open spec fn stays_home(path: Seq<char>) -> bool {
    skips(path) || exists|i: int| 0 <= i < path.len() && path[i] == '/' && skips(#[trigger] path.take(i))
}

/// Whether this one path is skipped.
pub fn skip(path: &str) -> (r: bool)
    ensures
        r == skips(path@),
{
    same(path, "broker.sock") || same(path, "remote") || same(path, "names") || has_prefix(
        path,
        "store/.versions",
    ) || (has_prefix(path, "grants-") && has_suffix(path, ".age"))
}

/// Whether a path stays at home.
pub fn is_home(path: &str) -> (r: bool)
    ensures
        r == stays_home(path@),
{
    if skip(path) {
        return true;
    }
    let v = to_chars(path);
    let mut i: usize = 0;
    while i < v.len()
        invariant
            i <= v@.len(),
            v@ == path@,
            forall|j: int| 0 <= j < i && path@[j] == '/' ==> !skips(#[trigger] path@.take(j)),
        decreases v@.len() - i,
    {
        if v[i] == '/' {
            let above = crate::text::from_chars(&v, 0, i);
            assert(above@ =~= path@.take(i as int));
            if skip(above.as_str()) {
                return true;
            }
        }
        i = i + 1;
    }
    false
}

// ---------------------------------------------------------------------------------------------
// The order of paths

/// A path with `/` before every other character, so that a directory comes before its neighbours.
pub open spec fn path_key(path: Seq<char>) -> Seq<char> {
    path.map_values(
        |c: char|
            if c == '/' {
                '\0'
            } else {
                c
            },
    )
}

/// Paths in the order of their components.
pub open spec fn path_keys(paths: Seq<Seq<char>>) -> Seq<Seq<char>> {
    paths.map_values(|p: Seq<char>| path_key(p))
}

/// No path holds the character that no file name can.
pub open spec fn paths_ok(names: Set<Seq<char>>) -> bool {
    forall|p: Seq<char>| #[trigger] names.contains(p) ==> !p.contains('\0')
}

/// `v` holds these paths, each once, in the order of their components.
pub open spec fn lists_paths(names: Set<Seq<char>>, v: Seq<Seq<char>>) -> bool {
    ascending(path_keys(v)) && v.to_set() == names
}

/// The paths in the order of their components.
pub open spec fn in_path_order(names: Set<Seq<char>>) -> Seq<Seq<char>> {
    choose|v: Seq<Seq<char>>| #[trigger] lists_paths(names, v)
}

/// Paths that files can have are told apart by their keys.
pub proof fn lemma_path_key_injective(a: Seq<char>, b: Seq<char>)
    requires
        path_key(a) == path_key(b),
        !a.contains('\0'),
        !b.contains('\0'),
    ensures
        a == b,
{
    assert(a.len() == path_key(a).len());
    assert(b.len() == path_key(b).len());
    assert forall|i: int| 0 <= i < a.len() implies a[i] == b[i] by {
        assert(path_key(a)[i] == path_key(b)[i]);
        assert(path_key(a)[i] == (if a[i] == '/' { '\0' } else { a[i] }));
        assert(path_key(b)[i] == (if b[i] == '/' { '\0' } else { b[i] }));
        assert(a.contains(a[i]));
        assert(b.contains(b[i]));
    }
    assert(a =~= b);
}

proof fn lemma_path_order_unique(names: Set<Seq<char>>, v: Seq<Seq<char>>)
    requires
        lists_paths(names, v),
        paths_ok(names),
    ensures
        in_path_order(names) == v,
{
    let w = in_path_order(names);
    assert(lists_paths(names, w));
    assert forall|k: Seq<char>| path_keys(v).to_set().contains(k) == path_keys(w).to_set().contains(
        k,
    ) by {
        if path_keys(v).contains(k) {
            let i = choose|i: int| 0 <= i < v.len() && path_keys(v)[i] == k;
            assert(v.to_set().contains(v[i]));
            assert(w.to_set().contains(v[i]));
            let j = choose|j: int| 0 <= j < w.len() && w[j] == v[i];
            assert(path_keys(w)[j] == k);
        }
        if path_keys(w).contains(k) {
            let i = choose|i: int| 0 <= i < w.len() && path_keys(w)[i] == k;
            assert(w.to_set().contains(w[i]));
            assert(v.to_set().contains(w[i]));
            let j = choose|j: int| 0 <= j < v.len() && v[j] == w[i];
            assert(path_keys(v)[j] == k);
        }
    }
    assert(path_keys(v).to_set() =~= path_keys(w).to_set());
    lemma_ascending_unique(path_keys(v), path_keys(w));
    assert(v.len() == path_keys(v).len() && w.len() == path_keys(w).len());
    assert forall|i: int| 0 <= i < v.len() implies v[i] == w[i] by {
        assert(path_keys(v)[i] == path_keys(w)[i]);
        assert(v.to_set().contains(v[i]));
        assert(w.to_set().contains(w[i]));
        lemma_path_key_injective(v[i], w[i]);
    }
    assert(v =~= w);
}

/// `key` is the key of one of the paths.
spec fn is_key(names: Set<Seq<char>>, key: Seq<char>) -> bool {
    exists|p: Seq<char>| names.contains(p) && #[trigger] path_key(p) == key
}

fn swap_char(s: &str, from: char, to: char) -> (r: String)
    ensures
        r@ == s@.map_values(
            |c: char|
                if c == from {
                    to
                } else {
                    c
                },
        ),
{
    let v = to_chars(s);
    let mut out = String::new();
    let mut i: usize = 0;
    let ghost all = s@.map_values(
        |c: char|
            if c == from {
                to
            } else {
                c
            },
    );
    while i < v.len()
        invariant
            i <= v@.len(),
            v@ == s@,
            all == s@.map_values(
                |c: char|
                    if c == from {
                        to
                    } else {
                        c
                    },
            ),
            out@ == all.take(i as int),
        decreases v@.len() - i,
    {
        let c = if v[i] == from {
            to
        } else {
            v[i]
        };
        out.push(c);
        assert(all.take(i as int).push(c) =~= all.take(i + 1));
        i = i + 1;
    }
    assert(all.take(i as int) =~= all);
    out
}

/// The paths of a list in the order of their components, each once.
pub fn sort_paths(paths: &Vec<String>) -> (r: Vec<String>)
    requires
        paths_ok(texts(paths@).to_set()),
    ensures
        texts(r@) == in_path_order(texts(paths@).to_set()),
        lists_paths(texts(paths@).to_set(), texts(r@)),
{
    let ghost names = texts(paths@).to_set();
    let mut keys: Vec<String> = Vec::new();
    let mut i: usize = 0;
    while i < paths.len()
        invariant
            i <= paths@.len(),
            texts(keys@) == path_keys(texts(paths@)).take(i as int),
        decreases paths@.len() - i,
    {
        let ghost before = texts(keys@);
        let k = swap_char(paths[i].as_str(), '/', '\0');
        assert(k@ =~= path_key(paths@[i as int]@));
        keys.push(k);
        assert(texts(keys@) =~= before.push(k@));
        assert(before.push(k@) =~= path_keys(texts(paths@)).take(i + 1));
        i = i + 1;
    }
    assert(path_keys(texts(paths@)).take(i as int) =~= path_keys(texts(paths@)));
    let sorted = sort_dedup(&keys);
    let ghost keyed = texts(sorted@);
    let mut out: Vec<String> = Vec::new();
    let mut j: usize = 0;
    proof {
        assert forall|m: int| 0 <= m < keyed.len() implies is_key(names, #[trigger] keyed[m]) by {
            assert(keyed.to_set().contains(keyed[m]));
            assert(texts(keys@).contains(keyed[m]));
            let n = choose|n: int| 0 <= n < keys@.len() && texts(keys@)[n] == keyed[m];
            assert(texts(paths@).to_set().contains(texts(paths@)[n]));
            assert(path_key(texts(paths@)[n]) == keyed[m]);
        }
    }
    while j < sorted.len()
        invariant
            j <= sorted@.len(),
            keyed == texts(sorted@),
            paths_ok(names),
            forall|m: int| 0 <= m < keyed.len() ==> is_key(names, #[trigger] keyed[m]),
            out@.len() == j,
            forall|m: int|
                0 <= m < j ==> names.contains(#[trigger] texts(out@)[m]) && path_key(texts(out@)[m])
                    == keyed[m],
        decreases sorted@.len() - j,
    {
        let p = swap_char(sorted[j].as_str(), '\0', '/');
        proof {
            assert(is_key(names, keyed[j as int]));
            let q = choose|q: Seq<char>|
                names.contains(q) && #[trigger] path_key(q) == keyed[j as int];
            assert(keyed[j as int] == sorted@[j as int]@);
            assert(p@.len() == q.len());
            assert forall|n: int| 0 <= n < q.len() implies p@[n] == q[n] by {
                assert(q.contains(q[n]));
                assert(path_key(q)[n] == keyed[j as int][n]);
            }
            assert(p@ =~= q);
        }
        let ghost before = texts(out@);
        out.push(p);
        assert(texts(out@) =~= before.push(p@));
        j = j + 1;
    }
    proof {
        let v = texts(out@);
        assert(path_keys(v) =~= keyed);
        assert forall|p: Seq<char>| v.to_set().contains(p) == names.contains(p) by {
            if v.contains(p) {
                let m = choose|m: int| 0 <= m < v.len() && v[m] == p;
                assert(names.contains(v[m]));
            }
            if names.contains(p) {
                let n = choose|n: int| 0 <= n < paths@.len() && texts(paths@)[n] == p;
                assert(texts(keys@)[n] == path_key(p));
                assert(texts(keys@).to_set().contains(path_key(p)));
                assert(keyed.to_set().contains(path_key(p)));
                let m = choose|m: int| 0 <= m < keyed.len() && keyed[m] == path_key(p);
                assert(names.contains(v[m]));
                lemma_path_key_injective(v[m], p);
                assert(v[m] == p);
            }
        }
        assert(v.to_set() =~= names);
        lemma_path_order_unique(names, v);
    }
    out
}

// ---------------------------------------------------------------------------------------------
// What goes where

/// One thing that a sync does.
pub enum Travel {
    /// Copy a file to the far side, with its modification time
    Push(Seq<char>),
    /// Copy a file from the far side, with its modification time
    Pull(Seq<char>),
    /// Change a file here
    Local(Act),
}

/// One thing to do for a sync. Copying makes the directory a file goes to, and preserves the
/// modification time, so the next run does not copy it straight back.
pub enum Move {
    /// Copy a file to the far side
    Push(String),
    /// Copy a file from the far side
    Pull(String),
    /// Change a file here
    Local(Step),
}

impl View for Move {
    type V = Travel;

    open spec fn view(&self) -> Travel {
        match self {
            Move::Push(name) => Travel::Push(name@),
            Move::Pull(name) => Travel::Pull(name@),
            Move::Local(step) => Travel::Local(step@),
        }
    }
}

/// What moves stand for.
pub open spec fn travels(moves: Seq<Move>) -> Seq<Travel> {
    moves.map_values(|m: Move| m@)
}

/// How much travelled.
#[derive(Clone, Copy, PartialEq, Eq, Debug, Default, Structural)]
pub struct Report {
    pub pushed: usize,
    pub pulled: usize,
}

/// The files of one side that travel, with their modification times.
pub open spec fn side_of(files: Seq<(String, i128)>) -> Map<Seq<char>, i128>
    decreases files.len(),
{
    if files.len() == 0 {
        Map::empty()
    } else {
        let before = side_of(files.drop_last());
        if stays_home(files.last().0@) {
            before
        } else {
            before.insert(files.last().0@, files.last().1)
        }
    }
}

/// The files of one side that travel, from all that a walk found there.
pub fn side(files: &Vec<(String, i128)>) -> (r: Table<i128>)
    ensures
        r@ == side_of(files@),
        r@.dom().finite(),
{
    let mut out: Table<i128> = Table::new();
    let mut i: usize = 0;
    assert(files@.take(0) =~= Seq::<(String, i128)>::empty());
    while i < files.len()
        invariant
            i <= files@.len(),
            out@ == side_of(files@.take(i as int)),
            out@.dom().finite(),
        decreases files@.len() - i,
    {
        proof {
            assert(files@.take(i + 1).drop_last() =~= files@.take(i as int));
        }
        if !is_home(files[i].0.as_str()) {
            out.insert(files[i].0.as_str(), files[i].1);
        }
        i = i + 1;
    }
    assert(files@.take(i as int) =~= files@);
    out
}

/// Which way a file goes.
#[derive(Clone, Copy, PartialEq, Eq, Debug, Structural)]
pub enum Way {
    Out,
    In,
    Neither,
}

/// Which way a file goes: the newest modification time wins, and where only one side has the file
/// the other gets it.
pub open spec fn way_of(
    ours: Map<Seq<char>, i128>,
    theirs: Map<Seq<char>, i128>,
    name: Seq<char>,
) -> Way {
    if ours.contains_key(name) && (!theirs.contains_key(name) || ours[name] > theirs[name]) {
        Way::Out
    } else if theirs.contains_key(name) && (!ours.contains_key(name) || theirs[name]
        > ours[name]) {
        Way::In
    } else {
        Way::Neither
    }
}

/// Which files there are here after some of a sync.
pub open spec fn local_after(local: Set<Seq<char>>, moves: Seq<Travel>) -> Set<Seq<char>>
    decreases moves.len(),
{
    if moves.len() == 0 {
        local
    } else {
        let before = local_after(local, moves.drop_last());
        match moves.last() {
            Travel::Push(_) => before,
            Travel::Pull(name) => before.insert(name),
            Travel::Local(act) => name_change(before, act),
        }
    }
}

/// A secret about to be overwritten from the far side goes into the versions first.
pub open spec fn losing_acts(local: Set<Seq<char>>, name: Seq<char>, now: int) -> Seq<Act> {
    if is_secret(name) {
        keep_acts(local, stem(file_name(name)), now)
    } else {
        Seq::empty()
    }
}

/// What a sync does for one file.
pub open spec fn visit(
    ours: Map<Seq<char>, i128>,
    theirs: Map<Seq<char>, i128>,
    local: Set<Seq<char>>,
    name: Seq<char>,
    now: int,
) -> Seq<Travel> {
    match way_of(ours, theirs, name) {
        Way::Out => seq![Travel::Push(name)],
        Way::In => losing_acts(local, name, now).map_values(|a: Act| Travel::Local(a)).push(
            Travel::Pull(name),
        ),
        Way::Neither => Seq::empty(),
    }
}

/// What a sync does for some files, one after another.
pub open spec fn visits(
    ours: Map<Seq<char>, i128>,
    theirs: Map<Seq<char>, i128>,
    local: Set<Seq<char>>,
    names: Seq<Seq<char>>,
    now: int,
) -> Seq<Travel>
    decreases names.len(),
{
    if names.len() == 0 {
        Seq::empty()
    } else {
        let before = visits(ours, theirs, local, names.drop_last(), now);
        before + visit(ours, theirs, local_after(local, before), names.last(), now)
    }
}

/// The files that a sync looks at: every one on either side, each once, in the order of their paths.
pub open spec fn visited(ours: Map<Seq<char>, i128>, theirs: Map<Seq<char>, i128>) -> Seq<
    Seq<char>,
> {
    in_path_order(ours.dom().union(theirs.dom()))
}

/// How many of some files go this way.
pub open spec fn going(
    ours: Map<Seq<char>, i128>,
    theirs: Map<Seq<char>, i128>,
    names: Seq<Seq<char>>,
    way: Way,
) -> nat
    decreases names.len(),
{
    if names.len() == 0 {
        0
    } else {
        going(ours, theirs, names.drop_last(), way) + if way_of(ours, theirs, names.last()) == way {
            1nat
        } else {
            0
        }
    }
}

/// Keeping a version never makes for more files than there were.
pub proof fn lemma_keep_len(names: Set<Seq<char>>, steps: Seq<Act>)
    requires
        names.finite(),
        forall|i: int| 0 <= i < steps.len() ==> !(#[trigger] steps[i] is Write),
    ensures
        names_after(names, steps).finite(),
        names_after(names, steps).len() <= names.len(),
    decreases steps.len(),
{
    if steps.len() > 0 {
        let front = steps.drop_last();
        assert forall|i: int| 0 <= i < front.len() implies !(#[trigger] front[i] is Write) by {
            assert(front[i] == steps[i]);
        }
        lemma_keep_len(names, front);
        let before = names_after(names, front);
        assert(!(steps[steps.len() - 1] is Write));
        match steps.last() {
            Act::RemoveTree(dir) => {
                let after = name_change(before, steps.last());
                assert(after.subset_of(before));
                vstd::set_lib::lemma_len_subset(after, before);
            },
            _ => {},
        }
    }
}

proof fn lemma_keep_writes_nothing(names: Set<Seq<char>>, id: Seq<char>, now: int)
    ensures
        forall|i: int|
            0 <= i < keep_acts(names, id, now).len() ==> !(#[trigger] keep_acts(
                names,
                id,
                now,
            )[i] is Write),
{
}

/// Adding what is done here to what a sync does.
fn add_local(moves: &mut Vec<Move>, steps: Vec<Step>)
    ensures
        travels(final(moves)@) == travels(old(moves)@) + acts(steps@).map_values(
            |a: Act| Travel::Local(a),
        ),
{
    let ghost before = travels(moves@);
    let ghost all = acts(steps@).map_values(|a: Act| Travel::Local(a));
    let mut steps = steps;
    let ghost whole = steps@;
    let ghost mut i: int = 0;
    while steps.len() > 0
        invariant
            0 <= i <= whole.len(),
            steps@ == whole.skip(i),
            all == acts(whole).map_values(|a: Act| Travel::Local(a)),
            travels(moves@) == before + all.take(i),
        decreases steps@.len(),
    {
        let step = steps.remove(0);
        let ghost so_far = travels(moves@);
        assert(step == whole[i]);
        assert(steps@ =~= whole.skip(i + 1));
        moves.push(Move::Local(step));
        assert(travels(moves@) =~= so_far.push(Travel::Local(step@)));
        assert(all[i] == Travel::Local(step@));
        assert(so_far.push(Travel::Local(step@)) =~= before + all.take(i + 1));
        proof {
            i = i + 1;
        }
    }
    assert(all.take(i) =~= all);
}

proof fn lemma_local_add(local: Set<Seq<char>>, a: Seq<Travel>, b: Seq<Travel>)
    ensures
        local_after(local, a + b) == local_after(local_after(local, a), b),
    decreases b.len(),
{
    if b.len() == 0 {
        assert(a + b =~= a);
    } else {
        lemma_local_add(local, a, b.drop_last());
        assert((a + b).drop_last() =~= a + b.drop_last());
    }
}

proof fn lemma_local_acts(local: Set<Seq<char>>, steps: Seq<Act>)
    ensures
        local_after(local, steps.map_values(|a: Act| Travel::Local(a))) == names_after(
            local,
            steps,
        ),
    decreases steps.len(),
{
    let moves = steps.map_values(|a: Act| Travel::Local(a));
    if steps.len() > 0 {
        lemma_local_acts(local, steps.drop_last());
        assert(moves.drop_last() =~= steps.drop_last().map_values(|a: Act| Travel::Local(a)));
    }
}

/// Whether a destination can be copied to: one with a colon looks like an rclone remote.
pub fn check_directory(remote: &str) -> (r: Result<(), Problem>)
    ensures
        match r {
            Ok(_) => !remote@.contains(':'),
            Err(Problem::NotADirectory(text)) => remote@.contains(':') && text@ == remote@,
            Err(_) => false,
        },
{
    if has_char(remote, ':') {
        Err(Problem::NotADirectory(remote.to_string()))
    } else {
        Ok(())
    }
}

/// Take one file of a sync.
fn visit_one(
    store: &Store,
    local: &mut Listing,
    ours: &Table<i128>,
    theirs: &Table<i128>,
    name: &str,
    now: u64,
    moves: &mut Vec<Move>,
) -> (r: Way)
    requires
        now + old(local)@.len() < u64::MAX,
    ensures
        r == way_of(ours@, theirs@, name@),
        travels(final(moves)@) == travels(old(moves)@) + visit(
            ours@,
            theirs@,
            old(local)@,
            name@,
            now as int,
        ),
        final(local)@ == local_after(
            old(local)@,
            visit(ours@, theirs@, old(local)@, name@, now as int),
        ),
        final(local)@.len() <= old(local)@.len() + 1,
{
    let ghost names = local@;
    let ghost before = travels(moves@);
    let mine = ours.get(name);
    let far = theirs.get(name);
    let way = match (mine, far) {
        (Some(_), None) => Way::Out,
        (None, Some(_)) => Way::In,
        (Some(a), Some(b)) => if *a > *b {
            Way::Out
        } else if *b > *a {
            Way::In
        } else {
            Way::Neither
        },
        (None, None) => Way::Neither,
    };
    let ghost done = visit(ours@, theirs@, names, name@, now as int);
    match way {
        Way::Out => {
            moves.push(Move::Push(name.to_string()));
            assert(travels(moves@) =~= before + done);
            assert(done.drop_last() =~= Seq::<Travel>::empty());
            assert(local_after(names, done) == local_after(names, done.drop_last()));
        },
        Way::In => {
            let ghost lost = losing_acts(names, name@, now as int);
            let ghost lost_moves = lost.map_values(|a: Act| Travel::Local(a));
            let n = local.len();
            if let Some(id) = id_in(name) {
                let steps = store.keep_version(local, id.as_str(), now);
                add_local(moves, steps);
                proof {
                    lemma_keep_writes_nothing(names, id@, now as int);
                    lemma_keep_len(names, lost);
                }
            } else {
                assert(lost_moves =~= Seq::<Travel>::empty());
                assert(before + lost_moves =~= before);
            }
            let ghost mid = travels(moves@);
            assert(mid == before + lost_moves);
            proof {
                lemma_local_acts(names, lost);
            }
            let pulled = Step::Write { path: name.to_string(), bytes: Vec::new() };
            local.note(&pulled);
            moves.push(Move::Pull(name.to_string()));
            assert(travels(moves@) =~= mid.push(Travel::Pull(name@)));
            assert(travels(moves@) =~= before + done);
            assert(done.drop_last() =~= lost_moves);
        },
        Way::Neither => {
            assert(before + done =~= before);
        },
    }
    way
}

/// Union both sides, newest modification time wins, and keep whatever it replaced. `local` lists
/// every file here, `ours` and `theirs` the ones on each side that travel.
pub fn sync(
    store: &Store,
    remote: &str,
    local: &mut Listing,
    ours: &Table<i128>,
    theirs: &Table<i128>,
    now: u64,
) -> (r: Result<(Report, Vec<Move>), Problem>)
    requires
        paths_ok(ours@.dom()),
        paths_ok(theirs@.dom()),
        now + old(local)@.len() + ours@.dom().len() + theirs@.dom().len() < u64::MAX,
    ensures
        match r {
            Ok((report, moves)) => {
                let names = visited(ours@, theirs@);
                &&& !remote@.contains(':')
                &&& travels(moves@) == visits(ours@, theirs@, old(local)@, names, now as int)
                &&& final(local)@ == local_after(old(local)@, travels(moves@))
                &&& report.pushed == going(ours@, theirs@, names, Way::Out)
                &&& report.pulled == going(ours@, theirs@, names, Way::In)
            },
            Err(Problem::NotADirectory(text)) => remote@.contains(':') && text@ == remote@
                && final(local)@ == old(local)@,
            Err(_) => false,
        },
{
    if let Err(e) = check_directory(remote) {
        return Err(e);
    }
    let ghost start = local@;
    let here = ours.keys();
    let there = theirs.keys();
    let n_ours = ours.len();
    let n_theirs = theirs.len();
    let mut either = here;
    let mut more = there;
    let ghost a = texts(either@);
    let ghost b = texts(more@);
    either.append(&mut more);
    let ghost union = ours@.dom().union(theirs@.dom());
    proof {
        assert(texts(either@) =~= a + b);
        assert forall|n: Seq<char>| texts(either@).to_set().contains(n) == union.contains(n) by {
            assert(a.to_set().contains(n) == ours@.dom().contains(n));
            assert(b.to_set().contains(n) == theirs@.dom().contains(n));
            crate::broker::lemma_contains_add(a, b, n);
        }
        assert(texts(either@).to_set() =~= union);
    }
    let names = sort_paths(&either);
    let ghost all = texts(names@);
    proof {
        lemma_paths_len(union, all);
        vstd::set_lib::lemma_len_union(ours@.dom(), theirs@.dom());
    }
    assert(all == visited(ours@, theirs@));
    let count = local.len();
    let mut moves: Vec<Move> = Vec::new();
    let mut pushed: usize = 0;
    let mut pulled: usize = 0;
    let mut i: usize = 0;
    assert(travels(moves@) =~= visits(ours@, theirs@, start, all.take(0), now as int));
    while i < names.len()
        invariant
            i <= names@.len(),
            all == texts(names@),
            all.len() <= ours@.dom().len() + theirs@.dom().len(),
            now + count + names@.len() < u64::MAX,
            count == start.len(),
            local@.len() <= count + i,
            travels(moves@) == visits(ours@, theirs@, start, all.take(i as int), now as int),
            local@ == local_after(start, travels(moves@)),
            pushed <= i,
            pulled <= i,
            pushed == going(ours@, theirs@, all.take(i as int), Way::Out),
            pulled == going(ours@, theirs@, all.take(i as int), Way::In),
        decreases names@.len() - i,
    {
        proof {
            assert(all.take(i + 1).drop_last() =~= all.take(i as int));
            assert(all.take(i + 1).last() == names@[i as int]@);
        }
        let ghost before = travels(moves@);
        let ghost held = local@;
        let way = visit_one(store, local, ours, theirs, names[i].as_str(), now, &mut moves);
        proof {
            lemma_local_add(
                start,
                before,
                visit(ours@, theirs@, held, names@[i as int]@, now as int),
            );
        }
        match way {
            Way::Out => {
                pushed = pushed + 1;
            },
            Way::In => {
                pulled = pulled + 1;
            },
            Way::Neither => {},
        }
        i = i + 1;
    }
    assert(all.take(i as int) =~= all);
    Ok((Report { pushed, pulled }, moves))
}

/// A list of paths has as many as there are, each once.
pub proof fn lemma_paths_len(names: Set<Seq<char>>, v: Seq<Seq<char>>)
    requires
        lists_paths(names, v),
    ensures
        v.len() == names.len(),
        v.no_duplicates(),
{
    assert forall|i: int, j: int| 0 <= i < j < v.len() implies v[i] != v[j] by {
        assert(path_keys(v)[i] == path_key(v[i]) && path_keys(v)[j] == path_key(v[j]));
        crate::order::lemma_less(path_keys(v)[i], path_keys(v)[j]);
    }
    v.unique_seq_to_set();
}

/// How rclone is called: what stays at home is filtered out.
pub open spec fn rclone_words(store: Seq<char>, remote: Seq<char>) -> Seq<Seq<char>> {
    seq![
        "bisync"@,
        store,
        remote,
        "--filter"@,
        "- broker.sock"@,
        "--filter"@,
        "- .versions/**"@,
        "--filter"@,
        "- /names"@,
        "--filter"@,
        "- /remote"@,
        "--filter"@,
        "- /grants-*.age"@,
        "--resync-mode=newer"@,
    ]
}

/// How rclone is called. It covers every backend it supports, and nobody on the default path needs
/// it installed.
pub fn rclone_args(store: &Store, remote: &str) -> (r: Vec<String>)
    ensures
        texts(r@) == rclone_words(store.dir@, remote@),
{
    let mut r: Vec<String> = Vec::new();
    r.push("bisync".to_string());
    r.push(store.dir.clone());
    r.push(remote.to_string());
    r.push("--filter".to_string());
    r.push("- broker.sock".to_string());
    r.push("--filter".to_string());
    r.push("- .versions/**".to_string());
    r.push("--filter".to_string());
    r.push("- /names".to_string());
    r.push("--filter".to_string());
    r.push("- /remote".to_string());
    r.push("--filter".to_string());
    r.push("- /grants-*.age".to_string());
    r.push("--resync-mode=newer".to_string());
    assert(texts(r@) =~= rclone_words(store.dir@, remote@));
    r
}

/// What came of rclone: `None` where it could not be started, and else whether it succeeded.
pub fn sync_via_rclone(ran: Option<bool>) -> (r: Result<(), Problem>)
    ensures
        match r {
            Ok(_) => ran == Some(true),
            Err(Problem::RcloneFailed) => ran == Some(false),
            Err(Problem::NoRclone) => ran is None,
            Err(_) => false,
        },
{
    match ran {
        Some(true) => Ok(()),
        Some(false) => Err(Problem::RcloneFailed),
        None => Err(Problem::NoRclone),
    }
}

// ---------------------------------------------------------------------------------------------
// What these promise

/// A destination is told by its shape: a git address begins as one or ends in `.git`, a path begins
/// with a slash, a tilde or a dot, anything else with a colon in it is an rclone remote, and the rest
/// is a directory. The space around it makes no difference.
pub proof fn the_shape_tells_the_kind(remote: Seq<char>)
    ensures
        ({
            let r = trim(remote);
            let n = r.len() as int;
            let git = (n >= 4 && r.take(4) == "git@"@) || (n >= 6 && r.take(6) == "ssh://"@) || (n >= 8
                && r.take(8) == "https://"@) || (n >= 4 && r.skip(n - 4) == ".git"@);
            let path = n > 0 && (r[0] == '/' || r[0] == '~' || r[0] == '.');
            &&& git ==> kind_of(remote) == Kind::Git
            &&& !git && path ==> kind_of(remote) == Kind::Directory
            &&& !git && !path && r.contains(':') ==> kind_of(remote) == Kind::Rclone
            &&& !git && !path && !r.contains(':') ==> kind_of(remote) == Kind::Directory
        }),
{
    reveal_strlit("git@");
    reveal_strlit("ssh://");
    reveal_strlit("https://");
    reveal_strlit(".git");
    reveal_strlit("/");
    reveal_strlit("~");
    reveal_strlit(".");
    let r = trim(remote);
    let n = r.len() as int;
    assert(n >= 4 ==> r.take(4) =~= r.subrange(0, 4));
    assert(n >= 6 ==> r.take(6) =~= r.subrange(0, 6));
    assert(n >= 8 ==> r.take(8) =~= r.subrange(0, 8));
    assert(n >= 4 ==> r.skip(n - 4) =~= r.subrange(n - 4, n));
    assert forall|c: char| n > 0 && #[trigger] r[0] == c implies r.subrange(0, 1) =~= seq![c] by {}
    assert("/"@ =~= seq!['/']);
    assert("~"@ =~= seq!['~']);
    assert("."@ =~= seq!['.']);
    if n > 0 {
        assert(r.subrange(0, 1)[0] == r[0]);
    }
}

/// A chosen destination is what its file holds without the space around it, and none where that is
/// nothing.
pub proof fn a_blank_choice_is_none(text: Seq<char>)
    ensures
        chosen_remote(None) is None,
        trim(text).len() == 0 ==> chosen_remote(Some(text)) is None,
        trim(text).len() > 0 ==> chosen_remote(Some(text)) == Some(trim(text)),
{
}

/// rclone is told to keep back what stays at home and nothing more, goes both ways between the store
/// and the remote, and lets the newer side win.
pub proof fn rclone_keeps_back_what_stays_home(store: Seq<char>, remote: Seq<char>, i: int)
    ensures
        ({
            let w = rclone_words(store, remote);
            &&& w[0] == "bisync"@ && w[1] == store && w[2] == remote
            &&& w.last() == "--resync-mode=newer"@
            &&& w.contains("- broker.sock"@) && w.contains("- .versions/**"@) && w.contains("- /names"@)
            &&& w.contains("- /remote"@) && w.contains("- /grants-*.age"@)
            &&& 2 < i < w.len() - 1 && w[i] != "--filter"@ ==> w[i - 1] == "--filter"@ && (w[i]
                == "- broker.sock"@ || w[i] == "- .versions/**"@ || w[i] == "- /names"@ || w[i]
                == "- /remote"@ || w[i] == "- /grants-*.age"@)
        }),
{
    let w = rclone_words(store, remote);
    assert(w[4] == "- broker.sock"@ && w[6] == "- .versions/**"@ && w[8] == "- /names"@);
    assert(w[10] == "- /remote"@ && w[12] == "- /grants-*.age"@);
    assert(w[3] == "--filter"@ && w[5] == "--filter"@ && w[7] == "--filter"@);
    assert(w[9] == "--filter"@ && w[11] == "--filter"@ && w.len() == 14);
}

} // verus!

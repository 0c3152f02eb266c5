//! The files of a store, the steps that change them, and what a run of steps leaves behind.
//!
//! Nothing here touches a file. An operation of the store returns the steps to take, in order, and
//! whoever holds the file system takes them. Paths are relative to the store's directory and use
//! `/`; a path that begins with `/` stands for itself.

use crate::order::{ascending, in_order, insert_ascending, lemma_in_order, sort_dedup};
use crate::text::{
    after_last, cat2, cat3, copy_texts, from_chars, has_prefix, has_text, lemma_rcut,
    lemma_rcut_unique, rcut, same, starts_with, texts, to_chars,
};
use vstd::prelude::*;
use vstd::slice::slice_to_vec;
use vstd::string::*;

verus! {

// ---------------------------------------------------------------------------------------------
// Paths

/// `b` below `a`, as `Path::join` has it: an absolute `b` stands alone.
pub open spec fn path_join(a: Seq<char>, b: Seq<char>) -> Seq<char> {
    if b.len() > 0 && b[0] == '/' {
        b
    } else if a.len() == 0 || a.last() == '/' {
        a + b
    } else {
        a + "/"@ + b
    }
}

/// `b` below `a`.
pub fn join(a: &str, b: &str) -> (r: String)
    ensures
        r@ == path_join(a@, b@),
{
    let x = to_chars(a);
    let y = to_chars(b);
    if y.len() > 0 && y[0] == '/' {
        b.to_string()
    } else if x.len() == 0 || x[x.len() - 1] == '/' {
        cat2(a, b)
    } else {
        cat3(a, "/", b)
    }
}

/// The part of a path after its last `/`.
pub open spec fn file_name(path: Seq<char>) -> Seq<char> {
    path.subrange(rcut(path, '/') + 1, path.len() as int)
}

/// The part of a path before its last `/`, if it has one.
pub open spec fn parent(path: Seq<char>) -> Option<Seq<char>> {
    if rcut(path, '/') >= 0 {
        Some(path.take(rcut(path, '/')))
    } else {
        None
    }
}

/// A file name without its extension: a dot in front begins no extension.
pub open spec fn stem(name: Seq<char>) -> Seq<char> {
    if rcut(name, '.') <= 0 {
        name
    } else {
        name.take(rcut(name, '.'))
    }
}

/// The extension of a file name, without the dot.
pub open spec fn extension(name: Seq<char>) -> Option<Seq<char>> {
    if rcut(name, '.') <= 0 {
        None
    } else {
        Some(name.subrange(rcut(name, '.') + 1, name.len() as int))
    }
}

/// A path that ends in a name, not in `/`, `.` or `..`.
pub open spec fn names_a_file(path: Seq<char>) -> bool {
    file_name(path).len() > 0 && file_name(path) != "."@ && file_name(path) != ".."@
}

/// Where a file is written before it is moved into place: beside it, with the extension `tmp`.
pub open spec fn temporary(path: Seq<char>) -> Seq<char> {
    path.take(rcut(path, '/') + 1) + stem(file_name(path)) + ".tmp"@
}

/// The part of a path after its last `/`.
pub fn name_of(path: &str) -> (r: String)
    ensures
        r@ == file_name(path@),
{
    let v = to_chars(path);
    let at = after_last(&v, '/');
    proof {
        lemma_rcut(path@, '/');
    }
    from_chars(&v, at, v.len())
}

/// The part of a path before its last `/`, if it has one.
pub fn parent_of(path: &str) -> (r: Option<String>)
    ensures
        match r {
            Some(p) => parent(path@) == Some(p@),
            None => parent(path@) is None,
        },
{
    let v = to_chars(path);
    let at = after_last(&v, '/');
    proof {
        lemma_rcut(path@, '/');
    }
    if at == 0 {
        None
    } else {
        let p = from_chars(&v, 0, at - 1);
        assert(p@ =~= path@.take(rcut(path@, '/')));
        Some(p)
    }
}

/// A file name cut into its stem and its extension.
pub fn stem_and_extension(name: &str) -> (r: (String, Option<String>))
    ensures
        r.0@ == stem(name@),
        match r.1 {
            Some(e) => extension(name@) == Some(e@),
            None => extension(name@) is None,
        },
{
    let v = to_chars(name);
    let at = after_last(&v, '.');
    proof {
        lemma_rcut(name@, '.');
    }
    if at <= 1 {
        (name.to_string(), None)
    } else {
        let s = from_chars(&v, 0, at - 1);
        assert(s@ =~= name@.take(rcut(name@, '.')));
        (s, Some(from_chars(&v, at, v.len())))
    }
}

/// Whether a path ends in a name that a file can have.
pub fn is_file_name(path: &str) -> (r: bool)
    ensures
        r == names_a_file(path@),
{
    let name = name_of(path);
    let v = to_chars(name.as_str());
    v.len() > 0 && !same(name.as_str(), ".") && !same(name.as_str(), "..")
}

/// Where a file is written before it is moved into place.
pub fn temporary_of(path: &str) -> (r: String)
    ensures
        r@ == temporary(path@),
{
    let v = to_chars(path);
    let at = after_last(&v, '/');
    proof {
        lemma_rcut(path@, '/');
    }
    let name = from_chars(&v, at, v.len());
    let front = from_chars(&v, 0, at);
    assert(front@ =~= path@.take(rcut(path@, '/') + 1));
    assert(name@ =~= file_name(path@));
    let (s, _) = stem_and_extension(name.as_str());
    cat3(front.as_str(), s.as_str(), ".tmp")
}

/// The file in `dir` with this stem and extension.
pub open spec fn file_in(dir: Seq<char>, stem: Seq<char>, ext: Seq<char>) -> Seq<char> {
    dir + "/"@ + stem + "."@ + ext
}

/// A file in a directory is taken apart into what it was put together from.
pub proof fn lemma_file_in(dir: Seq<char>, s: Seq<char>, ext: Seq<char>)
    requires
        s.len() > 0,
        !s.contains('/'),
        !ext.contains('/'),
        !ext.contains('.'),
    ensures
        parent(file_in(dir, s, ext)) == Some(dir),
        file_name(file_in(dir, s, ext)) == s + "."@ + ext,
        stem(s + "."@ + ext) == s,
        extension(s + "."@ + ext) == Some(ext),
{
    reveal_strlit("/");
    reveal_strlit(".");
    let name = s + "."@ + ext;
    let path = file_in(dir, s, ext);
    let at = dir.len() as int;
    assert forall|j: int| at < j < path.len() implies path[j] != '/' by {
        let k = j - at - 1;
        assert(path[j] == name[k]);
        if k < s.len() {
            assert(s.contains(s[k]));
        } else if k > s.len() {
            assert(ext.contains(ext[k - s.len() - 1]));
        }
    }
    lemma_rcut_unique(path, '/', at);
    assert(path.take(at) =~= dir);
    assert(path.subrange(at + 1, path.len() as int) =~= name);
    let dot = s.len() as int;
    assert forall|j: int| dot < j < name.len() implies name[j] != '.' by {
        assert(ext.contains(ext[j - dot - 1]));
    }
    lemma_rcut_unique(name, '.', dot);
    assert(name.take(dot) =~= s);
    assert(name.subrange(dot + 1, name.len() as int) =~= ext);
}

/// A path with a parent and an extension is put together from its parts.
pub proof fn lemma_parts(path: Seq<char>)
    requires
        parent(path) is Some,
        extension(file_name(path)) is Some,
    ensures
        path == file_in(parent(path)->0, stem(file_name(path)), extension(file_name(path))->0),
        stem(file_name(path)).len() > 0,
        !stem(file_name(path)).contains('/'),
{
    reveal_strlit("/");
    reveal_strlit(".");
    lemma_rcut(path, '/');
    let name = file_name(path);
    lemma_rcut(name, '.');
    let at = rcut(path, '/');
    let dot = rcut(name, '.');
    assert(path =~= file_in(path.take(at), name.take(dot), name.subrange(
        dot + 1,
        name.len() as int,
    )));
    assert forall|k: int| 0 <= k < dot implies #[trigger] stem(name)[k] != '/' by {
        assert(path[at + 1 + k] == name[k]);
    }
}

/// A path that ends in three or more characters other than `/` names a file.
pub proof fn lemma_names_a_file(front: Seq<char>, tail: Seq<char>)
    requires
        tail.len() >= 3,
        !tail.contains('/'),
    ensures
        names_a_file(front + tail),
{
    reveal_strlit(".");
    reveal_strlit("..");
    let path = front + tail;
    lemma_rcut(path, '/');
    let at = rcut(path, '/');
    if at >= front.len() {
        assert(path[at] == tail[at - front.len()]);
        assert(tail.contains('/'));
    }
    assert(file_name(path).len() >= 3);
}

// ---------------------------------------------------------------------------------------------
// Steps

/// A change to the files.
pub enum Act {
    /// Create a directory and its parents, closed to other users
    MakeDir(Seq<char>),
    /// Write a file, closed to other users
    Write(Seq<char>, Seq<u8>),
    /// Move the first to the second, replacing it
    Rename(Seq<char>, Seq<char>),
    /// Remove a file
    Remove(Seq<char>),
    /// Remove a directory and everything in it
    RemoveTree(Seq<char>),
}

/// A change to the files, to be made by whoever holds them.
pub enum Step {
    /// Create a directory and its parents, closed to other users
    MakeDir(String),
    /// Write a file, closed to other users
    Write { path: String, bytes: Vec<u8> },
    /// Move a file, replacing whatever was there
    Rename { from: String, to: String },
    /// Remove a file
    Remove(String),
    /// Remove a directory and everything in it. That there is none is no failure.
    RemoveTree(String),
}

impl View for Step {
    type V = Act;

    open spec fn view(&self) -> Act {
        match self {
            Step::MakeDir(path) => Act::MakeDir(path@),
            Step::Write { path, bytes } => Act::Write(path@, bytes@),
            Step::Rename { from, to } => Act::Rename(from@, to@),
            Step::Remove(path) => Act::Remove(path@),
            Step::RemoveTree(path) => Act::RemoveTree(path@),
        }
    }
}

/// The changes that steps stand for.
pub open spec fn acts(steps: Seq<Step>) -> Seq<Act> {
    steps.map_values(|s: Step| s@)
}

/// A file.
pub struct File {
    /// What it holds
    pub bytes: Seq<u8>,
    /// When it was last written
    pub modified: i128,
}

/// `path` lies in the directory `dir`, at any depth.
pub open spec fn below(path: Seq<char>, dir: Seq<char>) -> bool {
    starts_with(path, dir + "/"@)
}

/// The files after one change, made at the time `at`.
pub open spec fn apply(disk: Map<Seq<char>, File>, act: Act, at: i128) -> Map<Seq<char>, File> {
    match act {
        Act::MakeDir(_) => disk,
        Act::Write(path, bytes) => disk.insert(path, File { bytes, modified: at }),
        Act::Rename(from, to) => if disk.contains_key(from) {
            disk.remove(from).insert(to, disk[from])
        } else {
            disk
        },
        Act::Remove(path) => disk.remove(path),
        Act::RemoveTree(dir) => disk.remove_keys(
            Set::new(|path: Seq<char>| below(path, dir) && disk.contains_key(path)),
        ),
    }
}

/// The files after a run of changes.
pub open spec fn run(disk: Map<Seq<char>, File>, steps: Seq<Act>, at: i128) -> Map<Seq<char>, File>
    decreases steps.len(),
{
    if steps.len() == 0 {
        disk
    } else {
        apply(run(disk, steps.drop_last(), at), steps.last(), at)
    }
}

/// Which files there are after one change.
pub open spec fn name_change(names: Set<Seq<char>>, act: Act) -> Set<Seq<char>> {
    match act {
        Act::MakeDir(_) => names,
        Act::Write(path, _) => names.insert(path),
        Act::Rename(from, to) => if names.contains(from) {
            names.remove(from).insert(to)
        } else {
            names
        },
        Act::Remove(path) => names.remove(path),
        Act::RemoveTree(dir) => names.filter(|path: Seq<char>| !below(path, dir)),
    }
}

/// Which files there are after a run of changes.
pub open spec fn names_after(names: Set<Seq<char>>, steps: Seq<Act>) -> Set<Seq<char>>
    decreases steps.len(),
{
    if steps.len() == 0 {
        names
    } else {
        name_change(names_after(names, steps.drop_last()), steps.last())
    }
}

/// Which files there are after a run depends on which there were, not on what they held.
pub proof fn names_follow_the_files(disk: Map<Seq<char>, File>, steps: Seq<Act>, at: i128)
    ensures
        run(disk, steps, at).dom() == names_after(disk.dom(), steps),
    decreases steps.len(),
{
    if steps.len() > 0 {
        names_follow_the_files(disk, steps.drop_last(), at);
        let before = run(disk, steps.drop_last(), at);
        assert(apply(before, steps.last(), at).dom() =~= name_change(before.dom(), steps.last()));
    }
}

/// Running two lists one after the other is running them as one.
pub proof fn lemma_run_add(disk: Map<Seq<char>, File>, a: Seq<Act>, b: Seq<Act>, at: i128)
    ensures
        run(disk, a + b, at) == run(run(disk, a, at), b, at),
    decreases b.len(),
{
    if b.len() == 0 {
        assert(a + b =~= a);
    } else {
        lemma_run_add(disk, a, b.drop_last(), at);
        assert((a + b).drop_last() =~= a + b.drop_last());
    }
}

/// Running two lists one after the other is running them as one.
pub proof fn lemma_names_add(names: Set<Seq<char>>, a: Seq<Act>, b: Seq<Act>)
    ensures
        names_after(names, a + b) == names_after(names_after(names, a), b),
    decreases b.len(),
{
    if b.len() == 0 {
        assert(a + b =~= a);
    } else {
        lemma_names_add(names, a, b.drop_last());
        assert((a + b).drop_last() =~= a + b.drop_last());
    }
}

/// Make a directory that other users cannot enter.
pub fn private_dir(path: &str) -> (r: Step)
    ensures
        r@ == Act::MakeDir(path@),
{
    Step::MakeDir(path.to_string())
}

/// Write through a temporary file beside the target, so that a crash cannot leave a half written
/// secret.
pub open spec fn write_acts(path: Seq<char>, bytes: Seq<u8>) -> Seq<Act> {
    seq![Act::Write(temporary(path), bytes), Act::Rename(temporary(path), path)]
}

/// Write through a temporary file beside the target.
pub fn write_private(path: &str, bytes: &[u8]) -> (r: Vec<Step>)
    requires
        names_a_file(path@),
    ensures
        acts(r@) == write_acts(path@, bytes@),
{
    let tmp = temporary_of(path);
    let mut steps: Vec<Step> = Vec::new();
    steps.push(Step::Write { path: tmp.clone(), bytes: slice_to_vec(bytes) });
    steps.push(Step::Rename { from: tmp, to: path.to_string() });
    assert(acts(steps@) =~= write_acts(path@, bytes@));
    steps
}

/// Wherever a write stops, the target holds what it held before or all of what was written, and
/// only the target and its temporary file are touched. The target is no temporary file itself.
pub proof fn a_write_is_whole(
    disk: Map<Seq<char>, File>,
    path: Seq<char>,
    bytes: Seq<u8>,
    done: int,
    at: i128,
)
    requires
        0 <= done <= 2,
        temporary(path) != path,
    ensures
        ({
            let after = run(disk, write_acts(path, bytes).take(done), at);
            &&& done < 2 ==> after.contains_key(path) == disk.contains_key(path) && after[path]
                == disk[path]
            &&& done == 2 ==> after.contains_key(path) && after[path].bytes == bytes
                && !after.contains_key(temporary(path))
            &&& forall|other: Seq<char>|
                other != path && other != temporary(path) ==> #[trigger] after.contains_key(other)
                    == disk.contains_key(other) && after[other] == disk[other]
        }),
{
    let w = write_acts(path, bytes);
    reveal_with_fuel(run, 3);
    if done == 0 {
        assert(w.take(0) =~= Seq::<Act>::empty());
    } else if done == 1 {
        assert(w.take(1) =~= seq![w[0]]);
        assert(seq![w[0]].drop_last() =~= Seq::<Act>::empty());
    } else {
        assert(w.take(2) =~= seq![w[0], w[1]]);
        assert(seq![w[0], w[1]].drop_last() =~= seq![w[0]]);
        assert(seq![w[0]].drop_last() =~= Seq::<Act>::empty());
    }
}

// ---------------------------------------------------------------------------------------------
// Which files there are

/// The paths of the files in a directory, each once.
pub struct Listing {
    paths: Vec<String>,
}

impl View for Listing {
    type V = Set<Seq<char>>;

    closed spec fn view(&self) -> Set<Seq<char>> {
        texts(self.paths@).to_set()
    }
}

/// `path` goes when `gone` is removed, alone or as a directory.
spec fn goes(path: Seq<char>, gone: Seq<char>, tree: bool) -> bool {
    if tree {
        below(path, gone)
    } else {
        path == gone
    }
}

/// An ascending list without what goes.
fn without(list: &Vec<String>, gone: &str, tree: bool) -> (r: Vec<String>)
    requires
        ascending(texts(list@)),
    ensures
        ascending(texts(r@)),
        forall|t: Seq<char>| #[trigger]
            texts(r@).contains(t) <==> texts(list@).contains(t) && !goes(t, gone@, tree),
{
    let dir = cat2(gone, "/");
    let mut out: Vec<String> = Vec::new();
    let ghost all = texts(list@);
    let mut i: usize = 0;
    while i < list.len()
        invariant
            i <= list@.len(),
            all == texts(list@),
            dir@ == gone@ + "/"@,
            ascending(all),
            ascending(texts(out@)),
            forall|k: int|
                0 <= k < out@.len() ==> exists|j: int|
                    0 <= j < i && (#[trigger] texts(out@)[k]) == #[trigger] all[j],
            forall|k: int| 0 <= k < out@.len() ==> !goes(#[trigger] texts(out@)[k], gone@, tree),
            forall|j: int|
                0 <= j < i && !goes(#[trigger] all[j], gone@, tree) ==> texts(out@).contains(all[j]),
        decreases list@.len() - i,
    {
        let lost = if tree {
            has_prefix(list[i].as_str(), dir.as_str())
        } else {
            same(list[i].as_str(), gone)
        };
        assert(all[i as int] == list@[i as int]@);
        let ghost old_out = texts(out@);
        if !lost {
            out.push(list[i].clone());
            proof {
                let now = texts(out@);
                assert(now =~= old_out.push(all[i as int]));
                assert forall|j: int| 0 <= j < i && !goes(#[trigger] all[j], gone@, tree) implies now.contains(
                    all[j],
                ) by {
                    let k = choose|k: int| 0 <= k < old_out.len() && old_out[k] == all[j];
                    assert(now[k] == all[j]);
                }
                assert(now[old_out.len() as int] == all[i as int]);
                assert forall|k: int| 0 <= k < now.len() implies exists|j: int|
                    0 <= j < i + 1 && (#[trigger] now[k]) == #[trigger] all[j] by {
                    if k < old_out.len() {
                        assert(now[k] == old_out[k]);
                        let j = choose|j: int| 0 <= j < i && old_out[k] == #[trigger] all[j];
                        assert(now[k] == all[j]);
                    } else {
                        assert(now[k] == all[i as int]);
                    }
                }
                assert forall|k: int, m: int| 0 <= k < m < now.len() implies crate::order::less(
                    #[trigger] now[k],
                    #[trigger] now[m],
                ) by {
                    if m < old_out.len() {
                        assert(now[k] == old_out[k] && now[m] == old_out[m]);
                    } else {
                        assert(now[k] == old_out[k]);
                        let j = choose|j: int| 0 <= j < i && old_out[k] == #[trigger] all[j];
                        assert(crate::order::less(all[j], all[i as int]));
                    }
                }
            }
        }
        i = i + 1;
    }
    out
}

impl Listing {
    /// In order, so that none occurs twice.
    #[verifier::type_invariant]
    spec fn valid(self) -> bool {
        ascending(texts(self.paths@))
    }

    /// The listing of these paths.
    pub fn of(paths: &Vec<String>) -> (r: Listing)
        ensures
            r@ == texts(paths@).to_set(),
    {
        Listing { paths: sort_dedup(paths) }
    }

    /// Whether there is such a file.
    pub fn has(&self, path: &str) -> (r: bool)
        ensures
            r == self@.contains(path@),
    {
        has_text(&self.paths, path)
    }

    /// The paths in order.
    pub fn all(&self) -> (r: Vec<String>)
        ensures
            ascending(texts(r@)),
            texts(r@).to_set() == self@,
            texts(r@) == in_order(self@),
            self@.finite(),
            self@.len() == r@.len(),
    {
        proof {
            use_type_invariant(self);
            let all = texts(self.paths@);
            assert(all.no_duplicates()) by {
                assert forall|i: int, j: int| 0 <= i < j < all.len() implies all[i] != all[j] by {
                    crate::order::lemma_less(all[i], all[j]);
                }
            }
            lemma_in_order(all);
            all.unique_seq_to_set();
            vstd::seq_lib::seq_to_set_is_finite(all);
        }
        copy_texts(&self.paths)
    }

    /// How many files there are.
    pub fn len(&self) -> (r: usize)
        ensures
            r == self@.len(),
            self@.finite(),
    {
        self.all().len()
    }

    /// Take a step down.
    pub fn note(&mut self, step: &Step)
        ensures
            final(self)@ == name_change(old(self)@, step@),
    {
        let mut paths: Vec<String> = Vec::new();
        proof {
            use_type_invariant(&*self);
        }
        let ghost names = self@;
        assert(ascending(texts(paths@)));
        std::mem::swap(&mut paths, &mut self.paths);
        let ghost was = texts(paths@);
        match step {
            Step::MakeDir(_) => {},
            Step::Write { path, .. } => {
                insert_ascending(&mut paths, path.as_str());
            },
            Step::Rename { from, to } => {
                if has_text(&paths, from.as_str()) {
                    paths = without(&paths, from.as_str(), false);
                    assert(texts(paths@).to_set() =~= names.remove(from@));
                    insert_ascending(&mut paths, to.as_str());
                }
            },
            Step::Remove(path) => {
                paths = without(&paths, path.as_str(), false);
            },
            Step::RemoveTree(path) => {
                paths = without(&paths, path.as_str(), true);
            },
        }
        assert(texts(paths@).to_set() =~= name_change(names, step@));
        self.paths = paths;
    }
}

/// Add a step to a list of them, and take it down.
pub fn add_step(steps: &mut Vec<Step>, listing: &mut Listing, step: Step)
    ensures
        acts(final(steps)@) == acts(old(steps)@).push(step@),
        final(listing)@ == name_change(old(listing)@, step@),
        forall|names: Set<Seq<char>>| #[trigger]
            names_after(names, acts(old(steps)@)) == old(listing)@ ==> names_after(
                names,
                acts(final(steps)@),
            ) == final(listing)@,
{
    let ghost before = acts(steps@);
    listing.note(&step);
    steps.push(step);
    assert(acts(steps@) =~= before.push(step@));
    assert(before.push(step@).drop_last() =~= before);
}

/// Add steps to a list of them, and take them down.
pub fn add_steps(steps: &mut Vec<Step>, listing: &mut Listing, more: Vec<Step>)
    ensures
        acts(final(steps)@) == acts(old(steps)@) + acts(more@),
        final(listing)@ == names_after(old(listing)@, acts(more@)),
{
    let ghost added = acts(more@);
    let ghost names = listing@;
    let mut i: usize = 0;
    while i < more.len()
        invariant
            i <= more@.len(),
            added == acts(more@),
            listing@ == names_after(names, added.take(i as int)),
        decreases more@.len() - i,
    {
        listing.note(&more[i]);
        proof {
            assert(added.take(i + 1).drop_last() =~= added.take(i as int));
            assert(added.take(i + 1).last() == more@[i as int]@);
        }
        i = i + 1;
    }
    assert(added.take(i as int) =~= added);
    let ghost before = acts(steps@);
    let mut more = more;
    steps.append(&mut more);
    assert(acts(steps@) =~= before + added);
}

/// Add steps to a list of them, where the listing knows of them already.
pub fn append_steps(steps: &mut Vec<Step>, more: Vec<Step>)
    ensures
        acts(final(steps)@) == acts(old(steps)@) + acts(more@),
{
    let ghost before = acts(steps@);
    let ghost added = acts(more@);
    let mut more = more;
    steps.append(&mut more);
    assert(acts(steps@) =~= before + added);
}

/// A path in a directory is the directory, a slash and the path; one that begins at the root stands by
/// itself.
pub proof fn a_path_lies_in_its_directory(dir: Seq<char>, path: Seq<char>)
    requires
        dir.len() > 0,
        dir.last() != '/',
    ensures
        path.len() == 0 || path[0] != '/' ==> path_join(dir, path) == dir + seq!['/'] + path,
        path.len() > 0 && path[0] == '/' ==> path_join(dir, path) == path,
        path.len() == 0 || path[0] != '/' ==> path_join(dir + seq!['/'], path) == dir + seq!['/'] + path,
        path.len() == 0 || path[0] != '/' ==> path_join(Seq::empty(), path) == path,
{
    reveal_strlit("/");
    assert("/"@ =~= seq!['/']);
    assert(Seq::<char>::empty() + path =~= path);
}

} // verus!

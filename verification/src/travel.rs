//! What a sync promises: the newest copy of a file wins on both sides, what stays at home stays at
//! home, a value that is replaced is kept, and a second sync finds nothing to do.

use crate::disk::{
    apply, file_name, lemma_parts, names_after, names_follow_the_files, parent, run, stem, Act,
    File,
};
use crate::history::{free_stamp, is_version, keep_acts, time_left};
use crate::lookup::is_secret;
use crate::order::{ascending, less, lemma_less, lemma_less_transitive};
use crate::promises::{
    ids_of, keeping_leaves_the_newest_versions, lemma_files, lemma_same_versions,
    lemma_version_dirs, plain_id, replaced_is_newest, same_at,
};
use crate::store::{secret_file, tomb_file, version_dir, version_file};
use crate::sync::{
    going, in_path_order, lists_paths, local_after, losing_acts, path_key, path_keys, paths_ok,
    side_of, skips, stays_home, visit, visited, visits, way_of, Travel, Way,
};
use crate::text::{lemma_rcut, rcut, starts_with};
use vstd::prelude::*;
use vstd::string::*;

verus! {

// ---------------------------------------------------------------------------------------------
// What stays at home

/// Only what travels is on a side, so nothing that stays at home is ever copied either way: grants,
/// versions, the socket, the index and the chosen remote among them.
pub proof fn what_stays_home_never_travels(files: Seq<(String, i128)>, name: Seq<char>)
    requires
        stays_home(name),
    ensures
        !side_of(files).contains_key(name),
    decreases files.len(),
{
    if files.len() > 0 {
        what_stays_home_never_travels(files.drop_last(), name);
    }
}

/// Everything that a sync copies is on one of the sides.
pub proof fn only_the_sides_travel(
    ours: Map<Seq<char>, i128>,
    theirs: Map<Seq<char>, i128>,
    local: Set<Seq<char>>,
    names: Seq<Seq<char>>,
    now: int,
    name: Seq<char>,
)
    requires
        visits(ours, theirs, local, names, now).contains(Travel::Push(name)) || visits(
            ours,
            theirs,
            local,
            names,
            now,
        ).contains(Travel::Pull(name)),
    ensures
        ours.contains_key(name) || theirs.contains_key(name),
    decreases names.len(),
{
    let all = visits(ours, theirs, local, names, now);
    if names.len() > 0 {
        let before = visits(ours, theirs, local, names.drop_last(), now);
        let last = visit(ours, theirs, local_after(local, before), names.last(), now);
        let i = choose|i: int|
            0 <= i < all.len() && (all[i] == Travel::Push(name) || all[i] == Travel::Pull(name));
        if i < before.len() {
            assert(before[i] == all[i]);
            assert(before.contains(all[i]));
            only_the_sides_travel(ours, theirs, local, names.drop_last(), now, name);
        } else {
            assert(last[i - before.len()] == all[i]);
        }
    }
}

// ---------------------------------------------------------------------------------------------
// Two sides

/// The files of both sides after one move.
pub open spec fn step(
    sides: (Map<Seq<char>, File>, Map<Seq<char>, File>),
    t: Travel,
    at: i128,
) -> (Map<Seq<char>, File>, Map<Seq<char>, File>) {
    let (here, there) = sides;
    match t {
        Travel::Push(name) => (
            here,
            if here.contains_key(name) {
                there.insert(name, here[name])
            } else {
                there
            },
        ),
        Travel::Pull(name) => (
            if there.contains_key(name) {
                here.insert(name, there[name])
            } else {
                here
            },
            there,
        ),
        Travel::Local(act) => (apply(here, act, at), there),
    }
}

/// The files of both sides after some moves.
pub open spec fn journey(
    here: Map<Seq<char>, File>,
    there: Map<Seq<char>, File>,
    moves: Seq<Travel>,
    at: i128,
) -> (Map<Seq<char>, File>, Map<Seq<char>, File>)
    decreases moves.len(),
{
    if moves.len() == 0 {
        (here, there)
    } else {
        step(journey(here, there, moves.drop_last(), at), moves.last(), at)
    }
}

/// The modification times of the files that travel.
pub open spec fn times(disk: Map<Seq<char>, File>) -> Map<Seq<char>, i128> {
    Map::new(
        |name: Seq<char>| disk.contains_key(name) && !stays_home(name),
        |name: Seq<char>| disk[name].modified,
    )
}

proof fn lemma_journey_add(
    here: Map<Seq<char>, File>,
    there: Map<Seq<char>, File>,
    a: Seq<Travel>,
    b: Seq<Travel>,
    at: i128,
)
    ensures
        journey(here, there, a + b, at) == journey(
            journey(here, there, a, at).0,
            journey(here, there, a, at).1,
            b,
            at,
        ),
    decreases b.len(),
{
    if b.len() == 0 {
        assert(a + b =~= a);
    } else {
        lemma_journey_add(here, there, a, b.drop_last(), at);
        assert((a + b).drop_last() =~= a + b.drop_last());
    }
}

proof fn lemma_journey_acts(
    here: Map<Seq<char>, File>,
    there: Map<Seq<char>, File>,
    steps: Seq<Act>,
    at: i128,
)
    ensures
        journey(here, there, steps.map_values(|a: Act| Travel::Local(a)), at) == (
            run(here, steps, at),
            there,
        ),
    decreases steps.len(),
{
    let moves = steps.map_values(|a: Act| Travel::Local(a));
    if steps.len() > 0 {
        lemma_journey_acts(here, there, steps.drop_last(), at);
        assert(moves.drop_last() =~= steps.drop_last().map_values(|a: Act| Travel::Local(a)));
    }
}

/// Files in the version directory of an id stay at home.
proof fn lemma_versions_stay(id: Seq<char>, path: Seq<char>)
    requires
        plain_id(id),
        parent(path) == Some(version_dir(id)),
    ensures
        stays_home(path),
{
    reveal_strlit("store/.versions");
    reveal_strlit("/");
    assert(id.contains(id[0]));
    lemma_rcut(path, '/');
    let d = version_dir(id);
    assert(path.take(rcut(path, '/')) == d);
    assert(d.subrange(0, 15) =~= "store/.versions"@);
    assert(d.len() > 15);
    assert(path.take(rcut(path, '/')).len() == d.len());
    assert forall|i: int| 0 <= i < 15 implies path[i] == d[i] by {
        assert(path.take(rcut(path, '/'))[i] == path[i]);
    }
    assert(path.subrange(0, 15) =~= d.subrange(0, 15));
    assert(starts_with(path, "store/.versions"@));
}

/// A secret has a plain id, and its file is where that id's file is.
proof fn lemma_secret(path: Seq<char>)
    requires
        is_secret(path),
    ensures
        plain_id(stem(file_name(path))),
        path == secret_file(stem(file_name(path))),
{
    lemma_parts(path);
    lemma_files(stem(file_name(path)));
}

/// A file here is the one from the far side where it came in, and else as it was.
spec fn here_is(
    here: Map<Seq<char>, File>,
    there: Map<Seq<char>, File>,
    names: Seq<Seq<char>>,
    h: Map<Seq<char>, File>,
    n: Seq<char>,
) -> bool {
    if way_of(times(here), times(there), n) == Way::In && names.contains(n) {
        h.contains_key(n) && h[n] == there[n]
    } else {
        same_at(h, here, n)
    }
}

/// A file on the far side is ours where it went out, and else as it was.
spec fn there_is(
    here: Map<Seq<char>, File>,
    there: Map<Seq<char>, File>,
    names: Seq<Seq<char>>,
    t: Map<Seq<char>, File>,
    n: Seq<char>,
) -> bool {
    if way_of(times(here), times(there), n) == Way::Out && names.contains(n) {
        t.contains_key(n) && t[n] == here[n]
    } else {
        same_at(t, there, n)
    }
}

/// How far a sync has got: everything visited has gone its way, and nothing else has moved.
spec fn gone(
    here: Map<Seq<char>, File>,
    there: Map<Seq<char>, File>,
    names: Seq<Seq<char>>,
    h: Map<Seq<char>, File>,
    t: Map<Seq<char>, File>,
) -> bool {
    &&& forall|n: Seq<char>| !stays_home(n) ==> #[trigger] here_is(here, there, names, h, n)
    &&& forall|n: Seq<char>| !stays_home(n) ==> #[trigger] there_is(here, there, names, t, n)
    &&& forall|n: Seq<char>| stays_home(n) ==> #[trigger] same_at(t, there, n)
}

/// One visit: a file comes in over what was here, which is kept first.
proof fn lemma_visit_in(
    h: Map<Seq<char>, File>,
    t: Map<Seq<char>, File>,
    name: Seq<char>,
    now: int,
    at: i128,
)
    requires
        0 <= now,
        h.dom().finite(),
        !stays_home(name),
        t.contains_key(name),
    ensures
        ({
            let moves = losing_acts(h.dom(), name, now).map_values(
                |a: Act| Travel::Local(a),
            ).push(Travel::Pull(name));
            let (h2, t2) = journey(h, t, moves, at);
            &&& t2 == t
            &&& h2.contains_key(name) && h2[name] == t[name]
            &&& h2.dom().finite()
            &&& h2.dom() == local_after(h.dom(), moves)
            &&& forall|n: Seq<char>|
                n != name && (is_secret(name) ==> parent(n) != Some(
                    version_dir(stem(file_name(name))),
                )) ==> #[trigger] same_at(h2, h, n)
            &&& forall|n: Seq<char>| n != name && !stays_home(n) ==> #[trigger] same_at(h2, h, n)
            &&& h2 == run(h, losing_acts(h.dom(), name, now), at).insert(name, t[name])
        }),
{
    let lost = losing_acts(h.dom(), name, now);
    let lost_moves = lost.map_values(|a: Act| Travel::Local(a));
    let moves = lost_moves.push(Travel::Pull(name));
    assert(moves.drop_last() =~= lost_moves);
    lemma_journey_acts(h, t, lost, at);
    let mid = run(h, lost, at);
    let h2 = mid.insert(name, t[name]);
    assert(journey(h, t, moves, at) == (h2, t));
    names_follow_the_files(h, lost, at);
    lemma_local_names(h.dom(), lost);
    let id = stem(file_name(name));
    if is_secret(name) {
        lemma_secret(name);
        keeping_leaves_the_newest_versions(h, id, now, at);
        assert forall|n: Seq<char>|
            n != name && parent(n) != Some(version_dir(id)) implies #[trigger] same_at(h2, h, n) by {
            assert(same_at(mid, h, n));
        }
        assert forall|n: Seq<char>| n != name && !stays_home(n) implies #[trigger] same_at(
            h2,
            h,
            n,
        ) by {
            if parent(n) == Some(version_dir(id)) {
                lemma_versions_stay(id, n);
            }
            assert(same_at(mid, h, n));
        }
    }
    assert(h2.dom() =~= mid.dom().insert(name));
}

proof fn lemma_local_names(local: Set<Seq<char>>, steps: Seq<Act>)
    ensures
        local_after(local, steps.map_values(|a: Act| Travel::Local(a))) == names_after(
            local,
            steps,
        ),
    decreases steps.len(),
{
    let moves = steps.map_values(|a: Act| Travel::Local(a));
    if steps.len() > 0 {
        lemma_local_names(local, steps.drop_last());
        assert(moves.drop_last() =~= steps.drop_last().map_values(|a: Act| Travel::Local(a)));
    }
}

proof fn lemma_local_split(local: Set<Seq<char>>, a: Seq<Travel>, b: Seq<Travel>)
    ensures
        local_after(local, a + b) == local_after(local_after(local, a), b),
    decreases b.len(),
{
    if b.len() == 0 {
        assert(a + b =~= a);
    } else {
        lemma_local_split(local, a, b.drop_last());
        assert((a + b).drop_last() =~= a + b.drop_last());
    }
}

proof fn lemma_visits(
    here: Map<Seq<char>, File>,
    there: Map<Seq<char>, File>,
    names: Seq<Seq<char>>,
    now: int,
    at: i128,
)
    requires
        0 <= now,
        here.dom().finite(),
        forall|i: int| 0 <= i < names.len() ==> !stays_home(#[trigger] names[i]),
    ensures
        ({
            let moves = visits(times(here), times(there), here.dom(), names, now);
            let (h, t) = journey(here, there, moves, at);
            &&& gone(here, there, names, h, t)
            &&& h.dom().finite()
            &&& h.dom() == local_after(here.dom(), moves)
        }),
    decreases names.len(),
{
    let ours = times(here);
    let theirs = times(there);
    if names.len() > 0 {
        let front = names.drop_last();
        let name = names.last();
        assert(!stays_home(names[names.len() - 1]));
        assert forall|i: int| 0 <= i < front.len() implies !stays_home(#[trigger] front[i]) by {
            assert(front[i] == names[i]);
        }
        lemma_visits(here, there, front, now, at);
        let before = visits(ours, theirs, here.dom(), front, now);
        let (h, t) = journey(here, there, before, at);
        let last = visit(ours, theirs, h.dom(), name, now);
        lemma_journey_add(here, there, before, last, at);
        lemma_local_split(here.dom(), before, last);
        let (h2, t2) = journey(h, t, last, at);
        assert forall|n: Seq<char>| names.contains(n) <==> front.contains(n) || n == name by {
            if names.contains(n) {
                let k = choose|k: int| 0 <= k < names.len() && names[k] == n;
                if k < front.len() {
                    assert(front[k] == n);
                }
            }
            if front.contains(n) {
                let k = choose|k: int| 0 <= k < front.len() && front[k] == n;
                assert(names[k] == n);
            }
            assert(names[names.len() - 1] == name);
        }
        assert(here_is(here, there, front, h, name));
        assert(there_is(here, there, front, t, name));
        match way_of(ours, theirs, name) {
            Way::Out => {
                assert(last.drop_last() =~= Seq::<Travel>::empty());
                assert(journey(h, t, last.drop_last(), at) == (h, t));
                assert(h2 == h && t2 == t.insert(name, here[name]));
                assert(local_after(h.dom(), last.drop_last()) == h.dom());
            },
            Way::In => {
                lemma_visit_in(h, t, name, now, at);
            },
            Way::Neither => {
                assert(before + last =~= before);
            },
        }
        assert forall|n: Seq<char>| !stays_home(n) implies #[trigger] here_is(
            here,
            there,
            names,
            h2,
            n,
        ) by {
            assert(here_is(here, there, front, h, n));
            if n != name {
                assert(same_at(h2, h, n));
            }
        }
        assert forall|n: Seq<char>| !stays_home(n) implies #[trigger] there_is(
            here,
            there,
            names,
            t2,
            n,
        ) by {
            assert(there_is(here, there, front, t, n));
        }
        assert forall|n: Seq<char>| stays_home(n) implies #[trigger] same_at(t2, there, n) by {
            assert(same_at(t, there, n));
        }
        assert(gone(here, there, names, h2, t2));
    } else {
        assert forall|n: Seq<char>| !stays_home(n) implies #[trigger] here_is(
            here,
            there,
            names,
            here,
            n,
        ) && there_is(here, there, names, there, n) by {}
        assert(gone(here, there, names, here, there));
    }
}

// ---------------------------------------------------------------------------------------------
// A finite number of paths can be put in order

proof fn lemma_insert_path(w: Seq<Seq<char>>, p: Seq<char>) -> (v: Seq<Seq<char>>)
    requires
        ascending(path_keys(w)),
        forall|i: int| 0 <= i < w.len() ==> path_key(#[trigger] w[i]) != path_key(p),
    ensures
        ascending(path_keys(v)),
        forall|q: Seq<char>| #[trigger] v.contains(q) <==> w.contains(q) || q == p,
    decreases w.len(),
{
    let wk = path_keys(w);
    if w.len() == 0 {
        let v = seq![p];
        assert forall|q: Seq<char>| #[trigger] v.contains(q) <==> w.contains(q) || q == p by {
            assert(v[0] == p);
        }
        v
    } else {
        let z = w.last();
        let u = w.drop_last();
        assert(wk[w.len() - 1] == path_key(z));
        assert(w[w.len() - 1] == z);
        lemma_less(path_key(z), path_key(p));
        if less(path_key(z), path_key(p)) {
            let v = w.push(p);
            let vk = path_keys(v);
            assert forall|i: int, j: int| 0 <= i < j < vk.len() implies less(
                #[trigger] vk[i],
                #[trigger] vk[j],
            ) by {
                assert(vk[i] == wk[i]);
                if j < w.len() {
                    assert(vk[j] == wk[j]);
                } else {
                    assert(vk[j] == path_key(p));
                    if i < w.len() - 1 {
                        assert(less(wk[i], wk[w.len() - 1]));
                        lemma_less_transitive(wk[i], path_key(z), path_key(p));
                    }
                }
            }
            assert forall|q: Seq<char>| #[trigger] v.contains(q) <==> w.contains(q) || q == p by {
                if w.contains(q) {
                    let k = choose|k: int| 0 <= k < w.len() && w[k] == q;
                    assert(v[k] == q);
                }
                assert(v[w.len() as int] == p);
            }
            v
        } else {
            let uk = path_keys(u);
            assert forall|i: int, j: int| 0 <= i < j < uk.len() implies less(
                #[trigger] uk[i],
                #[trigger] uk[j],
            ) by {
                assert(uk[i] == wk[i] && uk[j] == wk[j]);
            }
            assert forall|i: int| 0 <= i < u.len() implies path_key(#[trigger] u[i]) != path_key(
                p,
            ) by {
                assert(u[i] == w[i]);
            }
            let t = lemma_insert_path(u, p);
            let v = t.push(z);
            let vk = path_keys(v);
            let tk = path_keys(t);
            assert forall|i: int, j: int| 0 <= i < j < vk.len() implies less(
                #[trigger] vk[i],
                #[trigger] vk[j],
            ) by {
                assert(vk[i] == tk[i]);
                if j < t.len() {
                    assert(vk[j] == tk[j]);
                } else {
                    assert(t.contains(t[i]));
                    if u.contains(t[i]) {
                        let k = choose|k: int| 0 <= k < u.len() && u[k] == t[i];
                        assert(wk[k] == path_key(t[i]));
                        assert(less(wk[k], wk[w.len() - 1]));
                    }
                }
            }
            assert forall|q: Seq<char>| #[trigger] v.contains(q) <==> w.contains(q) || q == p by {
                if v.contains(q) {
                    let k = choose|k: int| 0 <= k < v.len() && v[k] == q;
                    if k < t.len() {
                        assert(t.contains(t[k]));
                        if u.contains(q) {
                            let m = choose|m: int| 0 <= m < u.len() && u[m] == q;
                            assert(w[m] == q);
                        }
                    }
                }
                if w.contains(q) || q == p {
                    if q == p || u.contains(q) {
                        assert(t.contains(q));
                        let k = choose|k: int| 0 <= k < t.len() && t[k] == q;
                        assert(v[k] == q);
                    } else {
                        let k = choose|k: int| 0 <= k < w.len() && w[k] == q;
                        if k < u.len() {
                            assert(u[k] == q);
                        }
                        assert(v[t.len() as int] == q);
                    }
                }
            }
            v
        }
    }
}

proof fn lemma_some_path_order(names: Set<Seq<char>>) -> (v: Seq<Seq<char>>)
    requires
        names.finite(),
        paths_ok(names),
    ensures
        lists_paths(names, v),
    decreases names.len(),
{
    if names.len() == 0 {
        let v = Seq::<Seq<char>>::empty();
        assert(v.to_set() =~= names);
        v
    } else {
        let p = names.choose();
        let rest = names.remove(p);
        let w = lemma_some_path_order(rest);
        assert forall|i: int| 0 <= i < w.len() implies path_key(#[trigger] w[i]) != path_key(p) by {
            assert(w.to_set().contains(w[i]));
            if path_key(w[i]) == path_key(p) {
                crate::sync::lemma_path_key_injective(w[i], p);
            }
        }
        let v = lemma_insert_path(w, p);
        assert forall|q: Seq<char>| v.to_set().contains(q) == names.contains(q) by {
            assert(w.to_set().contains(q) == rest.contains(q));
            assert(v.contains(q) <==> w.contains(q) || q == p);
        }
        assert(v.to_set() =~= names);
        v
    }
}

/// Finitely many paths can be put in order.
pub proof fn lemma_path_order(names: Set<Seq<char>>)
    requires
        names.finite(),
        paths_ok(names),
    ensures
        lists_paths(names, in_path_order(names)),
{
    let v = lemma_some_path_order(names);
    assert(lists_paths(names, v));
}

/// The files on both sides are fit to be synced: finitely many, with names that files can have.
pub open spec fn syncable(here: Map<Seq<char>, File>, there: Map<Seq<char>, File>) -> bool {
    &&& here.dom().finite()
    &&& there.dom().finite()
    &&& paths_ok(here.dom())
    &&& paths_ok(there.dom())
}

/// The files on both sides after a sync.
pub open spec fn synced(
    here: Map<Seq<char>, File>,
    there: Map<Seq<char>, File>,
    now: int,
    at: i128,
) -> (Map<Seq<char>, File>, Map<Seq<char>, File>) {
    let names = visited(times(here), times(there));
    journey(here, there, visits(times(here), times(there), here.dom(), names, now), at)
}

proof fn lemma_visited(here: Map<Seq<char>, File>, there: Map<Seq<char>, File>)
    requires
        syncable(here, there),
    ensures
        forall|n: Seq<char>|
            !stays_home(n) && (here.contains_key(n) || there.contains_key(n))
                <==> #[trigger] visited(times(here), times(there)).contains(n),
        forall|i: int|
            0 <= i < visited(times(here), times(there)).len() ==> !stays_home(
                #[trigger] visited(times(here), times(there))[i],
            ),
{
    let names = lemma_union(here, there);
    let all = visited(times(here), times(there));
    assert forall|n: Seq<char>|
        !stays_home(n) && (here.contains_key(n) || there.contains_key(n))
            <==> #[trigger] all.contains(n) by {
        assert(all.to_set().contains(n) == names.contains(n));
    }
    assert forall|i: int| 0 <= i < all.len() implies !stays_home(#[trigger] all[i]) by {
        assert(all.contains(all[i]));
    }
}

/// Every file that travels is looked at once.
proof fn lemma_union(here: Map<Seq<char>, File>, there: Map<Seq<char>, File>) -> (names: Set<
    Seq<char>,
>)
    requires
        syncable(here, there),
    ensures
        names == times(here).dom().union(times(there).dom()),
        names.finite(),
        lists_paths(names, visited(times(here), times(there))),
        visited(times(here), times(there)).no_duplicates(),
{
    let ours = times(here).dom();
    let theirs = times(there).dom();
    assert(ours.subset_of(here.dom()));
    assert(theirs.subset_of(there.dom()));
    vstd::set_lib::lemma_len_subset(ours, here.dom());
    vstd::set_lib::lemma_len_subset(theirs, there.dom());
    let names = ours.union(theirs);
    lemma_path_order(names);
    crate::sync::lemma_paths_len(names, in_path_order(names));
    names
}

/// After a sync the newer copy of every file that travels is on both sides, one that only one side
/// had is on both, and where the times were equal nothing was touched. What stays at home is on the
/// far side as it was.
pub proof fn the_newest_copy_wins(
    here: Map<Seq<char>, File>,
    there: Map<Seq<char>, File>,
    now: int,
    at: i128,
    n: Seq<char>,
)
    requires
        syncable(here, there),
        0 <= now,
    ensures
        ({
            let (h, t) = synced(here, there, now, at);
            if stays_home(n) {
                same_at(t, there, n)
            } else {
                match way_of(times(here), times(there), n) {
                    Way::Out => here.contains_key(n) && same_at(h, here, n) && same_at(t, here, n),
                    Way::In => there.contains_key(n) && same_at(h, there, n) && same_at(t, there, n),
                    Way::Neither => same_at(h, here, n) && same_at(t, there, n),
                }
            }
        }),
{
    let names = visited(times(here), times(there));
    lemma_visited(here, there);
    lemma_visits(here, there, names, now, at);
    let (h, t) = synced(here, there, now, at);
    assert(visited(times(here), times(there)).contains(n) <==> !stays_home(n) && (
    here.contains_key(n) || there.contains_key(n)));
    if stays_home(n) {
        assert(same_at(t, there, n));
    } else {
        assert(here_is(here, there, names, h, n));
        assert(there_is(here, there, names, t, n));
    }
}

/// What either side had of what travels, both have after a sync, and neither has anything new.
pub proof fn each_side_gets_what_the_other_added(
    here: Map<Seq<char>, File>,
    there: Map<Seq<char>, File>,
    now: int,
    at: i128,
    n: Seq<char>,
)
    requires
        syncable(here, there),
        0 <= now,
        !stays_home(n),
    ensures
        ({
            let (h, t) = synced(here, there, now, at);
            let had = here.contains_key(n) || there.contains_key(n);
            h.contains_key(n) == had && t.contains_key(n) == had
        }),
{
    the_newest_copy_wins(here, there, now, at, n);
}

/// The file and the tombstone of a secret travel.
proof fn lemma_secrets_travel(id: Seq<char>)
    requires
        plain_id(id),
        id[0] != '.',
    ensures
        !stays_home(secret_file(id)),
        !stays_home(tomb_file(id)),
{
    assert forall|p: Seq<char>|
        #![trigger stays_home(p)]
        p == secret_file(id) || p == tomb_file(id) implies !stays_home(p) by {
        reveal_strlit("store");
        reveal_strlit("/");
        reveal_strlit(".age");
        reveal_strlit(".tomb");
        reveal_strlit("broker.sock");
        reveal_strlit("remote");
        reveal_strlit("names");
        reveal_strlit("store/.versions");
        reveal_strlit("grants-");
        let ext = if p == secret_file(id) {
            ".age"@
        } else {
            ".tomb"@
        };
        assert((id + ext)[0] == id[0]);
        assert(id.contains(id[0]));
        assert(p == "store"@ + "/"@ + (id + ext));
        assert(p[0] == 's' && p[6] == id[0]);
        assert forall|i: int| 0 <= i < p.len() && p[i] == '/' implies !skips(
            #[trigger] p.take(i),
        ) by {
            if 6 <= i < 6 + id.len() {
                assert(p[i] == id[i - 6]);
                assert(id.contains(id[i - 6]));
            }
            assert(i == 5);
            assert(p.take(i).len() == 5 && p.take(i)[0] == 's');
            assert("names"@[0] == 'n');
        }
        if starts_with(p, "store/.versions"@) {
            assert(p.take(15)[6] == '.');
        }
        if starts_with(p, "grants-"@) {
            assert(p.take(7)[0] == 'g');
        }
    }
}

/// A delete on one side reaches the other: a tombstone that either side has hides the secret on
/// both after a sync. Nothing that the far side still holds brings it back.
pub proof fn a_delete_reaches_the_other_side(
    here: Map<Seq<char>, File>,
    there: Map<Seq<char>, File>,
    id: Seq<char>,
    now: int,
    at: i128,
)
    requires
        syncable(here, there),
        0 <= now,
        plain_id(id),
        id[0] != '.',
        here.contains_key(tomb_file(id)) || there.contains_key(tomb_file(id)),
    ensures
        ({
            let (h, t) = synced(here, there, now, at);
            !ids_of(h.dom()).contains(id) && !ids_of(t.dom()).contains(id)
        }),
{
    lemma_secrets_travel(id);
    each_side_gets_what_the_other_added(here, there, now, at, tomb_file(id));
}

/// The files that go this way.
pub open spec fn gone_this_way(
    ours: Map<Seq<char>, i128>,
    theirs: Map<Seq<char>, i128>,
    way: Way,
) -> Set<Seq<char>> {
    ours.dom().union(theirs.dom()).filter(|n: Seq<char>| way_of(ours, theirs, n) == way)
}

/// Every path on either side counts once: what a sync says it sent and received is how many files
/// were newer here, or only here, and how many were newer or only there.
pub proof fn each_path_counts_once(
    ours: Map<Seq<char>, i128>,
    theirs: Map<Seq<char>, i128>,
    way: Way,
)
    requires
        ours.dom().finite(),
        theirs.dom().finite(),
        paths_ok(ours.dom()),
        paths_ok(theirs.dom()),
    ensures
        going(ours, theirs, visited(ours, theirs), way) == gone_this_way(ours, theirs, way).len(),
{
    let names = ours.dom().union(theirs.dom());
    lemma_path_order(names);
    let v = visited(ours, theirs);
    crate::sync::lemma_paths_len(names, v);
    lemma_going(ours, theirs, v, way);
    assert(v.to_set().filter(|n: Seq<char>| way_of(ours, theirs, n) == way) =~= gone_this_way(
        ours,
        theirs,
        way,
    ));
}

proof fn lemma_going(
    ours: Map<Seq<char>, i128>,
    theirs: Map<Seq<char>, i128>,
    names: Seq<Seq<char>>,
    way: Way,
)
    requires
        names.no_duplicates(),
    ensures
        going(ours, theirs, names, way) == names.to_set().filter(
            |n: Seq<char>| way_of(ours, theirs, n) == way,
        ).len(),
        names.to_set().finite(),
    decreases names.len(),
{
    let keep = |n: Seq<char>| way_of(ours, theirs, n) == way;
    vstd::seq_lib::seq_to_set_is_finite(names);
    if names.len() == 0 {
        assert(names.to_set().filter(keep) =~= Set::<Seq<char>>::empty());
    } else {
        let front = names.drop_last();
        let last = names.last();
        lemma_going(ours, theirs, front, way);
        assert(!front.contains(last)) by {
            if front.contains(last) {
                let k = choose|k: int| 0 <= k < front.len() && front[k] == last;
                assert(names[k] == names[names.len() - 1]);
            }
        }
        crate::order::lemma_push_set(names, front.len() as int);
        assert(names.take(front.len() as int) =~= front);
        assert(names.take(front.len() as int + 1) =~= names);
        let before = front.to_set().filter(keep);
        let after = names.to_set().filter(keep);
        vstd::seq_lib::seq_to_set_is_finite(front);
        assert(!before.contains(last));
        if keep(last) {
            assert(after =~= before.insert(last));
        } else {
            assert(after =~= before);
        }
    }
}

/// A second sync right after a first finds nothing to do.
pub proof fn a_second_sync_is_idle(
    here: Map<Seq<char>, File>,
    there: Map<Seq<char>, File>,
    now: int,
    later: int,
    at: i128,
)
    requires
        syncable(here, there),
        0 <= now,
    ensures
        ({
            let (h, t) = synced(here, there, now, at);
            let names = visited(times(h), times(t));
            &&& visits(times(h), times(t), h.dom(), names, later) == Seq::<Travel>::empty()
            &&& going(times(h), times(t), names, Way::Out) == 0
            &&& going(times(h), times(t), names, Way::In) == 0
        }),
{
    let (h, t) = synced(here, there, now, at);
    assert forall|n: Seq<char>| way_of(times(h), times(t), n) == Way::Neither by {
        the_newest_copy_wins(here, there, now, at, n);
    }
    lemma_idle(times(h), times(t), h.dom(), visited(times(h), times(t)), later);
}

proof fn lemma_idle(
    ours: Map<Seq<char>, i128>,
    theirs: Map<Seq<char>, i128>,
    local: Set<Seq<char>>,
    names: Seq<Seq<char>>,
    now: int,
)
    requires
        forall|n: Seq<char>| #[trigger] way_of(ours, theirs, n) == Way::Neither,
    ensures
        visits(ours, theirs, local, names, now) == Seq::<Travel>::empty(),
        going(ours, theirs, names, Way::Out) == 0,
        going(ours, theirs, names, Way::In) == 0,
    decreases names.len(),
{
    if names.len() > 0 {
        lemma_idle(ours, theirs, local, names.drop_last(), now);
        assert(way_of(ours, theirs, names.last()) == Way::Neither);
    }
}

// ---------------------------------------------------------------------------------------------
// The losing side

/// The second for the next version depends on the version directory alone.
proof fn lemma_same_stamp(x: Set<Seq<char>>, y: Set<Seq<char>>, id: Seq<char>, now: int)
    requires
        plain_id(id),
        x.finite(),
        y.finite(),
        0 <= now,
        forall|p: Seq<char>|
            parent(p) == Some(version_dir(id)) ==> (#[trigger] x.contains(p) <==> y.contains(p)),
    ensures
        free_stamp(x, id, now) == free_stamp(y, id, now),
{
    crate::promises::lemma_first_free(x, id, now);
    crate::promises::lemma_first_free(y, id, now);
    let s = crate::history::first_free(x, id, now);
    let t = crate::history::first_free(y, id, now);
    crate::promises::lemma_version_files(id, s);
    crate::promises::lemma_version_files(id, t);
    if s < t {
        assert(y.contains(version_file(id, s)));
    }
    if t < s {
        assert(x.contains(version_file(id, t)));
    }
    lemma_same_versions(x, y, id);
}

/// How the versions of a secret that comes in stand after some visits.
spec fn loser_stands(
    here: Map<Seq<char>, File>,
    h: Map<Seq<char>, File>,
    id: Seq<char>,
    now: int,
    seen: bool,
) -> bool {
    if seen {
        replaced_is_newest(here, h, id, now)
    } else {
        same_at(h, here, secret_file(id)) && forall|p: Seq<char>|
            parent(p) == Some(version_dir(id)) ==> #[trigger] same_at(h, here, p)
    }
}

proof fn lemma_loser(
    here: Map<Seq<char>, File>,
    there: Map<Seq<char>, File>,
    id: Seq<char>,
    names: Seq<Seq<char>>,
    now: int,
    at: i128,
)
    requires
        0 <= now,
        here.dom().finite(),
        plain_id(id),
        here.contains_key(secret_file(id)),
        way_of(times(here), times(there), secret_file(id)) == Way::In,
        now + here.dom().len() <= u64::MAX,
        time_left(here.dom(), id),
        forall|i: int| 0 <= i < names.len() ==> !stays_home(#[trigger] names[i]),
        names.no_duplicates(),
    ensures
        loser_stands(
            here,
            journey(
                here,
                there,
                visits(times(here), times(there), here.dom(), names, now),
                at,
            ).0,
            id,
            now,
            names.contains(secret_file(id)),
        ),
    decreases names.len(),
{
    let ours = times(here);
    let theirs = times(there);
    let m = secret_file(id);
    let stamp = free_stamp(here.dom(), id, now);
    let kept = version_file(id, stamp);
    crate::promises::lemma_free_stamp(here.dom(), id, now);
    crate::promises::lemma_version_files(id, stamp);
    lemma_files(id);
    if names.len() > 0 {
        let front = names.drop_last();
        let name = names.last();
        assert(!stays_home(names[names.len() - 1]));
        assert forall|i: int| 0 <= i < front.len() implies !stays_home(#[trigger] front[i]) by {
            assert(front[i] == names[i]);
        }
        lemma_loser(here, there, id, front, now, at);
        lemma_visits(here, there, front, now, at);
        let before = visits(ours, theirs, here.dom(), front, now);
        let (h, t) = journey(here, there, before, at);
        let last = visit(ours, theirs, h.dom(), name, now);
        lemma_journey_add(here, there, before, last, at);
        let (h2, t2) = journey(h, t, last, at);
        assert(there_is(here, there, front, t, name));
        let c = front.contains(m);
        assert(names =~= front.push(name));
        assert(names[names.len() - 1] == name);
        if c {
            let k = choose|k: int| 0 <= k < front.len() && front[k] == m;
            assert(names[k] == m);
        }
        if names.contains(m) && name != m {
            let k = choose|k: int| 0 <= k < names.len() && names[k] == m;
            assert(front[k] == m);
        }
        assert(loser_stands(here, h, id, now, c));
        match way_of(ours, theirs, name) {
            Way::Out => {
                assert(last.drop_last() =~= Seq::<Travel>::empty());
                assert(journey(h, t, last.drop_last(), at) == (h, t));
                assert(h2 == h);
                assert(name != m);
            },
            Way::Neither => {
                assert(before + last =~= before);
                assert(name != m);
            },
            Way::In => {
                lemma_visit_in(h, t, name, now, at);
                if name == m {
                    assert(is_secret(m));
                    let lost = keep_acts(h.dom(), id, now);
                    let mid = run(h, lost, at);
                    assert(h2 == mid.insert(m, t[m]));
                    assert(!c);
                    assert(same_at(h, here, m));
                    assert forall|p: Seq<char>|
                        parent(p) == Some(version_dir(id)) implies (#[trigger] h.dom().contains(p)
                        <==> here.dom().contains(p)) by {
                        assert(same_at(h, here, p));
                    }
                    lemma_same_stamp(h.dom(), here.dom(), id, now);
                    lemma_same_versions(h.dom(), here.dom(), id);
                    crate::promises::lemma_kept_newest(h, id, now, at);
                    crate::promises::lemma_keep(h, id, now, at);
                    lemma_same_versions(h2.dom(), mid.dom(), id);
                } else {
                    let other = stem(file_name(name));
                    assert forall|p: Seq<char>|
                        parent(p) == Some(version_dir(id)) implies #[trigger] same_at(h2, h, p) by {
                        lemma_versions_stay(id, p);
                        if is_secret(name) {
                            lemma_secret(name);
                            if version_dir(other) == version_dir(id) {
                                lemma_version_dirs(other, id);
                            }
                        }
                    }
                    assert(theirs.contains_key(m));
                    assert(same_at(h2, h, m));
                    assert(same_at(h2, h, kept));
                    if !c {
                        assert forall|p: Seq<char>|
                            parent(p) == Some(version_dir(id)) implies #[trigger] same_at(
                            h2,
                            here,
                            p,
                        ) by {
                            assert(same_at(h2, h, p));
                            assert(same_at(h, here, p));
                        }
                    } else {
                        assert forall|v: (u64, Seq<char>)| #[trigger] is_version(
                            h2.dom(),
                            id,
                            v,
                        ) <==> is_version(h.dom(), id, v) by {
                            if parent(v.1) == Some(version_dir(id)) {
                                assert(same_at(h2, h, v.1));
                            }
                        }
                        lemma_same_versions(h2.dom(), h.dom(), id);
                    }
                }
            },
        }
    }
}

/// A secret that a newer one from the far side replaces is the newest of its versions after the
/// sync, and of those it had before the newest few are left: one clash adds one version, the one
/// that lost.
pub proof fn the_losing_side_is_kept(
    here: Map<Seq<char>, File>,
    there: Map<Seq<char>, File>,
    id: Seq<char>,
    now: int,
    at: i128,
)
    requires
        syncable(here, there),
        0 <= now,
        now + here.dom().len() <= u64::MAX,
        plain_id(id),
        here.contains_key(secret_file(id)),
        way_of(times(here), times(there), secret_file(id)) == Way::In,
        time_left(here.dom(), id),
    ensures
        replaced_is_newest(here, synced(here, there, now, at).0, id, now),
{
    let m = secret_file(id);
    lemma_visited(here, there);
    let names = lemma_union(here, there);
    assert(visited(times(here), times(there)).to_set().contains(m));
    lemma_loser(here, there, id, visited(times(here), times(there)), now, at);
}

/// The path is `top`, or lies in a directory of that name.
pub open spec fn at_or_in(path: Seq<char>, top: Seq<char>) -> bool {
    &&& path.len() >= top.len()
    &&& path.take(top.len() as int) == top
    &&& path.len() == top.len() || path[top.len() as int] == '/'
}

/// The path, or a directory above it, ends in `.age`.
pub open spec fn ends_some_part_in_age(path: Seq<char>) -> bool {
    exists|i: int|
        4 <= i <= path.len() && (i == path.len() || path[i] == '/') && #[trigger] path.subrange(
            i - 4,
            i,
        ) == ".age"@
}

/// What stays at home is the socket, the chosen remote, the index, what lies under the versions and
/// the grants of the machines. Everything else travels.
pub proof fn only_this_stays_home(path: Seq<char>)
    ensures
        stays_home(path) <==> {
            ||| at_or_in(path, "broker.sock"@)
            ||| at_or_in(path, "remote"@)
            ||| at_or_in(path, "names"@)
            ||| path.len() >= 15 && path.take(15) == "store/.versions"@
            ||| path.len() >= 7 && path.take(7) == "grants-"@ && ends_some_part_in_age(path)
        },
{
    reveal_strlit("broker.sock");
    reveal_strlit("remote");
    reveal_strlit("names");
    reveal_strlit("store/.versions");
    reveal_strlit("grants-");
    reveal_strlit(".age");
    let whole = path.take(path.len() as int);
    assert(whole =~= path);
    if stays_home(path) {
        let i = if skips(path) {
            path.len() as int
        } else {
            choose|i: int| 0 <= i < path.len() && path[i] == '/' && skips(#[trigger] path.take(i))
        };
        let p = path.take(i);
        assert(skips(p));
        if starts_with(p, "store/.versions"@) {
            assert(path.take(15) =~= p.subrange(0, 15));
        }
        if starts_with(p, "grants-"@) && crate::text::ends_with(p, ".age"@) {
            assert(path.take(7) =~= p.subrange(0, 7));
            assert(path.subrange(i - 4, i) =~= p.subrange(p.len() - 4, p.len() as int));
        }
    }
    assert forall|top: Seq<char>| #[trigger] at_or_in(path, top) && skips(top) implies stays_home(
        path,
    ) by {
        assert(path.take(top.len() as int) == top);
    }
    if path.len() >= 15 && path.take(15) == "store/.versions"@ {
        assert(path.subrange(0, 15) =~= path.take(15));
    }
    if path.len() >= 7 && path.take(7) == "grants-"@ && ends_some_part_in_age(path) {
        let i = choose|i: int|
            4 <= i <= path.len() && (i == path.len() || path[i] == '/') && #[trigger] path.subrange(
                i - 4,
                i,
            ) == ".age"@;
        let p = path.take(i);
        if i < 7 {
            assert(path.subrange(i - 4, i)[0] == path.take(7)[i - 4]);
            assert(path.take(7)[i - 4] == "grants-"@[i - 4]);
        }
        assert(p.subrange(0, 7) =~= path.take(7));
        assert(p.subrange(p.len() - 4, p.len() as int) =~= path.subrange(i - 4, i));
        assert(skips(p));
    }
}

/// Whatever opens the store travels with it: no wrap stays at home, whatever it is called, so after
/// a sync both sides hold every wrap that either held.
pub proof fn every_wrap_travels(
    here: Map<Seq<char>, File>,
    there: Map<Seq<char>, File>,
    now: int,
    at: i128,
    wrap: Seq<char>,
)
    requires
        syncable(here, there),
        0 <= now,
    ensures
        !stays_home("wraps/"@ + wrap),
        ({
            let n = "wraps/"@ + wrap;
            let (h, t) = synced(here, there, now, at);
            here.contains_key(n) || there.contains_key(n) ==> h.contains_key(n) && t.contains_key(n)
                && h[n] == t[n] || here.contains_key(n) && there.contains_key(n)
                && here[n].modified == there[n].modified
        }),
{
    let n = "wraps/"@ + wrap;
    reveal_strlit("wraps/");
    reveal_strlit("broker.sock");
    reveal_strlit("remote");
    reveal_strlit("names");
    reveal_strlit("store/.versions");
    reveal_strlit("grants-");
    only_this_stays_home(n);
    assert(n[0] == 'w');
    assert forall|k: int| 0 < k <= n.len() implies (#[trigger] n.take(k))[0] == 'w' by {}
    the_newer_copy_is_on_both_sides(here, there, now, at, n);
}

/// After a sync the newer copy of a file that travels is on both sides, with its time, one that only
/// one side had is on both, and where the times are equal each side keeps its own. A file that
/// neither side had is on neither.
pub proof fn the_newer_copy_is_on_both_sides(
    here: Map<Seq<char>, File>,
    there: Map<Seq<char>, File>,
    now: int,
    at: i128,
    n: Seq<char>,
)
    requires
        syncable(here, there),
        0 <= now,
        !stays_home(n),
    ensures
        ({
            let (h, t) = synced(here, there, now, at);
            let ours = here.contains_key(n);
            let theirs = there.contains_key(n);
            &&& ours && !theirs ==> h.contains_key(n) && t.contains_key(n) && h[n] == here[n]
                && t[n] == here[n]
            &&& theirs && !ours ==> h.contains_key(n) && t.contains_key(n) && h[n] == there[n]
                && t[n] == there[n]
            &&& ours && theirs ==> h.contains_key(n) && t.contains_key(n)
            &&& ours && theirs && here[n].modified > there[n].modified ==> h[n] == here[n] && t[n]
                == here[n]
            &&& ours && theirs && here[n].modified < there[n].modified ==> h[n] == there[n] && t[n]
                == there[n]
            &&& ours && theirs && here[n].modified == there[n].modified ==> h[n] == here[n] && t[n]
                == there[n]
            &&& !ours && !theirs ==> !h.contains_key(n) && !t.contains_key(n)
        }),
{
    the_newest_copy_wins(here, there, now, at, n);
}

/// The sides of a sync are what a walk found of what travels, each file with the time it was found
/// with last.
pub proof fn a_side_has_all_that_travels(files: Seq<(String, i128)>, i: int)
    requires
        0 <= i < files.len(),
        !stays_home(files[i].0@),
        forall|j: int| i < j < files.len() ==> (#[trigger] files[j]).0@ != files[i].0@,
    ensures
        side_of(files).contains_key(files[i].0@),
        side_of(files)[files[i].0@] == files[i].1,
    decreases files.len(),
{
    if i < files.len() - 1 {
        let front = files.drop_last();
        assert forall|j: int| i < j < front.len() implies (#[trigger] front[j]).0@ != front[i].0@ by {
            assert(front[j] == files[j]);
        }
        a_side_has_all_that_travels(front, i);
        assert(files[files.len() - 1].0@ != files[i].0@);
    }
}

/// What a sync says it sent is how many files were newer here or only here, and what it says it
/// received how many were newer there or only there.
pub proof fn the_report_counts_what_moved(
    ours: Map<Seq<char>, i128>,
    theirs: Map<Seq<char>, i128>,
    sent: Set<Seq<char>>,
    received: Set<Seq<char>>,
)
    requires
        ours.dom().finite(),
        theirs.dom().finite(),
        paths_ok(ours.dom()),
        paths_ok(theirs.dom()),
        forall|n: Seq<char>| #[trigger]
            sent.contains(n) <==> ours.contains_key(n) && (theirs.contains_key(n) ==> theirs[n]
                < ours[n]),
        forall|n: Seq<char>| #[trigger]
            received.contains(n) <==> theirs.contains_key(n) && (ours.contains_key(n) ==> ours[n]
                < theirs[n]),
    ensures
        going(ours, theirs, visited(ours, theirs), Way::Out) == sent.len(),
        going(ours, theirs, visited(ours, theirs), Way::In) == received.len(),
{
    each_path_counts_once(ours, theirs, Way::Out);
    each_path_counts_once(ours, theirs, Way::In);
    assert(gone_this_way(ours, theirs, Way::Out) =~= sent);
    assert(gone_this_way(ours, theirs, Way::In) =~= received);
}

} // verus!

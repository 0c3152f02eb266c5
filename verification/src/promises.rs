//! What the operations of a store promise of its files, whatever happened to them before.

use crate::commands::restore_acts;
use crate::disk::{
    apply, below, extension, file_in, file_name, lemma_file_in, lemma_parts, lemma_run_add, names_after,
    names_follow_the_files, parent, run, stem, temporary, write_acts, Act, File,
};
use crate::history::{
    delete_acts, earlier, expired, first_free, free_stamp, is_free_stamp, is_tomb, is_version,
    keep_acts, lemma_version_file_injective, lemma_versions_unique, lists_versions, move_acts,
    oldest_first, prune_acts, put_acts, replace_acts, sealed, time_left, tomb_paths, tomb_stamp,
    trim_acts, untomb_acts, versions_of,
};
use crate::index::{index_add_acts, index_names};
use crate::number::{decimal, decimal_reads_back, lemma_decimal_plain, parse};
use crate::order::{in_order, lemma_less};
use crate::outside::{age_open, is_public_of};
use crate::store::{
    secret_file, tomb_file, version_dir, version_file, Secret, KEEP_VERSIONS, TOMB_TTL_SECS,
};
use crate::text::{lemma_rcut, lemma_rcut_unique, rcut, trim};
use vstd::prelude::*;
use vstd::string::*;
use vstd::utf8::encode_utf8;

verus! {

/// A name that a file can have in a directory. Every id is one.
pub open spec fn plain_id(id: Seq<char>) -> bool {
    id.len() > 0 && !id.contains('/')
}

/// Every id that has a file, hidden behind a tombstone or not.
pub open spec fn ids_with_files_of(names: Set<Seq<char>>) -> Set<Seq<char>> {
    Set::new(|id: Seq<char>| plain_id(id) && names.contains(secret_file(id)))
}

/// The secrets there are: those with a file and no tombstone.
pub open spec fn ids_of(names: Set<Seq<char>>) -> Set<Seq<char>> {
    Set::new(
        |id: Seq<char>|
            plain_id(id) && names.contains(secret_file(id)) && !names.contains(tomb_file(id)),
    )
}

/// `path` holds the same in both, or nothing in either.
pub open spec fn same_at(
    a: Map<Seq<char>, File>,
    b: Map<Seq<char>, File>,
    path: Seq<char>,
) -> bool {
    a.contains_key(path) == b.contains_key(path) && a[path] == b[path]
}

/// Every secret but `id` is the same in both, and so are its tombstone and its versions.
pub open spec fn others_untouched(
    a: Map<Seq<char>, File>,
    b: Map<Seq<char>, File>,
    id: Seq<char>,
) -> bool {
    &&& forall|other: Seq<char>|
        plain_id(other) && other != id ==> #[trigger] same_at(a, b, secret_file(other)) && same_at(
            a,
            b,
            tomb_file(other),
        )
    &&& forall|other: Seq<char>, p: Seq<char>|
        plain_id(other) && other != id && parent(p) == Some(#[trigger] version_dir(other))
            ==> #[trigger] same_at(a, b, p)
}

// ---------------------------------------------------------------------------------------------
// Where the files of one secret are

/// Where the file, the tombstone and the temporary file of a secret are.
pub proof fn lemma_files(id: Seq<char>)
    requires
        plain_id(id),
    ensures
        secret_file(id) == file_in("store"@, id, "age"@),
        tomb_file(id) == file_in("store"@, id, "tomb"@),
        parent(secret_file(id)) == Some("store"@),
        parent(tomb_file(id)) == Some("store"@),
        stem(file_name(secret_file(id))) == id,
        stem(file_name(tomb_file(id))) == id,
        extension(file_name(secret_file(id))) == Some("age"@),
        extension(file_name(tomb_file(id))) == Some("tomb"@),
        temporary(secret_file(id)) == file_in("store"@, id, "tmp"@),
        temporary(tomb_file(id)) == file_in("store"@, id, "tmp"@),
        extension(file_name(file_in("store"@, id, "tmp"@))) == Some("tmp"@),
        parent(file_in("store"@, id, "tmp"@)) == Some("store"@),
        stem(file_name(file_in("store"@, id, "tmp"@))) == id,
        "age"@ != "tomb"@,
        "age"@ != "tmp"@,
        "tomb"@ != "tmp"@,
{
    reveal_strlit("store");
    reveal_strlit("age");
    reveal_strlit("tomb");
    reveal_strlit("tmp");
    reveal_strlit(".age");
    reveal_strlit(".tomb");
    reveal_strlit(".tmp");
    reveal_strlit("/");
    reveal_strlit(".");
    assert("age"@[0] == 'a' && "tomb"@[0] == 't' && "tmp"@[1] == 'm' && "tomb"@[1] == 'o');
    assert(id.contains(id[0]));
    assert(secret_file(id) =~= file_in("store"@, id, "age"@));
    assert(tomb_file(id) =~= file_in("store"@, id, "tomb"@));
    lemma_file_in("store"@, id, "age"@);
    lemma_file_in("store"@, id, "tomb"@);
    lemma_file_in("store"@, id, "tmp"@);
    lemma_temporary(secret_file(id), "store"@, id);
    lemma_temporary(tomb_file(id), "store"@, id);
}

proof fn lemma_temporary(path: Seq<char>, dir: Seq<char>, s: Seq<char>)
    requires
        parent(path) == Some(dir),
        stem(file_name(path)) == s,
    ensures
        temporary(path) == file_in(dir, s, "tmp"@),
{
    reveal_strlit("tmp");
    reveal_strlit(".tmp");
    reveal_strlit("/");
    reveal_strlit(".");
    lemma_rcut(path, '/');
    assert(path.take(rcut(path, '/') + 1) =~= dir + "/"@);
    assert(temporary(path) =~= file_in(dir, s, "tmp"@));
}

/// Where a version of a secret is.
pub proof fn lemma_version_files(id: Seq<char>, s: int)
    requires
        plain_id(id),
        0 <= s,
    ensures
        parent(version_file(id, s)) == Some(version_dir(id)),
        version_dir(id) != "store"@,
        stem(file_name(version_file(id, s))) == decimal(s),
{
    reveal_strlit("store");
    reveal_strlit("store/.versions");
    reveal_strlit("/");
    reveal_strlit(".");
    reveal_strlit("age");
    reveal_strlit(".age");
    assert(id.contains(id[0]));
    let d = version_dir(id);
    assert(d.last() == id.last());
    assert(id.contains(id.last()));
    lemma_decimal_plain(s, '/');
    decimal_reads_back(s, s);
    assert(decimal(s).len() > 0);
    assert(decimal(s).contains(decimal(s)[0]));
    assert(version_file(id, s) =~= file_in(d, decimal(s), "age"@));
    lemma_file_in(d, decimal(s), "age"@);
}

/// Ids with one version directory are one id.
pub proof fn lemma_version_dirs(a: Seq<char>, b: Seq<char>)
    requires
        plain_id(a),
        plain_id(b),
        version_dir(a) == version_dir(b),
    ensures
        a == b,
{
    reveal_strlit("store/.versions");
    reveal_strlit("/");
    assert(a.contains(a[0]) && b.contains(b[0]));
    assert(version_dir(a).skip(16) =~= a);
    assert(version_dir(b).skip(16) =~= b);
}

/// The index is a file of its own, beside the directories.
proof fn lemma_index_file()
    ensures
        parent("names"@) is None,
        parent(temporary("names"@)) is None,
        temporary("names"@) != "names"@,
{
    reveal_strlit("names");
    reveal_strlit(".tmp");
    lemma_rcut_unique("names"@, '/', -1);
    lemma_rcut_unique("names"@, '.', -1);
    assert(file_name("names"@) =~= "names"@);
    assert(temporary("names"@) =~= "names"@ + ".tmp"@);
    lemma_rcut_unique(temporary("names"@), '/', -1);
}

// ---------------------------------------------------------------------------------------------
// A finite number of versions can be listed, and a free second be found

proof fn lemma_insert(w: Seq<(u64, Seq<char>)>, x: (u64, Seq<char>)) -> (v: Seq<(u64, Seq<char>)>)
    requires
        oldest_first(w),
        !w.contains(x),
    ensures
        oldest_first(v),
        forall|y: (u64, Seq<char>)| #[trigger] v.contains(y) <==> w.contains(y) || y == x,
    decreases w.len(),
{
    if w.len() == 0 {
        let v = seq![x];
        assert forall|y: (u64, Seq<char>)| #[trigger] v.contains(y) <==> w.contains(y) || y == x by {
            assert(v[0] == x);
        }
        v
    } else {
        let z = w.last();
        assert(w.contains(z));
        lemma_less(z.1, x.1);
        let u = w.drop_last();
        if earlier(z, x) {
            let v = w.push(x);
            assert forall|i: int, j: int| 0 <= i < j < v.len() implies earlier(
                #[trigger] v[i],
                #[trigger] v[j],
            ) by {
                if j == w.len() && i < w.len() - 1 {
                    assert(earlier(w[i], w[w.len() - 1]));
                    lemma_earlier_transitive(w[i], z, x);
                }
            }
            assert forall|y: (u64, Seq<char>)| #[trigger] v.contains(y) <==> w.contains(y) || y
                == x by {
                if w.contains(y) {
                    let k = choose|k: int| 0 <= k < w.len() && w[k] == y;
                    assert(v[k] == y);
                }
                assert(v[w.len() as int] == x);
            }
            v
        } else {
            assert(earlier(x, z));
            assert forall|y: (u64, Seq<char>)| u.contains(y) implies w.contains(y) && earlier(
                y,
                z,
            ) by {
                let k = choose|k: int| 0 <= k < u.len() && u[k] == y;
                assert(w[k] == y);
                assert(earlier(w[k], w[w.len() - 1]));
            }
            let t = lemma_insert(u, x);
            let v = t.push(z);
            assert forall|i: int, j: int| 0 <= i < j < v.len() implies earlier(
                #[trigger] v[i],
                #[trigger] v[j],
            ) by {
                if j == t.len() {
                    assert(t.contains(t[i]));
                }
            }
            assert forall|y: (u64, Seq<char>)| #[trigger] v.contains(y) <==> w.contains(y) || y
                == x by {
                if v.contains(y) {
                    let k = choose|k: int| 0 <= k < v.len() && v[k] == y;
                    if k < t.len() {
                        assert(t.contains(t[k]));
                    }
                }
                if w.contains(y) {
                    let k = choose|k: int| 0 <= k < w.len() && w[k] == y;
                    if k < u.len() {
                        assert(u[k] == y);
                        assert(u.contains(y));
                    } else {
                        assert(v[t.len() as int] == y);
                    }
                }
                if u.contains(y) || y == x {
                    assert(t.contains(y));
                    let k = choose|k: int| 0 <= k < t.len() && t[k] == y;
                    assert(v[k] == y);
                }
            }
            v
        }
    }
}

proof fn lemma_earlier_transitive(a: (u64, Seq<char>), b: (u64, Seq<char>), c: (u64, Seq<char>))
    requires
        earlier(a, b),
        earlier(b, c),
    ensures
        earlier(a, c),
{
    if a.0 == b.0 && b.0 == c.0 {
        crate::order::lemma_less_transitive(a.1, b.1, c.1);
    }
}

proof fn lemma_some_versions(names: Set<Seq<char>>, id: Seq<char>) -> (v: Seq<(u64, Seq<char>)>)
    requires
        names.finite(),
    ensures
        lists_versions(names, id, v),
    decreases names.len(),
{
    if names.len() == 0 {
        assert(names =~= Set::<Seq<char>>::empty());
        Seq::empty()
    } else {
        let p = names.choose();
        let rest = names.remove(p);
        let w = lemma_some_versions(rest, id);
        match parse(stem(file_name(p)), u64::MAX as int) {
            Some(s) => {
                let x = (s as u64, p);
                crate::number::lemma_parse_bounds(stem(file_name(p)), u64::MAX as int);
                if is_version(names, id, x) {
                    assert(!w.contains(x)) by {
                        if w.contains(x) {
                            let k = choose|k: int| 0 <= k < w.len() && w[k] == x;
                            assert(is_version(rest, id, w[k]));
                        }
                    }
                    let v = lemma_insert(w, x);
                    assert forall|k: int| 0 <= k < v.len() implies is_version(
                        names,
                        id,
                        #[trigger] v[k],
                    ) by {
                        assert(v.contains(v[k]));
                        if w.contains(v[k]) {
                            let m = choose|m: int| 0 <= m < w.len() && w[m] == v[k];
                            assert(is_version(rest, id, w[m]));
                        }
                    }
                    assert forall|y: (u64, Seq<char>)| #[trigger] is_version(
                        names,
                        id,
                        y,
                    ) implies v.contains(y) by {
                        if y.1 != p {
                            assert(is_version(rest, id, y));
                            assert(w.contains(y));
                        }
                    }
                    v
                } else {
                    assert forall|y: (u64, Seq<char>)| #[trigger] is_version(
                        names,
                        id,
                        y,
                    ) implies w.contains(y) by {
                        assert(y.1 != p);
                        assert(is_version(rest, id, y));
                    }
                    assert forall|k: int| 0 <= k < w.len() implies is_version(
                        names,
                        id,
                        #[trigger] w[k],
                    ) by {
                        assert(is_version(rest, id, w[k]));
                    }
                    w
                }
            },
            None => {
                assert forall|y: (u64, Seq<char>)| #[trigger] is_version(
                    names,
                    id,
                    y,
                ) implies w.contains(y) by {
                    assert(y.1 != p);
                    assert(is_version(rest, id, y));
                }
                assert forall|k: int| 0 <= k < w.len() implies is_version(
                    names,
                    id,
                    #[trigger] w[k],
                ) by {
                    assert(is_version(rest, id, w[k]));
                }
                w
            },
        }
    }
}

/// The versions among finitely many files can be listed.
pub proof fn lemma_versions_exist(names: Set<Seq<char>>, id: Seq<char>)
    requires
        names.finite(),
    ensures
        lists_versions(names, id, versions_of(names, id)),
{
    let v = lemma_some_versions(names, id);
    lemma_versions_unique(names, id, v);
}

proof fn lemma_taken(names: Set<Seq<char>>, id: Seq<char>, now: int, n: nat) -> (taken: Set<Seq<char>>)
    requires
        names.finite(),
        0 <= now,
        forall|t: int| now <= t < now + n ==> names.contains(#[trigger] version_file(id, t)),
    ensures
        taken.finite(),
        taken.len() == n,
        taken.subset_of(names),
        forall|p: Seq<char>| #[trigger]
            taken.contains(p) ==> exists|t: int| now <= t < now + n && p == version_file(id, t),
    decreases n,
{
    if n == 0 {
        Set::empty()
    } else {
        let m = (n - 1) as nat;
        let s = lemma_taken(names, id, now, m);
        let p = version_file(id, now + m);
        if s.contains(p) {
            let t = choose|t: int| now <= t < now + m && p == version_file(id, t);
            lemma_version_file_injective(id, t, now + m);
        }
        s.insert(p)
    }
}

proof fn lemma_free_from(names: Set<Seq<char>>, id: Seq<char>, now: int, n: nat)
    requires
        names.finite(),
        0 <= now,
        forall|t: int| now <= t < now + n ==> names.contains(#[trigger] version_file(id, t)),
    ensures
        exists|s: int| s <= now + names.len() && is_free_stamp(names, id, now, s),
    decreases names.len() + 1 - n,
{
    let taken = lemma_taken(names, id, now, n);
    vstd::set_lib::lemma_len_subset(taken, names);
    if names.contains(version_file(id, now + n)) {
        lemma_free_from(names, id, now, n + 1);
    } else {
        assert(is_free_stamp(names, id, now, now + n));
    }
}

/// There is a second that no version bears.
pub proof fn lemma_first_free(names: Set<Seq<char>>, id: Seq<char>, now: int)
    requires
        names.finite(),
        0 <= now,
    ensures
        is_free_stamp(names, id, now, first_free(names, id, now)),
        first_free(names, id, now) <= now + names.len(),
{
    lemma_free_from(names, id, now, 0);
    let s = choose|s: int| s <= now + names.len() && is_free_stamp(names, id, now, s);
    let f = first_free(names, id, now);
    if s < f {
        assert(names.contains(version_file(id, s)));
    }
    if f < s {
        assert(names.contains(version_file(id, f)));
    }
}

/// No version is newer than the last.
proof fn lemma_last_version(names: Set<Seq<char>>, id: Seq<char>, x: (u64, Seq<char>))
    requires
        names.finite(),
        is_version(names, id, x),
    ensures
        versions_of(names, id).len() > 0,
        x.0 <= versions_of(names, id).last().0,
{
    let v = versions_of(names, id);
    lemma_versions_exist(names, id);
    let k = choose|k: int| 0 <= k < v.len() && v[k] == x;
    if k < v.len() - 1 {
        assert(earlier(v[k], v[v.len() - 1]));
    }
}

/// A file that bears a second is a version.
proof fn lemma_bears(names: Set<Seq<char>>, id: Seq<char>, stamp: int)
    requires
        plain_id(id),
        0 <= stamp <= u64::MAX,
        names.contains(version_file(id, stamp)),
    ensures
        is_version(names, id, (stamp as u64, version_file(id, stamp))),
{
    lemma_version_files(id, stamp);
    decimal_reads_back(stamp, u64::MAX as int);
}

/// The second that the next version bears is borne by none.
pub proof fn lemma_free_stamp(names: Set<Seq<char>>, id: Seq<char>, now: int)
    requires
        plain_id(id),
        names.finite(),
        0 <= now,
    ensures
        now <= free_stamp(names, id, now),
        !names.contains(version_file(id, free_stamp(names, id, now))),
        now + names.len() <= u64::MAX ==> free_stamp(names, id, now) <= u64::MAX,
{
    lemma_first_free(names, id, now);
    let v = versions_of(names, id);
    let stamp = free_stamp(names, id, now);
    if v.len() > 0 && now <= v.last().0 < u64::MAX && names.contains(version_file(id, stamp)) {
        lemma_bears(names, id, stamp);
        lemma_last_version(names, id, (stamp as u64, version_file(id, stamp)));
    }
}

/// The second that the next version bears is later than that of every version there is.
pub proof fn lemma_latest_stamp(names: Set<Seq<char>>, id: Seq<char>, now: int)
    requires
        plain_id(id),
        names.finite(),
        0 <= now <= u64::MAX,
        time_left(names, id),
    ensures
        forall|x: (u64, Seq<char>)| #[trigger]
            is_version(names, id, x) ==> x.0 < free_stamp(names, id, now),
{
    lemma_first_free(names, id, now);
    let v = versions_of(names, id);
    assert forall|x: (u64, Seq<char>)| #[trigger] is_version(names, id, x) implies x.0
        < free_stamp(names, id, now) by {
        lemma_last_version(names, id, x);
    }
}

// ---------------------------------------------------------------------------------------------
// Keeping a version

/// Removing files leaves the others as they were.
proof fn lemma_removes(disk: Map<Seq<char>, File>, steps: Seq<Act>, at: i128)
    requires
        forall|i: int| 0 <= i < steps.len() ==> #[trigger] steps[i] is Remove,
    ensures
        forall|p: Seq<char>| #[trigger]
            run(disk, steps, at).contains_key(p) <==> disk.contains_key(p) && !steps.contains(
                Act::Remove(p),
            ),
        forall|p: Seq<char>|
            !steps.contains(Act::Remove(p)) ==> #[trigger] run(disk, steps, at)[p] == disk[p],
    decreases steps.len(),
{
    if steps.len() > 0 {
        let front = steps.drop_last();
        assert forall|i: int| 0 <= i < front.len() implies #[trigger] front[i] is Remove by {
            assert(front[i] == steps[i]);
        }
        lemma_removes(disk, front, at);
        let last = steps.last();
        assert(steps[steps.len() - 1] is Remove);
        assert(steps.contains(last));
        assert forall|p: Seq<char>| front.contains(Act::Remove(p)) implies steps.contains(
            Act::Remove(p),
        ) by {
            let k = choose|k: int| 0 <= k < front.len() && front[k] == Act::Remove(p);
            assert(steps[k] == Act::Remove(p));
        }
        assert forall|p: Seq<char>| steps.contains(Act::Remove(p)) implies front.contains(
            Act::Remove(p),
        ) || last == Act::Remove(p) by {
            let k = choose|k: int| 0 <= k < steps.len() && steps[k] == Act::Remove(p);
            if k < front.len() {
                assert(front[k] == Act::Remove(p));
            }
        }
        let before = run(disk, front, at);
        assert forall|p: Seq<char>|
            !steps.contains(Act::Remove(p)) implies #[trigger] run(disk, steps, at)[p]
            == disk[p] by {
            assert(before[p] == disk[p]);
        }
    }
}

/// What moving the current file among its versions leaves.
proof fn lemma_move(disk: Map<Seq<char>, File>, id: Seq<char>, now: int, at: i128)
    requires
        plain_id(id),
        disk.dom().finite(),
        0 <= now,
        disk.contains_key(secret_file(id)),
    ensures
        run(disk, move_acts(disk.dom(), id, now), at) == disk.remove(secret_file(id)).insert(
            version_file(id, free_stamp(disk.dom(), id, now)),
            disk[secret_file(id)],
        ),
        version_file(id, free_stamp(disk.dom(), id, now)) != secret_file(id),
{
    let m = move_acts(disk.dom(), id, now);
    reveal_with_fuel(run, 3);
    assert(m.drop_last() =~= seq![m[0]]);
    assert(seq![m[0]].drop_last() =~= Seq::<Act>::empty());
    lemma_free_stamp(disk.dom(), id, now);
    lemma_files(id);
    lemma_version_files(id, free_stamp(disk.dom(), id, now));
}

/// A version that was not removed is still one, and there are no others.
proof fn lemma_trimmed(
    names: Set<Seq<char>>,
    after: Set<Seq<char>>,
    id: Seq<char>,
    v: Seq<(u64, Seq<char>)>,
    n: int,
)
    requires
        lists_versions(names, id, v),
        0 <= n <= v.len(),
        forall|p: Seq<char>| #[trigger]
            after.contains(p) <==> names.contains(p) && !exists|k: int|
                0 <= k < n && (#[trigger] v[k]).1 == p,
    ensures
        lists_versions(after, id, v.skip(n)),
{
    let w = v.skip(n);
    assert forall|k: int| 0 <= k < w.len() implies is_version(after, id, #[trigger] w[k]) by {
        assert(w[k] == v[k + n]);
        assert(is_version(names, id, v[k + n]));
        assert forall|j: int| 0 <= j < n implies (#[trigger] v[j]).1 != w[k].1 by {
            assert(earlier(v[j], v[k + n]));
            assert(is_version(names, id, v[j]));
            lemma_less(v[j].1, v[k + n].1);
        }
    }
    assert forall|x: (u64, Seq<char>)| #[trigger] is_version(after, id, x) implies w.contains(
        x,
    ) by {
        assert(after.contains(x.1));
        assert(is_version(names, id, x));
        let k = choose|k: int| 0 <= k < v.len() && v[k] == x;
        if k < n {
            assert(v[k].1 == x.1);
        }
        assert(w[k - n] == x);
    }
    assert forall|i: int, j: int| 0 <= i < j < w.len() implies earlier(
        #[trigger] w[i],
        #[trigger] w[j],
    ) by {
        assert(w[i] == v[i + n] && w[j] == v[j + n]);
    }
}

/// The newest few of some versions, oldest first.
pub open spec fn newest(v: Seq<(u64, Seq<char>)>) -> Seq<(u64, Seq<char>)> {
    if v.len() > KEEP_VERSIONS {
        v.skip(v.len() - KEEP_VERSIONS)
    } else {
        v
    }
}

/// One more version takes its place among those there were.
proof fn lemma_one_more(
    names: Set<Seq<char>>,
    after: Set<Seq<char>>,
    id: Seq<char>,
    y: (u64, Seq<char>),
) -> (j: int)
    requires
        names.finite(),
        after.finite(),
        !is_version(names, id, y),
        forall|x: (u64, Seq<char>)| #[trigger]
            is_version(after, id, x) <==> is_version(names, id, x) || x == y,
    ensures
        0 <= j <= versions_of(names, id).len(),
        versions_of(after, id) == versions_of(names, id).insert(j, y),
        forall|i: int|
            j <= i < versions_of(names, id).len() ==> earlier(
                y,
                #[trigger] versions_of(names, id)[i],
            ),
{
    let v = versions_of(after, id);
    lemma_versions_exist(after, id);
    lemma_versions_exist(names, id);
    assert(is_version(after, id, y));
    let j = choose|j: int| 0 <= j < v.len() && v[j] == y;
    let w = v.remove(j);
    assert forall|k: int| 0 <= k < w.len() implies is_version(names, id, #[trigger] w[k]) by {
        let m = if k < j {
            k
        } else {
            k + 1
        };
        assert(w[k] == v[m]);
        assert(is_version(after, id, v[m]));
        lemma_less(y.1, y.1);
        if k < j {
            assert(earlier(v[m], v[j]));
        } else {
            assert(earlier(v[j], v[m]));
        }
    }
    assert forall|x: (u64, Seq<char>)| #[trigger] is_version(names, id, x) implies w.contains(
        x,
    ) by {
        assert(is_version(after, id, x));
        let k = choose|k: int| 0 <= k < v.len() && v[k] == x;
        if k < j {
            assert(w[k] == x);
        } else {
            assert(w[k - 1] == x);
        }
    }
    assert forall|a: int, b: int| 0 <= a < b < w.len() implies earlier(
        #[trigger] w[a],
        #[trigger] w[b],
    ) by {
        let p = if a < j {
            a
        } else {
            a + 1
        };
        let q = if b < j {
            b
        } else {
            b + 1
        };
        assert(w[a] == v[p] && w[b] == v[q]);
    }
    lemma_versions_unique(names, id, w);
    assert(v =~= w.insert(j, y));
    assert forall|i: int| j <= i < w.len() implies earlier(y, #[trigger] w[i]) by {
        assert(w[i] == v[i + 1]);
        assert(earlier(v[j], v[i + 1]));
    }
    j
}

/// Where keeping a version puts it, among the names there are: before any are trimmed.
pub open spec fn moved_names(names: Set<Seq<char>>, id: Seq<char>, now: int) -> Set<Seq<char>> {
    names.remove(secret_file(id)).insert(version_file(id, free_stamp(names, id, now)))
}

/// Moving a file among the versions adds at most that one.
proof fn lemma_moved_versions(names: Set<Seq<char>>, id: Seq<char>, now: int)
    requires
        plain_id(id),
        names.finite(),
        0 <= now,
    ensures
        ({
            let stamp = free_stamp(names, id, now);
            let kept = version_file(id, stamp);
            let after = moved_names(names, id, now);
            &&& parent(kept) == Some(version_dir(id))
            &&& !names.contains(kept)
            &&& forall|x: (u64, Seq<char>)|
                x.1 != kept ==> (#[trigger] is_version(after, id, x) <==> is_version(names, id, x))
            &&& stamp <= u64::MAX ==> is_version(after, id, (stamp as u64, kept))
        }),
{
    let stamp = free_stamp(names, id, now);
    lemma_free_stamp(names, id, now);
    lemma_files(id);
    lemma_version_files(id, stamp);
    if stamp <= u64::MAX {
        decimal_reads_back(stamp, u64::MAX as int);
    }
}

/// Keeping the current value of a secret as a version takes its file away, leaves the newest few
/// of its versions, the one just kept counted in, and touches nothing else.
pub proof fn keeping_leaves_the_newest_versions(
    disk: Map<Seq<char>, File>,
    id: Seq<char>,
    now: int,
    at: i128,
)
    requires
        plain_id(id),
        disk.dom().finite(),
        0 <= now,
    ensures
        ({
            let after = run(disk, keep_acts(disk.dom(), id, now), at);
            &&& !after.contains_key(secret_file(id))
            &&& after.dom().finite()
            &&& disk.contains_key(secret_file(id)) ==> versions_of(after.dom(), id) == newest(
                versions_of(moved_names(disk.dom(), id, now), id),
            ) && versions_of(after.dom(), id).len() <= KEEP_VERSIONS
            &&& forall|p: Seq<char>|
                p != secret_file(id) && parent(p) != Some(version_dir(id)) ==> #[trigger] same_at(
                    after,
                    disk,
                    p,
                )
        }),
{
    if disk.contains_key(secret_file(id)) {
        lemma_keep(disk, id, now, at);
    }
}

/// The version that keeping the current value of a secret makes of it.
pub open spec fn kept_version(names: Set<Seq<char>>, id: Seq<char>, now: int) -> (u64, Seq<char>) {
    let stamp = free_stamp(names, id, now);
    (stamp as u64, version_file(id, stamp))
}

/// What was at the file of `id` is its newest version afterwards, and of those it had before the
/// newest few are left.
pub open spec fn replaced_is_newest(
    before: Map<Seq<char>, File>,
    after: Map<Seq<char>, File>,
    id: Seq<char>,
    now: int,
) -> bool {
    let kept = kept_version(before.dom(), id, now);
    let v = versions_of(after.dom(), id);
    &&& v == newest(versions_of(before.dom(), id).push(kept))
    &&& v.last() == kept
    &&& after.contains_key(kept.1)
    &&& after[kept.1] == before[secret_file(id)]
}

/// The value that a write or a delete replaces is the newest version afterwards, however fast one
/// write followed another and wherever the clock stood, so the last few values that were replaced
/// are the ones that are kept. The one exception is a secret whose newest version bears the very
/// last second that can be written down.
pub proof fn the_replaced_value_is_kept(
    disk: Map<Seq<char>, File>,
    id: Seq<char>,
    now: int,
    at: i128,
)
    requires
        plain_id(id),
        disk.dom().finite(),
        0 <= now,
        now + disk.dom().len() <= u64::MAX,
        disk.contains_key(secret_file(id)),
        time_left(disk.dom(), id),
    ensures
        replaced_is_newest(disk, run(disk, keep_acts(disk.dom(), id, now), at), id, now),
{
    lemma_free_stamp(disk.dom(), id, now);
    lemma_kept_newest(disk, id, now, at);
}

/// The version just kept comes after all there were.
pub proof fn lemma_kept_newest(disk: Map<Seq<char>, File>, id: Seq<char>, now: int, at: i128)
    requires
        plain_id(id),
        disk.dom().finite(),
        0 <= now,
        free_stamp(disk.dom(), id, now) <= u64::MAX,
        disk.contains_key(secret_file(id)),
        time_left(disk.dom(), id),
    ensures
        replaced_is_newest(disk, run(disk, keep_acts(disk.dom(), id, now), at), id, now),
{
    let names = disk.dom();
    let x = kept_version(names, id, now);
    let after = run(disk, keep_acts(names, id, now), at);
    let moved = moved_names(names, id, now);
    lemma_free_stamp(names, id, now);
    lemma_latest_stamp(names, id, now);
    lemma_moved_versions(names, id, now);
    lemma_keep(disk, id, now, at);
    lemma_versions_exist(names, id);
    let w = versions_of(names, id);
    assert(is_version(moved, id, x));
    assert forall|y: (u64, Seq<char>)| #[trigger] is_version(moved, id, y) <==> is_version(
        names,
        id,
        y,
    ) || y == x by {}
    let j = lemma_one_more(names, moved, id, x);
    if j < w.len() {
        assert(earlier(x, w[j]));
        assert(is_version(names, id, w[j]));
    }
    assert(w.insert(j, x) =~= w.push(x));
    let v = versions_of(after.dom(), id);
    lemma_versions_exist(after.dom(), id);
    assert(v.last() == x);
    assert(is_version(after.dom(), id, v[v.len() - 1]));
}

/// What keeping a version leaves, in full.
pub proof fn lemma_keep(disk: Map<Seq<char>, File>, id: Seq<char>, now: int, at: i128)
    requires
        plain_id(id),
        disk.dom().finite(),
        0 <= now,
        disk.contains_key(secret_file(id)),
    ensures
        ({
            let after = run(disk, keep_acts(disk.dom(), id, now), at);
            let kept = version_file(id, free_stamp(disk.dom(), id, now));
            &&& !after.contains_key(secret_file(id))
            &&& after.dom().finite()
            &&& versions_of(after.dom(), id) == newest(
                versions_of(moved_names(disk.dom(), id, now), id),
            )
            &&& forall|p: Seq<char>|
                p != secret_file(id) && parent(p) != Some(version_dir(id)) ==> #[trigger] same_at(
                    after,
                    disk,
                    p,
                )
            &&& forall|p: Seq<char>|
                parent(p) == Some(version_dir(id)) && #[trigger] after.contains_key(p) ==> if p
                    == kept {
                    after[p] == disk[secret_file(id)]
                } else {
                    disk.contains_key(p) && after[p] == disk[p]
                }
        }),
{
    let names = disk.dom();
    let stamp = free_stamp(names, id, now);
    let kept = version_file(id, stamp);
    let moved = move_acts(names, id, now);
    let mid = run(disk, moved, at);
    lemma_move(disk, id, now, at);
    lemma_free_stamp(names, id, now);
    lemma_files(id);
    lemma_version_files(id, stamp);
    names_follow_the_files(disk, moved, at);
    assert(mid.dom() =~= moved_names(names, id, now));
    let v = versions_of(mid.dom(), id);
    lemma_versions_exist(mid.dom(), id);
    let trims = trim_acts(v);
    let n: int = if v.len() > KEEP_VERSIONS {
        v.len() - KEEP_VERSIONS
    } else {
        0
    };
    assert(trims.len() == n);
    lemma_run_add(disk, moved, trims, at);
    let after = run(mid, trims, at);
    assert(after == run(disk, keep_acts(names, id, now), at));
    lemma_removes(mid, trims, at);
    assert forall|p: Seq<char>| trims.contains(Act::Remove(p)) <==> exists|k: int|
        0 <= k < n && (#[trigger] v[k]).1 == p by {
        if trims.contains(Act::Remove(p)) {
            let k = choose|k: int| 0 <= k < trims.len() && trims[k] == Act::Remove(p);
            assert(v[k].1 == p);
        }
        if exists|k: int| 0 <= k < n && (#[trigger] v[k]).1 == p {
            let k = choose|k: int| 0 <= k < n && (#[trigger] v[k]).1 == p;
            assert(trims[k] == Act::Remove(p));
        }
    }
    assert forall|p: Seq<char>| #[trigger] after.dom().contains(p) <==> mid.dom().contains(p)
        && !exists|k: int| 0 <= k < n && (#[trigger] v[k]).1 == p by {
        assert(after.contains_key(p) <==> mid.contains_key(p) && !trims.contains(Act::Remove(p)));
    }
    lemma_trimmed(mid.dom(), after.dom(), id, v, n);
    lemma_versions_unique(after.dom(), id, v.skip(n));
    assert(v.skip(n) =~= newest(v));
    assert(after.dom().subset_of(mid.dom()));
    vstd::set_lib::lemma_len_subset(after.dom(), mid.dom());
    assert forall|p: Seq<char>|
        p != secret_file(id) && parent(p) != Some(version_dir(id)) implies #[trigger] same_at(
        after,
        disk,
        p,
    ) by {
        assert(p != kept);
        if trims.contains(Act::Remove(p)) {
            let k = choose|k: int| 0 <= k < n && (#[trigger] v[k]).1 == p;
            assert(is_version(mid.dom(), id, v[k]));
        }
        assert(after.contains_key(p) <==> mid.contains_key(p));
        assert(after[p] == mid[p]);
    }
    assert forall|p: Seq<char>|
        parent(p) == Some(version_dir(id)) && #[trigger] after.contains_key(p) implies if p
        == kept {
        after[p] == disk[secret_file(id)]
    } else {
        disk.contains_key(p) && after[p] == disk[p]
    } by {
        assert(!trims.contains(Act::Remove(p)));
        assert(after[p] == mid[p]);
    }
}

/// Where the same files are versions, the versions are the same.
pub proof fn lemma_same_versions(a: Set<Seq<char>>, b: Set<Seq<char>>, id: Seq<char>)
    requires
        b.finite(),
        forall|x: (u64, Seq<char>)| #[trigger] is_version(a, id, x) <==> is_version(b, id, x),
    ensures
        versions_of(a, id) == versions_of(b, id),
{
    let v = versions_of(b, id);
    lemma_versions_exist(b, id);
    assert forall|k: int| 0 <= k < v.len() implies is_version(a, id, #[trigger] v[k]) by {
        assert(is_version(b, id, v[k]));
    }
    assert forall|x: (u64, Seq<char>)| #[trigger] is_version(a, id, x) implies v.contains(x) by {
        assert(is_version(b, id, x));
    }
    lemma_versions_unique(a, id, v);
}

// ---------------------------------------------------------------------------------------------
// Writing and deleting

/// A write puts the file in place and takes its temporary file away.
pub proof fn lemma_write(disk: Map<Seq<char>, File>, path: Seq<char>, bytes: Seq<u8>, at: i128)
    requires
        temporary(path) != path,
    ensures
        run(disk, write_acts(path, bytes), at) == disk.remove(temporary(path)).insert(
            path,
            File { bytes, modified: at },
        ),
{
    let w = write_acts(path, bytes);
    reveal_with_fuel(run, 3);
    assert(w.drop_last() =~= seq![w[0]]);
    assert(seq![w[0]].drop_last() =~= Seq::<Act>::empty());
    assert(run(disk, w, at) =~= disk.remove(temporary(path)).insert(
        path,
        File { bytes, modified: at },
    ));
}

/// Adding to the index touches the index alone.
proof fn lemma_index_add(
    disk: Map<Seq<char>, File>,
    index: Option<Seq<char>>,
    name: Seq<char>,
    at: i128,
)
    ensures
        forall|p: Seq<char>|
            parent(p) is Some ==> #[trigger] same_at(
                run(disk, index_add_acts(index, name), at),
                disk,
                p,
            ),
{
    lemma_index_file();
    match index_names(index) {
        Some(names) => {
            lemma_write(
                disk,
                "names"@,
                encode_utf8(crate::index::index_text(names.to_set().insert(name))),
                at,
            );
        },
        None => {},
    }
}

/// The files of different secrets are different files.
pub proof fn lemma_other_files(id: Seq<char>, other: Seq<char>)
    requires
        plain_id(id),
        plain_id(other),
        id != other,
    ensures
        secret_file(other) != secret_file(id),
        secret_file(other) != tomb_file(id),
        tomb_file(other) != secret_file(id),
        tomb_file(other) != tomb_file(id),
        secret_file(other) != temporary(secret_file(id)),
        tomb_file(other) != temporary(secret_file(id)),
        parent(secret_file(other)) != Some(version_dir(id)),
        parent(tomb_file(other)) != Some(version_dir(id)),
{
    lemma_files(id);
    lemma_files(other);
    lemma_version_files(id, 0);
}

/// After a write the file holds what was written and no tombstone hides it, whatever was there
/// before; every other secret is as it was, its versions too; and what was replaced is the newest
/// version, bytes unchanged, or where there was nothing to replace the versions are as they were.
#[verifier::spinoff_prover]
pub proof fn a_write_is_what_a_read_finds(
    disk: Map<Seq<char>, File>,
    id: Seq<char>,
    file: Seq<u8>,
    name: Seq<char>,
    index: Option<Seq<char>>,
    now: int,
    at: i128,
)
    requires
        plain_id(id),
        disk.dom().finite(),
        0 <= now,
        now + disk.dom().len() <= u64::MAX,
    ensures
        ({
            let after = run(disk, put_acts(disk.dom(), id, file, name, index, now), at);
            &&& after.contains_key(secret_file(id))
            &&& after[secret_file(id)].bytes == file
            &&& ids_of(after.dom()).contains(id)
            &&& others_untouched(after, disk, id)
            &&& disk.contains_key(secret_file(id)) && time_left(disk.dom(), id)
                ==> replaced_is_newest(disk, after, id, now)
            &&& !disk.contains_key(secret_file(id)) ==> versions_of(after.dom(), id) == versions_of(
                disk.dom(),
                id,
            )
        }),
{
    let names = disk.dom();
    let keep = keep_acts(names, id, now);
    let write = write_acts(secret_file(id), file);
    let make = seq![Act::MakeDir("store"@)];
    let replaced = replace_acts(names, id, file, now);
    let untomb = untomb_acts(names_after(names, replaced), id);
    let add_name = index_add_acts(index, name);
    assert(run(disk, make, at) == disk) by {
        reveal_with_fuel(run, 2);
        assert(make.drop_last() =~= Seq::<Act>::empty());
    }
    let d2 = run(disk, keep, at);
    let d3 = run(d2, write, at);
    let d4 = run(d3, untomb, at);
    let d5 = run(d4, add_name, at);
    lemma_run_add(disk, make, keep, at);
    lemma_run_add(disk, make + keep, write, at);
    lemma_run_add(disk, replaced, untomb, at);
    lemma_run_add(disk, replaced + untomb, add_name, at);
    assert(d5 == run(disk, put_acts(names, id, file, name, index, now), at));
    keeping_leaves_the_newest_versions(disk, id, now, at);
    lemma_files(id);
    lemma_version_files(id, 0);
    lemma_write(d2, secret_file(id), file, at);
    names_follow_the_files(disk, replaced, at);
    assert(d4 == d3.remove(tomb_file(id))) by {
        reveal_with_fuel(run, 2);
        if untomb.len() > 0 {
            assert(untomb.drop_last() =~= Seq::<Act>::empty());
        } else {
            assert(d3.remove(tomb_file(id)) =~= d3);
        }
    }
    lemma_index_add(d4, index, name, at);
    assert(same_at(d5, d4, secret_file(id)));
    assert(same_at(d5, d4, tomb_file(id)));
    assert forall|other: Seq<char>| plain_id(other) && other != id implies #[trigger] same_at(
        d5,
        disk,
        secret_file(other),
    ) && same_at(d5, disk, tomb_file(other)) by {
        lemma_other_files(id, other);
        lemma_files(other);
        assert(same_at(d2, disk, secret_file(other)));
        assert(same_at(d2, disk, tomb_file(other)));
        assert(same_at(d5, d4, secret_file(other)));
        assert(same_at(d5, d4, tomb_file(other)));
    }
    assert forall|other: Seq<char>, p: Seq<char>|
        plain_id(other) && other != id && parent(p) == Some(
            #[trigger] version_dir(other),
        ) implies #[trigger] same_at(d5, disk, p) by {
        lemma_version_files(other, 0);
        if version_dir(other) == version_dir(id) {
            lemma_version_dirs(other, id);
        }
        assert(same_at(d2, disk, p));
        assert(same_at(d5, d4, p));
    }
    assert(others_untouched(d5, disk, id));
    assert(ids_of(d5.dom()).contains(id));
    assert forall|p: Seq<char>| parent(p) == Some(version_dir(id)) implies #[trigger] same_at(
        d5,
        d2,
        p,
    ) by {
        assert(same_at(d5, d4, p));
    }
    lemma_versions_as_they_were(disk, d2, d5, id, now, at);
}

/// Where nothing more happens in the version directory, keeping a value decides the versions.
proof fn lemma_versions_as_they_were(
    disk: Map<Seq<char>, File>,
    mid: Map<Seq<char>, File>,
    after: Map<Seq<char>, File>,
    id: Seq<char>,
    now: int,
    at: i128,
)
    requires
        plain_id(id),
        disk.dom().finite(),
        0 <= now,
        now + disk.dom().len() <= u64::MAX,
        mid == run(disk, keep_acts(disk.dom(), id, now), at),
        forall|p: Seq<char>|
            parent(p) == Some(version_dir(id)) ==> #[trigger] same_at(after, mid, p),
    ensures
        disk.contains_key(secret_file(id)) && time_left(disk.dom(), id) ==> replaced_is_newest(
            disk,
            after,
            id,
            now,
        ),
        !disk.contains_key(secret_file(id)) ==> versions_of(after.dom(), id) == versions_of(
            disk.dom(),
            id,
        ),
{
    keeping_leaves_the_newest_versions(disk, id, now, at);
    assert forall|x: (u64, Seq<char>)| #[trigger] is_version(after.dom(), id, x) <==> is_version(
        mid.dom(),
        id,
        x,
    ) by {
        if parent(x.1) == Some(version_dir(id)) {
            assert(same_at(after, mid, x.1));
        }
    }
    lemma_same_versions(after.dom(), mid.dom(), id);
    if disk.contains_key(secret_file(id)) && time_left(disk.dom(), id) {
        the_replaced_value_is_kept(disk, id, now, at);
        lemma_free_stamp(disk.dom(), id, now);
        lemma_version_files(id, free_stamp(disk.dom(), id, now));
        assert(same_at(after, mid, kept_version(disk.dom(), id, now).1));
    }
}

/// After a delete the secret is hidden behind a tombstone that says when, every other secret is as
/// it was, its versions too, and the value is the newest version.
#[verifier::spinoff_prover]
pub proof fn a_delete_hides_and_keeps(
    disk: Map<Seq<char>, File>,
    id: Seq<char>,
    now: int,
    at: i128,
)
    requires
        plain_id(id),
        disk.dom().finite(),
        0 <= now,
        now + disk.dom().len() <= u64::MAX,
    ensures
        ({
            let after = run(disk, delete_acts(disk.dom(), id, now), at);
            &&& !after.contains_key(secret_file(id))
            &&& !ids_of(after.dom()).contains(id)
            &&& after.contains_key(tomb_file(id))
            &&& after[tomb_file(id)].bytes == encode_utf8(decimal(now))
            &&& others_untouched(after, disk, id)
            &&& disk.contains_key(secret_file(id)) && time_left(disk.dom(), id)
                ==> replaced_is_newest(disk, after, id, now)
            &&& !disk.contains_key(secret_file(id)) ==> versions_of(after.dom(), id) == versions_of(
                disk.dom(),
                id,
            )
        }),
{
    let names = disk.dom();
    let keep = keep_acts(names, id, now);
    let write = write_acts(tomb_file(id), encode_utf8(decimal(now)));
    let d2 = run(disk, keep, at);
    let d3 = run(d2, write, at);
    lemma_run_add(disk, keep, write, at);
    keeping_leaves_the_newest_versions(disk, id, now, at);
    lemma_files(id);
    lemma_version_files(id, 0);
    lemma_write(d2, tomb_file(id), encode_utf8(decimal(now)), at);
    assert forall|other: Seq<char>| plain_id(other) && other != id implies #[trigger] same_at(
        d3,
        disk,
        secret_file(other),
    ) && same_at(d3, disk, tomb_file(other)) by {
        lemma_other_files(id, other);
        lemma_files(other);
        assert(same_at(d2, disk, secret_file(other)));
        assert(same_at(d2, disk, tomb_file(other)));
        assert(same_at(d3, d2, secret_file(other)));
        assert(same_at(d3, d2, tomb_file(other)));
    }
    assert forall|other: Seq<char>, p: Seq<char>|
        plain_id(other) && other != id && parent(p) == Some(
            #[trigger] version_dir(other),
        ) implies #[trigger] same_at(d3, disk, p) by {
        lemma_version_files(other, 0);
        if version_dir(other) == version_dir(id) {
            lemma_version_dirs(other, id);
        }
        assert(same_at(d2, disk, p));
        assert(same_at(d3, d2, p));
    }
    assert(others_untouched(d3, disk, id));
    assert forall|p: Seq<char>| parent(p) == Some(version_dir(id)) implies #[trigger] same_at(
        d3,
        d2,
        p,
    ) by {}
    lemma_versions_as_they_were(disk, d2, d3, id, now, at);
}

/// A tombstone stands for its whole time after the delete that left it.
pub proof fn a_new_tombstone_is_fresh(left: int, now: int)
    requires
        0 <= left <= u64::MAX,
        now - left < TOMB_TTL_SECS,
    ensures
        tomb_stamp(Some(decimal(left))) == left,
        !expired(Some(decimal(left)), now),
{
    decimal_reads_back(left, u64::MAX as int);
    lemma_decimal_tight(left);
}

proof fn lemma_decimal_tight(n: int)
    requires
        0 <= n,
    ensures
        trim(decimal(n)) == decimal(n),
{
    let s = decimal(n);
    assert forall|c: char| crate::text::space(c) implies !s.contains(c) by {
        lemma_decimal_plain(n, c);
    }
    if s.len() > 0 {
        assert(s.contains(s[0]));
        assert(s.contains(s.last()));
    }
    crate::text::lemma_trim_tight(s);
}

/// What was encrypted to the store's recipient and written is what the key finds in the file, and
/// so the secret that is read out of it is the one that was put, every field of it, whatever form
/// secrets are written in, as long as that form is read back: `parse` is what reads it. The secret
/// is there and no tombstone hides it, even if it was deleted before, what was replaced is
/// its newest version with the bytes unchanged, and nothing of any other secret is touched.
pub proof fn the_key_reads_what_was_put(
    disk: Map<Seq<char>, File>,
    id: Seq<char>,
    file: Seq<u8>,
    json: Seq<u8>,
    secret: Secret,
    parse: spec_fn(Seq<u8>) -> Option<Secret>,
    recipient: Seq<char>,
    key: Seq<char>,
    name: Seq<char>,
    index: Option<Seq<char>>,
    now: int,
    at: i128,
)
    requires
        plain_id(id),
        disk.dom().finite(),
        0 <= now,
        now + disk.dom().len() <= u64::MAX,
        sealed(file, json, recipient),
        is_public_of(recipient, key),
        parse(json) == Some(secret),
    ensures
        ({
            let after = run(disk, put_acts(disk.dom(), id, file, name, index, now), at);
            &&& after.contains_key(secret_file(id))
            &&& age_open(after[secret_file(id)].bytes, key) == Some(json)
            &&& parse(age_open(after[secret_file(id)].bytes, key)->0) == Some(secret)
            &&& ids_of(after.dom()).contains(id)
            &&& !after.contains_key(tomb_file(id))
            &&& disk.contains_key(secret_file(id)) && time_left(disk.dom(), id)
                ==> replaced_is_newest(disk, after, id, now)
            &&& others_untouched(after, disk, id)
        }),
{
    a_write_is_what_a_read_finds(disk, id, file, name, index, now, at);
}

/// A version that is put back is what a read finds: the secret is there again with the bytes that
/// the version held, no tombstone hides it, the value it replaces is the newest version, and every
/// other secret is as it was.
pub proof fn a_restore_gives_the_version_back(
    disk: Map<Seq<char>, File>,
    id: Seq<char>,
    version: Seq<char>,
    name: Seq<char>,
    index: Option<Seq<char>>,
    now: int,
    at: i128,
)
    requires
        plain_id(id),
        disk.dom().finite(),
        0 <= now,
        now + disk.dom().len() <= u64::MAX,
        disk.contains_key(version),
    ensures
        ({
            let after = run(
                disk,
                restore_acts(disk.dom(), id, disk[version].bytes, name, index, now),
                at,
            );
            &&& after.contains_key(secret_file(id))
            &&& after[secret_file(id)].bytes == disk[version].bytes
            &&& ids_of(after.dom()).contains(id)
            &&& !after.contains_key(tomb_file(id))
            &&& disk.contains_key(secret_file(id)) && time_left(disk.dom(), id)
                ==> replaced_is_newest(disk, after, id, now)
            &&& !disk.contains_key(secret_file(id)) ==> versions_of(after.dom(), id) == versions_of(
                disk.dom(),
                id,
            )
            &&& others_untouched(after, disk, id)
        }),
{
    let names = disk.dom();
    let bytes = disk[version].bytes;
    let make = seq![Act::MakeDir("store"@)];
    let replaced = keep_acts(names, id, now) + write_acts(secret_file(id), bytes);
    let whole = replace_acts(names, id, bytes, now);
    assert(whole =~= make + replaced);
    crate::disk::lemma_names_add(names, make, replaced);
    assert(names_after(names, make) == names) by {
        reveal_with_fuel(names_after, 2);
        assert(make.drop_last() =~= Seq::<Act>::empty());
    }
    let put = put_acts(names, id, bytes, name, index, now);
    let back = restore_acts(names, id, bytes, name, index, now);
    assert(put =~= make + back);
    lemma_run_add(disk, make, back, at);
    assert(run(disk, make, at) == disk) by {
        reveal_with_fuel(run, 2);
        assert(make.drop_last() =~= Seq::<Act>::empty());
    }
    a_write_is_what_a_read_finds(disk, id, bytes, name, index, now, at);
}

// ---------------------------------------------------------------------------------------------
// Pruning

/// The tombstone of `id` is there and has stood for the whole of its time.
pub open spec fn prunes(
    tombs: Seq<Seq<char>>,
    read: Seq<Option<Seq<char>>>,
    now: int,
    id: Seq<char>,
) -> bool {
    exists|i: int|
        0 <= i < tombs.len() && #[trigger] tombs[i] == tomb_file(id) && expired(read[i], now)
}

/// `path` is a tombstone that has stood for the whole of its time, or lies among the versions that
/// one guards.
pub open spec fn is_pruned(
    tombs: Seq<Seq<char>>,
    read: Seq<Option<Seq<char>>>,
    now: int,
    path: Seq<char>,
) -> bool {
    exists|i: int|
        0 <= i < tombs.len() && expired(read[i], now) && (path == #[trigger] tombs[i] || below(
            path,
            version_dir(stem(file_name(tombs[i]))),
        ))
}

/// A file that is in both is the same in both, and it is in both or in neither.
pub open spec fn kept_at(
    a: Map<Seq<char>, File>,
    b: Map<Seq<char>, File>,
    path: Seq<char>,
) -> bool {
    a.contains_key(path) == b.contains_key(path) && (a.contains_key(path) ==> a[path] == b[path])
}

proof fn lemma_pruned(
    disk: Map<Seq<char>, File>,
    tombs: Seq<Seq<char>>,
    read: Seq<Option<Seq<char>>>,
    now: int,
    at: i128,
)
    ensures
        forall|p: Seq<char>| #[trigger]
            run(disk, prune_acts(tombs, read, now), at).contains_key(p) <==> disk.contains_key(p)
                && !is_pruned(tombs, read, now, p),
        forall|p: Seq<char>| #[trigger]
            run(disk, prune_acts(tombs, read, now), at).contains_key(p) ==> run(
                disk,
                prune_acts(tombs, read, now),
                at,
            )[p] == disk[p],
    decreases tombs.len(),
{
    let steps = prune_acts(tombs, read, now);
    if tombs.len() > 0 {
        let front = tombs.drop_last();
        let last = tombs.last();
        let before = prune_acts(front, read, now);
        lemma_pruned(disk, front, read, now, at);
        let mid = run(disk, before, at);
        let dir = version_dir(stem(file_name(last)));
        let gone = expired(read[tombs.len() - 1], now);
        let two = seq![Act::RemoveTree(dir), Act::Remove(last)];
        if gone {
            lemma_run_add(disk, before, two, at);
            reveal_with_fuel(run, 3);
            assert(two.drop_last() =~= seq![two[0]]);
            assert(seq![two[0]].drop_last() =~= Seq::<Act>::empty());
        }
        assert forall|p: Seq<char>| #[trigger] is_pruned(tombs, read, now, p) <==> is_pruned(
            front,
            read,
            now,
            p,
        ) || (gone && (p == last || below(p, dir))) by {
            if is_pruned(tombs, read, now, p) {
                let i = choose|i: int|
                    0 <= i < tombs.len() && expired(read[i], now) && (p == #[trigger] tombs[i]
                        || below(p, version_dir(stem(file_name(tombs[i])))));
                if i < front.len() {
                    assert(front[i] == tombs[i]);
                }
            }
            if is_pruned(front, read, now, p) {
                let i = choose|i: int|
                    0 <= i < front.len() && expired(read[i], now) && (p == #[trigger] front[i]
                        || below(p, version_dir(stem(file_name(front[i])))));
                assert(tombs[i] == front[i]);
            }
            if gone && (p == last || below(p, dir)) {
                assert(tombs[tombs.len() - 1] == last);
            }
        }
        let after = run(disk, steps, at);
        if gone {
            assert(after == apply(apply(mid, two[0], at), two[1], at));
        } else {
            assert(after == mid);
        }
        assert forall|p: Seq<char>| #[trigger] after.contains_key(p) <==> disk.contains_key(p)
            && !is_pruned(tombs, read, now, p) by {
            assert(mid.contains_key(p) <==> disk.contains_key(p) && !is_pruned(
                front,
                read,
                now,
                p,
            ));
        }
        assert forall|p: Seq<char>| #[trigger] after.contains_key(p) implies after[p] == disk[p] by {
            assert(mid.contains_key(p));
        }
    } else {
        assert forall|p: Seq<char>| !is_pruned(tombs, read, now, p) by {}
    }
}

/// What is right in the store is not among the versions of any secret.
proof fn lemma_not_below(path: Seq<char>, id: Seq<char>)
    requires
        plain_id(id),
        parent(path) == Some("store"@),
    ensures
        !below(path, version_dir(id)),
{
    reveal_strlit("store");
    reveal_strlit("store/.versions");
    reveal_strlit("/");
    assert(id.contains(id[0]));
    lemma_rcut(path, '/');
    let start = version_dir(id) + "/"@;
    assert(start == "store/.versions"@ + "/"@ + id + "/"@);
    if below(path, version_dir(id)) {
        assert(path.subrange(0, start.len() as int)[15] == path[15]);
        assert(start[15] == '/');
        assert(path.take(rcut(path, '/')).len() == 5);
    }
}

/// A version of one secret lies in no directory of another's.
proof fn lemma_below_own(path: Seq<char>, id: Seq<char>, other: Seq<char>)
    requires
        plain_id(id),
        plain_id(other),
        parent(path) == Some(version_dir(id)),
        below(path, version_dir(other)),
    ensures
        id == other,
{
    reveal_strlit("store/.versions");
    reveal_strlit("/");
    assert(id.contains(id[0]) && other.contains(other[0]));
    lemma_rcut(path, '/');
    let d = version_dir(id);
    let e = version_dir(other) + "/"@;
    assert(d == "store/.versions"@ + "/"@ + id);
    assert(e == "store/.versions"@ + "/"@ + other + "/"@);
    let at = rcut(path, '/');
    assert(path.take(at) == d);
    assert(path[d.len() as int] == '/');
    assert forall|i: int| 0 <= i < id.len() implies path[16 + i] == id[i] by {
        assert(path.take(at)[16 + i] == d[16 + i]);
    }
    assert forall|i: int| 0 <= i < other.len() implies path[16 + i] == other[i] by {
        assert(path.subrange(0, e.len() as int)[16 + i] == e[16 + i]);
    }
    assert(path.subrange(0, e.len() as int)[16 + other.len() as int] == '/');
    if id.len() < other.len() {
        assert(other[id.len() as int] == '/');
        assert(other.contains('/'));
    }
    if other.len() < id.len() {
        assert(id[other.len() as int] == '/');
        assert(id.contains('/'));
    }
    assert(id =~= other);
}

/// A tombstone is that of the plain id it is named after.
proof fn lemma_tomb(path: Seq<char>)
    requires
        is_tomb(path),
    ensures
        plain_id(stem(file_name(path))),
        path == tomb_file(stem(file_name(path))),
{
    lemma_parts(path);
    lemma_files(stem(file_name(path)));
}

/// Pruning takes the tombstones that have stood for the whole of their time and the versions they
/// guard, and nothing else: every secret is as it was, and so is every younger tombstone, every
/// version of a secret without an old one, and every other file.
pub proof fn pruning_takes_the_expired_and_nothing_else(
    disk: Map<Seq<char>, File>,
    read: Seq<Option<Seq<char>>>,
    now: int,
    at: i128,
)
    requires
        disk.dom().finite(),
        read.len() == tomb_paths(disk.dom()).len(),
    ensures
        ({
            let tombs = tomb_paths(disk.dom());
            let after = run(disk, prune_acts(tombs, read, now), at);
            &&& forall|p: Seq<char>| #[trigger]
                after.contains_key(p) <==> disk.contains_key(p) && !is_pruned(tombs, read, now, p)
            &&& forall|p: Seq<char>| #[trigger] after.contains_key(p) ==> after[p] == disk[p]
            &&& forall|id: Seq<char>|
                plain_id(id) ==> #[trigger] kept_at(after, disk, secret_file(id))
            &&& forall|id: Seq<char>|
                plain_id(id) && !prunes(tombs, read, now, id) ==> #[trigger] kept_at(
                    after,
                    disk,
                    tomb_file(id),
                )
            &&& forall|id: Seq<char>, p: Seq<char>|
                plain_id(id) && !prunes(tombs, read, now, id) && parent(p) == Some(
                    #[trigger] version_dir(id),
                ) ==> #[trigger] kept_at(after, disk, p)
            &&& forall|id: Seq<char>| #[trigger]
                prunes(tombs, read, now, id) && plain_id(id) ==> !after.contains_key(tomb_file(id))
            &&& forall|id: Seq<char>, p: Seq<char>|
                plain_id(id) && #[trigger] prunes(tombs, read, now, id) && #[trigger] below(
                    p,
                    version_dir(id),
                ) ==> !after.contains_key(p)
        }),
{
    let tombs = tomb_paths(disk.dom());
    let after = run(disk, prune_acts(tombs, read, now), at);
    let keep = |path: Seq<char>| is_tomb(path);
    lemma_pruned(disk, tombs, read, now, at);
    assert forall|i: int| 0 <= i < tombs.len() implies is_tomb(#[trigger] tombs[i]) by {
        in_order(disk.dom()).lemma_filter_pred(keep, i);
    }
    assert forall|id: Seq<char>| plain_id(id) implies #[trigger] kept_at(
        after,
        disk,
        secret_file(id),
    ) by {
        let p = secret_file(id);
        lemma_files(id);
        if is_pruned(tombs, read, now, p) {
            let i = choose|i: int|
                0 <= i < tombs.len() && expired(read[i], now) && (p == #[trigger] tombs[i] || below(
                    p,
                    version_dir(stem(file_name(tombs[i]))),
                ));
            lemma_tomb(tombs[i]);
            lemma_not_below(p, stem(file_name(tombs[i])));
        }
    }
    assert forall|id: Seq<char>| plain_id(id) && !prunes(tombs, read, now, id) implies #[trigger] kept_at(
        after,
        disk,
        tomb_file(id),
    ) by {
        let p = tomb_file(id);
        lemma_files(id);
        if is_pruned(tombs, read, now, p) {
            let i = choose|i: int|
                0 <= i < tombs.len() && expired(read[i], now) && (p == #[trigger] tombs[i] || below(
                    p,
                    version_dir(stem(file_name(tombs[i]))),
                ));
            lemma_tomb(tombs[i]);
            lemma_not_below(p, stem(file_name(tombs[i])));
            assert(prunes(tombs, read, now, id));
        }
    }
    assert forall|id: Seq<char>, p: Seq<char>|
        plain_id(id) && !prunes(tombs, read, now, id) && parent(p) == Some(
            #[trigger] version_dir(id),
        ) implies #[trigger] kept_at(after, disk, p) by {
        if is_pruned(tombs, read, now, p) {
            let i = choose|i: int|
                0 <= i < tombs.len() && expired(read[i], now) && (p == #[trigger] tombs[i] || below(
                    p,
                    version_dir(stem(file_name(tombs[i]))),
                ));
            lemma_tomb(tombs[i]);
            lemma_version_files(id, 0);
            if p != tombs[i] {
                lemma_below_own(p, id, stem(file_name(tombs[i])));
                assert(prunes(tombs, read, now, id));
            }
        }
    }
    assert forall|id: Seq<char>| #[trigger]
        prunes(tombs, read, now, id) && plain_id(id) implies !after.contains_key(tomb_file(id)) by {
        assert(is_pruned(tombs, read, now, tomb_file(id)));
    }
    assert forall|id: Seq<char>, p: Seq<char>|
        plain_id(id) && #[trigger] prunes(tombs, read, now, id) && #[trigger] below(
            p,
            version_dir(id),
        ) implies !after.contains_key(p) by {
        let i = choose|i: int|
            0 <= i < tombs.len() && #[trigger] tombs[i] == tomb_file(id) && expired(read[i], now);
        lemma_files(id);
        assert(stem(file_name(tombs[i])) == id);
        assert(is_pruned(tombs, read, now, p));
    }
}

// ---------------------------------------------------------------------------------------------
// The index

/// A write tells the index: where there is one, it holds the name afterwards along with all that it
/// held, each once and in order, and nothing else. Where there is none, none is begun, and the file
/// there may be is as it was.
#[verifier::spinoff_prover]
pub proof fn a_write_is_listed(
    disk: Map<Seq<char>, File>,
    id: Seq<char>,
    file: Seq<u8>,
    name: Seq<char>,
    index: Option<Seq<char>>,
    now: int,
    at: i128,
)
    requires
        plain_id(id),
        disk.dom().finite(),
        0 <= now,
    ensures
        ({
            let after = run(disk, put_acts(disk.dom(), id, file, name, index, now), at);
            lists_also(disk, after, index, name)
        }),
{
    let names = disk.dom();
    let keep = keep_acts(names, id, now);
    let write = write_acts(secret_file(id), file);
    let make = seq![Act::MakeDir("store"@)];
    let replaced = replace_acts(names, id, file, now);
    let untomb = untomb_acts(names_after(names, replaced), id);
    let add_name = index_add_acts(index, name);
    assert(run(disk, make, at) == disk) by {
        reveal_with_fuel(run, 2);
        assert(make.drop_last() =~= Seq::<Act>::empty());
    }
    let d2 = run(disk, keep, at);
    let d3 = run(d2, write, at);
    let d4 = run(d3, untomb, at);
    lemma_run_add(disk, make, keep, at);
    lemma_run_add(disk, make + keep, write, at);
    lemma_run_add(disk, replaced, untomb, at);
    lemma_run_add(disk, replaced + untomb, add_name, at);
    keeping_leaves_the_newest_versions(disk, id, now, at);
    lemma_files(id);
    lemma_index_file();
    lemma_write(d2, secret_file(id), file, at);
    assert(d4 == d3 || d4 == d3.remove(tomb_file(id))) by {
        reveal_with_fuel(run, 2);
        if untomb.len() > 0 {
            assert(untomb.drop_last() =~= Seq::<Act>::empty());
        }
    }
    assert(same_at(d2, disk, "names"@));
    assert(same_at(d4, disk, "names"@));
    if let Some(old) = index_names(index) {
        lemma_write(
            d4,
            "names"@,
            encode_utf8(crate::index::index_text(old.to_set().insert(name))),
            at,
        );
        lemma_listed(old, name);
    }
}

/// The index afterwards is what it was with this name in it, in order; without one nothing changed.
pub open spec fn lists_also(
    before: Map<Seq<char>, File>,
    after: Map<Seq<char>, File>,
    index: Option<Seq<char>>,
    name: Seq<char>,
) -> bool {
    match index_names(index) {
        Some(old) => after.contains_key("names"@) && exists|all: Seq<Seq<char>>|
            after["names"@].bytes == encode_utf8(#[trigger] crate::order::join(all, "\n"@))
                && crate::order::ascending(all) && forall|n: Seq<char>| #[trigger]
                all.contains(n) <==> old.contains(n) || n == name,
        None => same_at(after, before, "names"@),
    }
}

proof fn lemma_listed(old: Seq<Seq<char>>, name: Seq<char>)
    ensures
        ({
            let set = old.to_set().insert(name);
            let all = crate::order::in_order(set);
            &&& crate::index::index_text(set) == crate::order::join(all, "\n"@)
            &&& crate::order::ascending(all)
            &&& forall|n: Seq<char>| #[trigger] all.contains(n) <==> old.contains(n) || n == name
        }),
{
    let set = old.to_set().insert(name);
    vstd::seq_lib::seq_to_set_is_finite(old);
    crate::order::lemma_order_exists(set);
    let all = crate::order::in_order(set);
    assert forall|n: Seq<char>| #[trigger] all.contains(n) <==> old.contains(n) || n == name by {
        assert(all.to_set().contains(n) == all.contains(n));
        assert(old.to_set().contains(n) == old.contains(n));
    }
}

/// A restore tells the index as a write does.
pub proof fn a_restore_is_listed(
    disk: Map<Seq<char>, File>,
    id: Seq<char>,
    bytes: Seq<u8>,
    name: Seq<char>,
    index: Option<Seq<char>>,
    now: int,
    at: i128,
)
    requires
        plain_id(id),
        disk.dom().finite(),
        0 <= now,
    ensures
        lists_also(
            disk,
            run(disk, restore_acts(disk.dom(), id, bytes, name, index, now), at),
            index,
            name,
        ),
{
    let names = disk.dom();
    let make = seq![Act::MakeDir("store"@)];
    let replaced = keep_acts(names, id, now) + write_acts(secret_file(id), bytes);
    let whole = replace_acts(names, id, bytes, now);
    assert(whole =~= make + replaced);
    crate::disk::lemma_names_add(names, make, replaced);
    assert(names_after(names, make) == names) by {
        reveal_with_fuel(names_after, 2);
        assert(make.drop_last() =~= Seq::<Act>::empty());
    }
    let back = restore_acts(names, id, bytes, name, index, now);
    assert(put_acts(names, id, bytes, name, index, now) =~= make + back);
    lemma_run_add(disk, make, back, at);
    assert(run(disk, make, at) == disk) by {
        reveal_with_fuel(run, 2);
        assert(make.drop_last() =~= Seq::<Act>::empty());
    }
    a_write_is_listed(disk, id, bytes, name, index, now, at);
}

/// A name that is taken out of the index is gone from it, and every other stays; without an index
/// there is nothing to do.
pub proof fn a_removed_name_is_not_listed(
    disk: Map<Seq<char>, File>,
    index: Option<Seq<char>>,
    name: Seq<char>,
    at: i128,
)
    ensures
        ({
            let after = run(disk, crate::index::index_remove_acts(index, name), at);
            match index_names(index) {
                Some(old) => after.contains_key("names"@) && exists|all: Seq<Seq<char>>|
                    after["names"@].bytes == encode_utf8(#[trigger] crate::order::join(all, "\n"@))
                        && crate::order::ascending(all) && forall|n: Seq<char>| #[trigger]
                        all.contains(n) <==> old.contains(n) && n != name,
                None => after == disk,
            }
        }),
{
    lemma_index_file();
    if let Some(old) = index_names(index) {
        let set = old.to_set().remove(name);
        vstd::seq_lib::seq_to_set_is_finite(old);
        crate::order::lemma_order_exists(set);
        let all = crate::order::in_order(set);
        lemma_write(disk, "names"@, encode_utf8(crate::index::index_text(set)), at);
        assert forall|n: Seq<char>| #[trigger] all.contains(n) <==> old.contains(n) && n != name by {
            assert(all.to_set().contains(n) == all.contains(n));
            assert(old.to_set().contains(n) == old.contains(n));
        }
        assert(crate::order::join(all, "\n"@) == crate::index::index_text(set));
    }
}

// ---------------------------------------------------------------------------------------------
// How much is kept, and how long

/// The last five versions are kept: as long as there are no more all of them stay, and of more the
/// oldest go.
pub proof fn the_last_five_are_kept(v: Seq<(u64, Seq<char>)>)
    ensures
        v.len() <= 5 ==> newest(v) == v,
        v.len() >= 5 ==> newest(v).len() == 5 && newest(v) == v.skip(v.len() - 5),
{
    assert(v.skip(0) =~= v);
}

/// A version bears the second in which it was kept, unless one of that second or later is there
/// already.
pub proof fn a_version_bears_its_time(names: Set<Seq<char>>, id: Seq<char>, now: int)
    requires
        plain_id(id),
        names.finite(),
        0 <= now <= u64::MAX,
        forall|x: (u64, Seq<char>)| #[trigger] is_version(names, id, x) ==> x.0 < now,
    ensures
        kept_version(names, id, now) == (now as u64, version_file(id, now)),
{
    let v = versions_of(names, id);
    lemma_versions_exist(names, id);
    if v.len() > 0 {
        assert(is_version(names, id, v[v.len() - 1]));
    }
    lemma_first_free(names, id, now);
    if names.contains(version_file(id, now)) {
        lemma_bears(names, id, now);
    }
    let f = first_free(names, id, now);
    if f > now {
        assert(names.contains(version_file(id, now)));
    }
}

/// A tombstone stands for ninety days from the delete and not a second longer. One that says nothing
/// that can be read counts as standing from the beginning of time.
pub proof fn a_tombstone_stands_for_ninety_days(left: int, now: int)
    requires
        0 <= left <= u64::MAX,
    ensures
        expired(Some(decimal(left)), now) <==> now - left >= 90 * 86400,
        expired(None, now) <==> now >= 90 * 86400,
{
    if now - left < TOMB_TTL_SECS {
        a_new_tombstone_is_fresh(left, now);
    } else {
        a_new_tombstone_is_fresh(left, left);
    }
}

/// A secret is a file of its own under a name that says nothing, its tombstone lies beside it, and its
/// versions lie in a directory of their own.
pub proof fn where_a_secret_is(id: Seq<char>, stamp: int)
    requires
        plain_id(id),
        0 <= stamp,
    ensures
        secret_file(id) == "store/"@ + id + ".age"@,
        tomb_file(id) == "store/"@ + id + ".tomb"@,
        version_file(id, stamp) == "store/.versions/"@ + id + "/"@ + decimal(stamp) + ".age"@,
{
    reveal_strlit("store");
    reveal_strlit("store/");
    reveal_strlit("/");
    reveal_strlit(".age");
    reveal_strlit(".tomb");
    reveal_strlit("store/.versions");
    reveal_strlit("store/.versions/");
    assert(id.contains(id[0]));
    assert((id + ".age"@)[0] == id[0]);
    assert((id + ".tomb"@)[0] == id[0]);
    assert(secret_file(id) =~= "store/"@ + id + ".age"@);
    assert(tomb_file(id) =~= "store/"@ + id + ".tomb"@);
    assert(version_dir(id) =~= "store/.versions/"@ + id);
    assert(id.contains(id.last()));
    assert(version_dir(id).last() == id.last());
    crate::number::lemma_decimal_plain(stamp, '/');
    crate::number::lemma_decimal_digits(stamp);
    let d = decimal(stamp) + ".age"@;
    assert(d[0] == decimal(stamp)[0]);
    assert(decimal(stamp).contains(decimal(stamp)[0]));
    assert(version_file(id, stamp) =~= "store/.versions/"@ + id + "/"@ + decimal(stamp) + ".age"@);
}

/// A secret is there exactly while its file is and no tombstone is, and one that was deleted still has
/// its file counted.
pub proof fn what_is_listed_is_there(names: Set<Seq<char>>, id: Seq<char>)
    requires
        plain_id(id),
    ensures
        ids_of(names).contains(id) <==> names.contains("store/"@ + id + ".age"@) && !names.contains(
            "store/"@ + id + ".tomb"@,
        ),
        ids_with_files_of(names).contains(id) <==> names.contains("store/"@ + id + ".age"@),
{
    where_a_secret_is(id, 0);
}

/// A secret that is only hidden is shown again as it was: its file is untouched, its tombstone is gone,
/// every other secret is as it was, and the index is told.
#[verifier::spinoff_prover]
pub proof fn a_hidden_secret_is_shown_again(
    disk: Map<Seq<char>, File>,
    id: Seq<char>,
    name: Seq<char>,
    index: Option<Seq<char>>,
    at: i128,
)
    requires
        plain_id(id),
        disk.contains_key(secret_file(id)),
    ensures
        ({
            let after = run(disk, crate::commands::lift_acts(disk.dom(), id, name, index), at);
            &&& ids_of(after.dom()).contains(id)
            &&& !after.contains_key(tomb_file(id))
            &&& same_at(after, disk, secret_file(id))
            &&& forall|other: Seq<char>|
                plain_id(other) && other != id ==> #[trigger] same_at(after, disk, secret_file(other))
            &&& lists_also(disk, after, index, name)
        }),
{
    let untomb = untomb_acts(disk.dom(), id);
    let add_name = index_add_acts(index, name);
    let d1 = run(disk, untomb, at);
    lemma_run_add(disk, untomb, add_name, at);
    assert(d1 == disk.remove(tomb_file(id))) by {
        reveal_with_fuel(run, 2);
        if untomb.len() > 0 {
            assert(untomb.drop_last() =~= Seq::<Act>::empty());
        } else {
            assert(disk.remove(tomb_file(id)) =~= disk);
        }
    }
    let after = run(d1, add_name, at);
    lemma_files(id);
    lemma_index_file();
    lemma_index_add(d1, index, name, at);
    assert(same_at(after, d1, secret_file(id)));
    assert(same_at(after, d1, tomb_file(id)));
    assert forall|other: Seq<char>| plain_id(other) && other != id implies #[trigger] same_at(
        after,
        disk,
        secret_file(other),
    ) by {
        lemma_other_files(id, other);
        lemma_files(other);
        assert(same_at(after, d1, secret_file(other)));
    }
    assert(same_at(d1, disk, "names"@));
    if let Some(old) = index_names(index) {
        lemma_write(
            d1,
            "names"@,
            encode_utf8(crate::index::index_text(old.to_set().insert(name))),
            at,
        );
        lemma_listed(old, name);
    }
}

} // verus!

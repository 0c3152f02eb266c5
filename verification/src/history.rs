//! What a write, a delete and a prune do to the files of a store, and what is kept of what they
//! replace.

use crate::crypto::{encrypt, Recipient};
use crate::disk::{
    acts, add_step, add_steps, append_steps, extension, file_name, lemma_names_a_file, lemma_names_add,
    name_of, names_a_file, names_after, parent, parent_of, private_dir, stem, stem_and_extension,
    write_acts, write_private, Act, Listing, Step,
};
use crate::header::sealed_to;
use crate::index::index_add_acts;
use crate::number::{
    decimal, lemma_decimal_injective, lemma_decimal_plain, parse, parse_up_to, to_decimal,
};
use crate::order::{ascending, in_order, less, lemma_less, lemma_less_transitive};
use crate::outside::{age_open, is_public_of};
use crate::problem::Problem;
use crate::store::{
    secret_file, secret_name, tomb_file, tomb_name, version_dir, version_file, version_name,
    version_place, Store, KEEP_VERSIONS, TOMB_TTL_SECS,
};
use crate::text::{same, seen, texts, trim, trimmed};
use vstd::prelude::*;
use vstd::string::*;
use vstd::utf8::encode_utf8;

verus! {

// ---------------------------------------------------------------------------------------------
// Versions

/// `a` was replaced before `b`; of two from the same second, the path decides.
pub open spec fn earlier(a: (u64, Seq<char>), b: (u64, Seq<char>)) -> bool {
    a.0 < b.0 || (a.0 == b.0 && less(a.1, b.1))
}

/// A file in the version directory of `id` whose stem is a number, with that number.
pub open spec fn is_version(names: Set<Seq<char>>, id: Seq<char>, v: (u64, Seq<char>)) -> bool {
    names.contains(v.1) && parent(v.1) == Some(version_dir(id)) && parse(
        stem(file_name(v.1)),
        u64::MAX as int,
    ) == Some(v.0 as int)
}

/// Every one comes before all that stand to its right.
pub open spec fn oldest_first(v: Seq<(u64, Seq<char>)>) -> bool {
    forall|i: int, j: int| 0 <= i < j < v.len() ==> earlier(#[trigger] v[i], #[trigger] v[j])
}

/// `v` holds the versions of `id`, all of them and nothing else, oldest first.
pub open spec fn lists_versions(
    names: Set<Seq<char>>,
    id: Seq<char>,
    v: Seq<(u64, Seq<char>)>,
) -> bool {
    &&& forall|k: int| 0 <= k < v.len() ==> is_version(names, id, #[trigger] v[k])
    &&& forall|x: (u64, Seq<char>)| #[trigger] is_version(names, id, x) ==> v.contains(x)
    &&& oldest_first(v)
}

/// The versions of `id`, oldest first.
pub open spec fn versions_of(names: Set<Seq<char>>, id: Seq<char>) -> Seq<(u64, Seq<char>)> {
    choose|v: Seq<(u64, Seq<char>)>| lists_versions(names, id, v)
}

/// The stamps and paths of a list of versions.
pub open spec fn stamped(v: Seq<(u64, String)>) -> Seq<(u64, Seq<char>)> {
    v.map_values(|x: (u64, String)| (x.0, x.1@))
}

proof fn lemma_same_order(a: Seq<(u64, Seq<char>)>, b: Seq<(u64, Seq<char>)>)
    requires
        oldest_first(a),
        oldest_first(b),
        forall|x: (u64, Seq<char>)| a.contains(x) <==> b.contains(x),
    ensures
        a == b,
    decreases a.len(),
{
    if a.len() == 0 {
        if b.len() > 0 {
            assert(b.contains(b[0]));
        }
        assert(a =~= b);
    } else {
        let x = a.last();
        assert(a.contains(x));
        assert(b.contains(x));
        let y = b.last();
        assert(b.contains(y));
        assert(a.contains(y));
        let k = choose|k: int| 0 <= k < b.len() && b[k] == x;
        let j = choose|j: int| 0 <= j < a.len() && a[j] == y;
        lemma_less(x.1, y.1);
        lemma_less(x.1, x.1);
        if k < b.len() - 1 {
            assert(earlier(b[k], b[b.len() - 1]));
            if j < a.len() - 1 {
                assert(earlier(a[j], a[a.len() - 1]));
            }
            assert(false);
        }
        let c = a.drop_last();
        let d = b.drop_last();
        assert forall|z: (u64, Seq<char>)| c.contains(z) <==> d.contains(z) by {
            lemma_less(z.1, z.1);
            if c.contains(z) {
                let m = choose|m: int| 0 <= m < c.len() && c[m] == z;
                assert(a[m] == z);
                assert(a.contains(z));
                assert(earlier(a[m], a[a.len() - 1]));
                let n = choose|n: int| 0 <= n < b.len() && b[n] == z;
                assert(d[n] == z);
            }
            if d.contains(z) {
                let m = choose|m: int| 0 <= m < d.len() && d[m] == z;
                assert(b[m] == z);
                assert(b.contains(z));
                assert(earlier(b[m], b[b.len() - 1]));
                let n = choose|n: int| 0 <= n < a.len() && a[n] == z;
                assert(c[n] == z);
            }
        }
        lemma_same_order(c, d);
        assert(a =~= c.push(x));
        assert(b =~= d.push(y));
    }
}

/// A list of the versions is the list of the versions.
pub proof fn lemma_versions_unique(
    names: Set<Seq<char>>,
    id: Seq<char>,
    v: Seq<(u64, Seq<char>)>,
)
    requires
        lists_versions(names, id, v),
    ensures
        versions_of(names, id) == v,
{
    let w = versions_of(names, id);
    assert(lists_versions(names, id, w));
    assert forall|x: (u64, Seq<char>)| v.contains(x) <==> w.contains(x) by {
        if v.contains(x) {
            let k = choose|k: int| 0 <= k < v.len() && v[k] == x;
            assert(is_version(names, id, v[k]));
        }
        if w.contains(x) {
            let k = choose|k: int| 0 <= k < w.len() && w[k] == x;
            assert(is_version(names, id, w[k]));
        }
    }
    lemma_same_order(v, w);
}

/// Put a version in its place: after all that are not newer.
fn place(out: &mut Vec<(u64, String)>, stamp: u64, path: &str)
    requires
        oldest_first(stamped(old(out)@)),
        forall|k: int| 0 <= k < old(out)@.len() ==> less(#[trigger] stamped(old(out)@)[k].1, path@),
    ensures
        oldest_first(stamped(final(out)@)),
        forall|x: (u64, Seq<char>)| #[trigger]
            stamped(final(out)@).contains(x) <==> stamped(old(out)@).contains(x) || x == (
                stamp,
                path@,
            ),
{
    let ghost was = stamped(out@);
    let ghost new = (stamp, path@);
    let mut at: usize = 0;
    while at < out.len() && out[at].0 <= stamp
        invariant
            at <= out@.len(),
            was == stamped(out@),
            forall|j: int| 0 <= j < at ==> (#[trigger] was[j]).0 <= stamp,
        decreases out@.len() - at,
    {
        assert(was[at as int].0 == out@[at as int].0);
        at = at + 1;
    }
    assert(at < was.len() ==> was[at as int].0 == out@[at as int].0);
    out.insert(at, (stamp, path.to_string()));
    proof {
        let is = stamped(out@);
        assert(is =~= was.insert(at as int, new));
        assert forall|p: int, q: int| 0 <= p < q < is.len() implies earlier(
            #[trigger] is[p],
            #[trigger] is[q],
        ) by {
            if p == at {
                assert(is[q] == was[q - 1]);
                if q - 1 > at {
                    assert(earlier(was[at as int], was[q - 1]));
                }
            } else if q == at {
                assert(is[p] == was[p]);
                assert(less(was[p].1, path@));
            } else {
                let p0 = if p < at {
                    p
                } else {
                    p - 1
                };
                let q0 = if q < at {
                    q
                } else {
                    q - 1
                };
                assert(is[p] == was[p0] && is[q] == was[q0]);
            }
        }
        assert forall|x: (u64, Seq<char>)| #[trigger] is.contains(x) <==> was.contains(x) || x
            == new by {
            if is.contains(x) {
                let k = choose|k: int| 0 <= k < is.len() && is[k] == x;
                if k < at {
                    assert(was[k] == x);
                } else if k > at {
                    assert(was[k - 1] == x);
                }
            }
            if was.contains(x) {
                let k = choose|k: int| 0 <= k < was.len() && was[k] == x;
                if k < at {
                    assert(is[k] == x);
                } else {
                    assert(is[k + 1] == x);
                }
            }
            assert(is[at as int] == new);
        }
    }
}

impl Store {
    /// The versions of an id, oldest first.
    pub fn versions(&self, listing: &Listing, id: &str) -> (r: Vec<(u64, String)>)
        ensures
            lists_versions(listing@, id@, stamped(r@)),
            stamped(r@) == versions_of(listing@, id@),
    {
        let ghost names = listing@;
        let dir = crate::disk::join("store/.versions", id);
        let paths = listing.all();
        let ghost all = texts(paths@);
        let mut out: Vec<(u64, String)> = Vec::new();
        let mut i: usize = 0;
        while i < paths.len()
            invariant
                i <= paths@.len(),
                all == texts(paths@),
                ascending(all),
                all.to_set() == names,
                dir@ == version_dir(id@),
                oldest_first(stamped(out@)),
                forall|k: int|
                    0 <= k < out@.len() ==> is_version(names, id@, #[trigger] stamped(out@)[k]),
                forall|k: int|
                    0 <= k < out@.len() && i < all.len() ==> less(
                        #[trigger] stamped(out@)[k].1,
                        all[i as int],
                    ),
                forall|j: int, s: u64|
                    0 <= j < i && is_version(names, id@, (s, #[trigger] all[j]))
                        ==> #[trigger] stamped(out@).contains((s, all[j])),
            decreases paths@.len() - i,
        {
            let path = paths[i].as_str();
            assert(all[i as int] == path@);
            assert(all.to_set().contains(all[i as int]));
            let ghost was = stamped(out@);
            let mut stamp: Option<u64> = None;
            if let Some(p) = parent_of(path) {
                if same(p.as_str(), dir.as_str()) {
                    let name = name_of(path);
                    let (s, _) = stem_and_extension(name.as_str());
                    stamp = parse_up_to(s.as_str(), u64::MAX);
                }
            }
            assert forall|s: u64| is_version(names, id@, (s, all[i as int])) <==> stamp == Some(s) by {
            }
            if let Some(s) = stamp {
                place(&mut out, s, path);
            }
            proof {
                let is = stamped(out@);
                assert forall|k: int| 0 <= k < is.len() implies is_version(
                    names,
                    id@,
                    #[trigger] is[k],
                ) && (i + 1 < all.len() ==> less(is[k].1, all[i + 1])) by {
                    assert(is.contains(is[k]));
                    if was.contains(is[k]) {
                        let m = choose|m: int| 0 <= m < was.len() && was[m] == is[k];
                        assert(is_version(names, id@, was[m]));
                        assert(less(was[m].1, all[i as int]));
                        if i + 1 < all.len() {
                            assert(less(all[i as int], all[i + 1]));
                            lemma_less_transitive(was[m].1, all[i as int], all[i + 1]);
                        }
                    } else {
                        if i + 1 < all.len() {
                            assert(less(all[i as int], all[i + 1]));
                        }
                    }
                }
                assert forall|j: int, s: u64|
                    0 <= j < i + 1 && is_version(names, id@, (s, #[trigger] all[j])) implies #[trigger] is.contains(
                    (s, all[j]),
                ) by {
                    if j < i {
                        assert(was.contains((s, all[j])));
                    }
                }
            }
            i = i + 1;
        }
        proof {
            let is = stamped(out@);
            assert forall|x: (u64, Seq<char>)| #[trigger] is_version(names, id@, x) implies is.contains(
                x,
            ) by {
                assert(all.to_set().contains(x.1));
                let j = choose|j: int| 0 <= j < all.len() && all[j] == x.1;
                assert(is.contains((x.0, all[j])));
            }
            lemma_versions_unique(names, id@, is);
        }
        out
    }
}

// ---------------------------------------------------------------------------------------------
// Keeping what is replaced

/// The first second from `now` on that no version of `id` bears.
pub open spec fn is_free_stamp(names: Set<Seq<char>>, id: Seq<char>, now: int, stamp: int) -> bool {
    &&& now <= stamp
    &&& !names.contains(version_file(id, stamp))
    &&& forall|t: int| now <= t < stamp ==> names.contains(#[trigger] version_file(id, t))
}

/// The first second from `now` on that no version of `id` bears.
pub open spec fn first_free(names: Set<Seq<char>>, id: Seq<char>, now: int) -> int {
    choose|stamp: int| is_free_stamp(names, id, now, stamp)
}

/// There are seconds left after the newest version of `id`.
pub open spec fn time_left(names: Set<Seq<char>>, id: Seq<char>) -> bool {
    let v = versions_of(names, id);
    v.len() > 0 ==> v.last().0 < u64::MAX
}

/// The second that the next version of `id` bears: now, or the one after the newest version where
/// that is not earlier, so that the next is the newest. Where no second is left after the newest
/// version, it is the first from now on that none bears.
pub open spec fn free_stamp(names: Set<Seq<char>>, id: Seq<char>, now: int) -> int {
    let v = versions_of(names, id);
    if v.len() > 0 && now <= v.last().0 < u64::MAX {
        v.last().0 + 1
    } else {
        first_free(names, id, now)
    }
}

/// Moving the current file of `id` among its versions.
pub open spec fn move_acts(names: Set<Seq<char>>, id: Seq<char>, now: int) -> Seq<Act> {
    seq![
        Act::MakeDir(version_dir(id)),
        Act::Rename(secret_file(id), version_file(id, free_stamp(names, id, now))),
    ]
}

/// Removing all but the newest few of some versions.
pub open spec fn trim_acts(versions: Seq<(u64, Seq<char>)>) -> Seq<Act> {
    if versions.len() > KEEP_VERSIONS {
        Seq::new((versions.len() - KEEP_VERSIONS) as nat, |i: int| Act::Remove(versions[i].1))
    } else {
        Seq::empty()
    }
}

/// What keeping the current file of `id` as a version does: nothing where there is none.
pub open spec fn keep_acts(names: Set<Seq<char>>, id: Seq<char>, now: int) -> Seq<Act> {
    if names.contains(secret_file(id)) {
        let moved = move_acts(names, id, now);
        moved + trim_acts(versions_of(names_after(names, moved), id))
    } else {
        Seq::empty()
    }
}

/// Versions of one id from different seconds are different files.
pub proof fn lemma_version_file_injective(id: Seq<char>, s: int, t: int)
    requires
        0 <= s,
        0 <= t,
        version_file(id, s) == version_file(id, t),
    ensures
        s == t,
{
    reveal_strlit(".age");
    reveal_strlit("/");
    let d = version_dir(id);
    lemma_decimal_plain(s, '/');
    lemma_decimal_plain(t, '/');
    let a = decimal(s) + ".age"@;
    let b = decimal(t) + ".age"@;
    if decimal(s).len() > 0 {
        assert(decimal(s).contains(decimal(s)[0]));
    }
    if decimal(t).len() > 0 {
        assert(decimal(t).contains(decimal(t)[0]));
    }
    assert(a[0] != '/' && b[0] != '/');
    let from: int = if d.len() == 0 || d.last() == '/' {
        d.len() as int
    } else {
        d.len() as int + 1
    };
    let p = version_file(id, s);
    assert(p.len() == from + a.len());
    assert(p.len() == from + b.len());
    assert(p.subrange(from, p.len() as int) =~= a);
    assert(p.subrange(from, p.len() as int) =~= b);
    assert(a.take(a.len() - 4) =~= decimal(s));
    assert(b.take(b.len() - 4) =~= decimal(t));
    lemma_decimal_injective(s, t);
}

/// The first free second is found.
fn find_stamp(listing: &Listing, id: &str, now: u64) -> (r: u64)
    requires
        now + listing@.len() < u64::MAX,
    ensures
        is_free_stamp(listing@, id@, now as int, r as int),
        r == first_free(listing@, id@, now as int),
        r <= now + listing@.len(),
{
    let ghost names = listing@;
    let ghost mut taken = Set::<Seq<char>>::empty();
    let count = listing.len();
    let mut stamp: u64 = now;
    while listing.has(version_name(id, stamp).as_str())
        invariant
            names == listing@,
            names.finite(),
            names.len() == count,
            now + count < u64::MAX,
            now <= stamp <= now + count,
            forall|t: int| now <= t < stamp ==> names.contains(#[trigger] version_file(id@, t)),
            taken.finite(),
            taken.len() == stamp - now,
            taken.subset_of(names),
            forall|p: Seq<char>| #[trigger]
                taken.contains(p) ==> exists|t: int| now <= t < stamp && p == version_file(id@, t),
        decreases now + count - stamp,
    {
        proof {
            let p = version_file(id@, stamp as int);
            if taken.contains(p) {
                let t = choose|t: int| now <= t < stamp && p == version_file(id@, t);
                lemma_version_file_injective(id@, t, stamp as int);
            }
            taken = taken.insert(p);
            vstd::set_lib::lemma_len_subset(taken, names);
        }
        stamp = stamp + 1;
    }
    proof {
        let s = first_free(names, id@, now as int);
        assert(is_free_stamp(names, id@, now as int, stamp as int));
        assert(is_free_stamp(names, id@, now as int, s));
        if s < stamp {
            assert(names.contains(version_file(id@, s)));
        }
        if stamp < s {
            assert(names.contains(version_file(id@, stamp as int)));
        }
    }
    stamp
}

/// The second for the next version is found.
fn next_stamp(held: &Vec<(u64, String)>, listing: &Listing, id: &str, now: u64) -> (r: u64)
    requires
        stamped(held@) == versions_of(listing@, id@),
        now + listing@.len() < u64::MAX,
    ensures
        r == free_stamp(listing@, id@, now as int),
{
    if held.len() > 0 {
        let newest: u64 = held[held.len() - 1].0;
        assert(newest == versions_of(listing@, id@).last().0);
        if now <= newest && newest < u64::MAX {
            return newest + 1;
        }
    }
    find_stamp(listing, id, now)
}

impl Store {
    /// Move the current file into the versions, trimming them to the newest few.
    pub fn keep_version(&self, listing: &mut Listing, id: &str, now: u64) -> (r: Vec<Step>)
        requires
            now + old(listing)@.len() < u64::MAX,
        ensures
            acts(r@) == keep_acts(old(listing)@, id@, now as int),
            final(listing)@ == names_after(old(listing)@, acts(r@)),
    {
        let mut steps: Vec<Step> = Vec::new();
        let ghost names = listing@;
        assert(acts(steps@) =~= Seq::<Act>::empty());
        let current = secret_name(id);
        if !listing.has(current.as_str()) {
            return steps;
        }
        let held = self.versions(listing, id);
        let stamp = next_stamp(&held, listing, id, now);
        assert(names_after(names, acts(steps@)) == listing@);
        add_step(&mut steps, listing, private_dir(version_place(id).as_str()));
        add_step(&mut steps, listing, Step::Rename { from: current, to: version_name(id, stamp) });
        let ghost moved = move_acts(names, id@, now as int);
        assert(acts(steps@) =~= moved);
        assert(names_after(names, moved) == listing@);
        let kept = self.versions(listing, id);
        let ghost v = stamped(kept@);
        assert(moved + Seq::new(0, |k: int| Act::Remove(v[k].1)) =~= moved);
        let mut i: usize = 0;
        while kept.len() - i > KEEP_VERSIONS
            invariant
                i <= kept@.len(),
                v == stamped(kept@),
                i > 0 ==> kept@.len() - i >= KEEP_VERSIONS,
                acts(steps@) == moved + Seq::new(i as nat, |k: int| Act::Remove(v[k].1)),
                listing@ == names_after(names, acts(steps@)),
            decreases kept@.len() - i,
        {
            add_step(&mut steps, listing, Step::Remove(kept[i].1.clone()));
            assert(acts(steps@) =~= moved + Seq::new((i + 1) as nat, |k: int| Act::Remove(v[k].1)));
            i = i + 1;
        }
        assert(acts(steps@) =~= keep_acts(names, id@, now as int));
        steps
    }
}

// ---------------------------------------------------------------------------------------------
// Writing and deleting

/// Dropping the tombstone of `id`, where there is one.
pub open spec fn untomb_acts(names: Set<Seq<char>>, id: Seq<char>) -> Seq<Act> {
    if names.contains(tomb_file(id)) {
        seq![Act::Remove(tomb_file(id))]
    } else {
        Seq::empty()
    }
}

/// Making room for a file and putting it in place.
pub open spec fn replace_acts(names: Set<Seq<char>>, id: Seq<char>, file: Seq<u8>, now: int) -> Seq<
    Act,
> {
    seq![Act::MakeDir("store"@)] + keep_acts(names, id, now) + write_acts(secret_file(id), file)
}

/// Writing a secret: what was there becomes a version, the file is put in place, a tombstone goes,
/// and the index follows.
pub open spec fn put_acts(
    names: Set<Seq<char>>,
    id: Seq<char>,
    file: Seq<u8>,
    name: Seq<char>,
    index: Option<Seq<char>>,
    now: int,
) -> Seq<Act> {
    let replaced = replace_acts(names, id, file, now);
    replaced + untomb_acts(names_after(names, replaced), id) + index_add_acts(index, name)
}

/// Deleting a secret: what was there becomes a version, and a tombstone says when, so that the
/// delete survives a sync.
pub open spec fn delete_acts(names: Set<Seq<char>>, id: Seq<char>, now: int) -> Seq<Act> {
    keep_acts(names, id, now) + write_acts(tomb_file(id), encode_utf8(decimal(now)))
}

/// `file` holds `plain` for every key that `recipient` is the public half of, and is sealed to that
/// one recipient.
pub open spec fn sealed(file: Seq<u8>, plain: Seq<u8>, recipient: Seq<char>) -> bool {
    &&& forall|key: Seq<char>| #[trigger]
        is_public_of(recipient, key) ==> age_open(file, key) == Some(plain)
    &&& sealed_to(file, 1)
}

/// The file and the tombstone of an id are names that files can have.
pub proof fn lemma_store_files(id: Seq<char>)
    ensures
        names_a_file(secret_file(id)),
        names_a_file(tomb_file(id)),
{
    reveal_strlit(".age");
    reveal_strlit(".tomb");
    let a = secret_file(id);
    let t = tomb_file(id);
    let fa = a.take(a.len() - 4);
    let ft = t.take(t.len() - 5);
    assert(a =~= fa + ".age"@);
    assert(t =~= ft + ".tomb"@);
    lemma_names_a_file(fa, ".age"@);
    lemma_names_a_file(ft, ".tomb"@);
}

impl Store {
    /// Drop the tombstone of an id, where there is one.
    pub fn untomb(&self, listing: &mut Listing, id: &str) -> (r: Vec<Step>)
        ensures
            acts(r@) == untomb_acts(old(listing)@, id@),
            final(listing)@ == names_after(old(listing)@, acts(r@)),
    {
        let mut steps: Vec<Step> = Vec::new();
        let ghost names = listing@;
        assert(acts(steps@) =~= Seq::<Act>::empty());
        assert(names_after(names, acts(steps@)) == listing@);
        let tomb = tomb_name(id);
        if listing.has(tomb.as_str()) {
            add_step(&mut steps, listing, Step::Remove(tomb));
            assert(acts(steps@) =~= untomb_acts(names, id@));
        }
        steps
    }

    /// Put a file that was already encrypted in the place of a secret.
    pub fn put_file(
        &self,
        listing: &mut Listing,
        id: &str,
        file: &[u8],
        name: &str,
        index: Option<&str>,
        now: u64,
    ) -> (r: Vec<Step>)
        requires
            now + old(listing)@.len() < u64::MAX,
        ensures
            acts(r@) == put_acts(old(listing)@, id@, file@, name@, seen(index), now as int),
            final(listing)@ == names_after(old(listing)@, acts(r@)),
    {
        let ghost names = listing@;
        let mut steps: Vec<Step> = Vec::new();
        assert(acts(steps@) =~= Seq::<Act>::empty());
        assert(names_after(names, acts(steps@)) == listing@);
        add_step(&mut steps, listing, private_dir("store"));
        let ghost a = acts(steps@);
        assert(a =~= seq![Act::MakeDir("store"@)]);
        assert(listing@ == names);
        let kept = self.keep_version(listing, id, now);
        let ghost k = acts(kept@);
        append_steps(&mut steps, kept);
        proof {
            lemma_store_files(id@);
        }
        let written = write_private(secret_name(id).as_str(), file);
        add_steps(&mut steps, listing, written);
        let ghost replaced = replace_acts(names, id@, file@, now as int);
        assert(acts(steps@) =~= replaced);
        proof {
            lemma_names_add(names, a, k);
            lemma_names_add(names, a + k, write_acts(secret_file(id@), file@));
        }
        let tomb = self.untomb(listing, id);
        append_steps(&mut steps, tomb);
        proof {
            lemma_names_add(names, replaced, acts(tomb@));
        }
        let more = self.index_add(index, name);
        add_steps(&mut steps, listing, more);
        proof {
            lemma_names_add(names, replaced + acts(tomb@), acts(more@));
        }
        assert(acts(steps@) =~= put_acts(names, id@, file@, name@, seen(index), now as int));
        steps
    }

    /// Encrypt and write, keeping the previous file as a version. `json` is the secret in the form
    /// its file holds.
    pub fn put(
        &self,
        listing: &mut Listing,
        id: &str,
        json: &[u8],
        name: &str,
        recipient: &Recipient,
        index: Option<&str>,
        now: u64,
    ) -> (r: Result<Vec<Step>, Problem>)
        requires
            now + old(listing)@.len() < u64::MAX,
        ensures
            r is Ok,
            r matches Ok(steps) ==> final(listing)@ == names_after(old(listing)@, acts(steps@))
                && exists|file: Seq<u8>| #[trigger]
                sealed(file, json@, recipient@) && acts(steps@) == put_acts(
                    old(listing)@,
                    id@,
                    file,
                    name@,
                    seen(index),
                    now as int,
                ),
    {
        let mut to: Vec<Recipient> = Vec::new();
        to.push(recipient.again());
        assert(to@[0]@ == recipient@);
        match encrypt(json, &to) {
            Ok(file) => {
                assert(sealed(file@, json@, recipient@));
                Ok(self.put_file(listing, id, file.as_slice(), name, index, now))
            },
            Err(e) => Err(e),
        }
    }

    /// Version the current file, then leave a tombstone so the delete survives a sync.
    pub fn delete(&self, listing: &mut Listing, id: &str, now: u64) -> (r: Vec<Step>)
        requires
            now + old(listing)@.len() < u64::MAX,
        ensures
            acts(r@) == delete_acts(old(listing)@, id@, now as int),
            final(listing)@ == names_after(old(listing)@, acts(r@)),
    {
        let ghost names = listing@;
        let mut steps = self.keep_version(listing, id, now);
        let ghost k = acts(steps@);
        proof {
            lemma_store_files(id@);
        }
        let stamp = to_decimal(now);
        let written = write_private(tomb_name(id).as_str(), stamp.as_str().as_bytes());
        add_steps(&mut steps, listing, written);
        proof {
            lemma_names_add(names, k, acts(written@));
        }
        steps
    }
}

// ---------------------------------------------------------------------------------------------
// Pruning

/// A tombstone: a file right in the store with the extension `tomb`.
pub open spec fn is_tomb(path: Seq<char>) -> bool {
    parent(path) == Some("store"@) && extension(file_name(path)) == Some("tomb"@)
}

/// The tombstones, in order.
pub open spec fn tomb_paths(names: Set<Seq<char>>) -> Seq<Seq<char>> {
    in_order(names).filter(|path: Seq<char>| is_tomb(path))
}

/// When a tombstone was left. One that cannot be read is as old as can be.
pub open spec fn tomb_stamp(text: Option<Seq<char>>) -> int {
    match text {
        Some(t) => match parse(trim(t), u64::MAX as int) {
            Some(stamp) => stamp,
            None => 0,
        },
        None => 0,
    }
}

/// A tombstone has stood for the whole of its time.
pub open spec fn expired(text: Option<Seq<char>>, now: int) -> bool {
    now - tomb_stamp(text) >= TOMB_TTL_SECS
}

/// Dropping the tombstones that expired, along with the versions they guard.
pub open spec fn prune_acts(
    tombs: Seq<Seq<char>>,
    read: Seq<Option<Seq<char>>>,
    now: int,
) -> Seq<Act>
    decreases tombs.len(),
{
    if tombs.len() == 0 {
        Seq::empty()
    } else {
        let before = prune_acts(tombs.drop_last(), read, now);
        let path = tombs.last();
        if expired(read[tombs.len() - 1], now) {
            before + seq![Act::RemoveTree(version_dir(stem(file_name(path)))), Act::Remove(path)]
        } else {
            before
        }
    }
}

/// What was read of each tombstone.
pub open spec fn readings(read: Seq<Option<String>>) -> Seq<Option<Seq<char>>> {
    read.map_values(
        |text: Option<String>|
            match text {
                Some(t) => Some(t@),
                None => None,
            },
    )
}

/// Whether a tombstone has stood for the whole of its time.
pub fn is_expired(text: &Option<String>, now: u64) -> (r: bool)
    ensures
        r == expired(
            match text {
                Some(t) => Some(t@),
                None => None,
            },
            now as int,
        ),
{
    let stamp: u64 = match text {
        Some(t) => match parse_up_to(trimmed(t.as_str()).as_str(), u64::MAX) {
            Some(stamp) => stamp,
            None => 0,
        },
        None => 0,
    };
    now >= stamp && now - stamp >= TOMB_TTL_SECS
}

impl Store {
    /// The tombstones, in order.
    pub fn tombs(&self, listing: &Listing) -> (r: Vec<String>)
        ensures
            texts(r@) == tomb_paths(listing@),
    {
        let paths = listing.all();
        let ghost all = texts(paths@);
        let ghost keep = |path: Seq<char>| is_tomb(path);
        let mut out: Vec<String> = Vec::new();
        let mut i: usize = 0;
        proof {
            reveal(Seq::filter);
            assert(texts(out@) =~= all.take(0).filter(keep));
        }
        while i < paths.len()
            invariant
                i <= paths@.len(),
                all == texts(paths@),
                keep == (|path: Seq<char>| is_tomb(path)),
                texts(out@) == all.take(i as int).filter(keep),
            decreases paths@.len() - i,
        {
            let path = paths[i].as_str();
            let mut tomb = false;
            if let Some(p) = parent_of(path) {
                if same(p.as_str(), "store") {
                    if let (_, Some(e)) = stem_and_extension(name_of(path).as_str()) {
                        tomb = same(e.as_str(), "tomb");
                    }
                }
            }
            assert(tomb == is_tomb(path@));
            let ghost before = texts(out@);
            if tomb {
                out.push(paths[i].clone());
                assert(texts(out@) =~= before.push(paths@[i as int]@));
            }
            proof {
                reveal(Seq::filter);
                assert(all.take(i + 1).drop_last() =~= all.take(i as int));
                assert(all.take(i + 1).last() == paths@[i as int]@);
            }
            i = i + 1;
        }
        assert(all.take(i as int) =~= all);
        out
    }

    /// Drop the tombstones that are older than their time, along with the versions they guard.
    /// `read` holds what each tombstone says, in the order of `tombs`.
    pub fn prune_tombs(&self, listing: &mut Listing, read: &Vec<Option<String>>, now: u64) -> (r: (
        usize,
        Vec<Step>,
    ))
        requires
            read@.len() == tomb_paths(old(listing)@).len(),
        ensures
            acts(r.1@) == prune_acts(tomb_paths(old(listing)@), readings(read@), now as int),
            2 * r.0 == r.1@.len(),
            final(listing)@ == names_after(old(listing)@, acts(r.1@)),
    {
        let ghost names = listing@;
        let tombs = self.tombs(listing);
        let ghost all = texts(tombs@);
        let mut steps: Vec<Step> = Vec::new();
        let mut pruned: usize = 0;
        let mut i: usize = 0;
        assert(acts(steps@) =~= prune_acts(all.take(0), readings(read@), now as int));
        assert(names_after(names, acts(steps@)) == listing@);
        while i < tombs.len()
            invariant
                i <= tombs@.len(),
                all == texts(tombs@),
                read@.len() == tombs@.len(),
                pruned <= i,
                acts(steps@) == prune_acts(all.take(i as int), readings(read@), now as int),
                2 * pruned == steps@.len(),
                listing@ == names_after(names, acts(steps@)),
            decreases tombs@.len() - i,
        {
            proof {
                assert(all.take(i + 1).drop_last() =~= all.take(i as int));
                assert(all.take(i + 1).last() == tombs@[i as int]@);
            }
            let ghost before = acts(steps@);
            let path = tombs[i].as_str();
            if is_expired(&read[i], now) {
                let (id, _) = stem_and_extension(name_of(path).as_str());
                let ghost gone = Act::RemoveTree(version_dir(id@));
                add_step(&mut steps, listing, Step::RemoveTree(version_place(id.as_str())));
                add_step(&mut steps, listing, Step::Remove(tombs[i].clone()));
                pruned = pruned + 1;
                assert(acts(steps@) =~= before + seq![gone, Act::Remove(path@)]);
                assert(acts(steps@).len() == steps@.len());
            }
            i = i + 1;
        }
        assert(all.take(i as int) =~= all);
        (pruned, steps)
    }
}

/// Pruning leaves everything as it is while no tombstone has stood for the whole of its time, and
/// so long as none is from before its time a delete goes on surviving a sync.
pub proof fn fresh_tombstones_survive_pruning(
    tombs: Seq<Seq<char>>,
    read: Seq<Option<Seq<char>>>,
    now: int,
)
    requires
        read.len() == tombs.len(),
        forall|i: int| 0 <= i < read.len() ==> !expired(#[trigger] read[i], now),
    ensures
        prune_acts(tombs, read, now) == Seq::<Act>::empty(),
{
    lemma_prune_none(tombs, read, now);
}

proof fn lemma_prune_none(tombs: Seq<Seq<char>>, read: Seq<Option<Seq<char>>>, now: int)
    requires
        tombs.len() <= read.len(),
        forall|i: int| 0 <= i < read.len() ==> !expired(#[trigger] read[i], now),
    ensures
        prune_acts(tombs, read, now) == Seq::<Act>::empty(),
    decreases tombs.len(),
{
    if tombs.len() > 0 {
        lemma_prune_none(tombs.drop_last(), read, now);
    }
}

} // verus!

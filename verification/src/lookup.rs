//! Which secrets there are, and finding one by its name.

use crate::disk::{
    extension, file_name, lemma_parts, name_of, parent, parent_of, stem, stem_and_extension,
    Listing,
};
use crate::order::{in_order, sort, sort_dedup, sorted};
use crate::problem::Problem;
use crate::promises::{ids_of, ids_with_files_of, lemma_files, plain_id};
use crate::store::{secret_file, tomb_name, Secret, Store};
use crate::text::{same, texts};
use vstd::prelude::*;
use vstd::string::*;

verus! {

/// The file of a secret: right in the store, with the extension `age`.
pub open spec fn is_secret(path: Seq<char>) -> bool {
    parent(path) == Some("store"@) && extension(file_name(path)) == Some("age"@)
}

/// The id in the file name of a secret, if it is one.
pub fn id_in(path: &str) -> (r: Option<String>)
    ensures
        match r {
            Some(id) => is_secret(path@) && id@ == stem(file_name(path@)) && plain_id(id@) && path@
                == secret_file(id@),
            None => !is_secret(path@),
        },
{
    let p = match parent_of(path) {
        Some(p) => p,
        None => {
            return None;
        },
    };
    if !same(p.as_str(), "store") {
        return None;
    }
    let (id, ext) = stem_and_extension(name_of(path).as_str());
    match ext {
        Some(e) => if same(e.as_str(), "age") {
            proof {
                lemma_parts(path@);
                lemma_files(id@);
            }
            Some(id)
        } else {
            None
        },
        None => None,
    }
}

impl Store {
    /// Every id that still has a file, behind a tombstone or not, in order. A delete that arrived
    /// through a sync leaves the file in place, so undeleting it is a matter of dropping the
    /// tombstone.
    pub fn ids_with_files(&self, listing: &Listing) -> (r: Vec<String>)
        ensures
            texts(r@) == in_order(ids_with_files_of(listing@)),
            texts(r@).to_set() == ids_with_files_of(listing@),
    {
        let paths = listing.all();
        let ghost all = texts(paths@);
        let mut out: Vec<String> = Vec::new();
        let mut i: usize = 0;
        while i < paths.len()
            invariant
                i <= paths@.len(),
                all == texts(paths@),
                forall|k: int|
                    0 <= k < out@.len() ==> plain_id(#[trigger] texts(out@)[k]) && all.contains(
                        secret_file(texts(out@)[k]),
                    ),
                forall|id: Seq<char>, j: int|
                    0 <= j < i && plain_id(id) && #[trigger] all[j] == #[trigger] secret_file(id)
                        ==> texts(out@).contains(id),
            decreases paths@.len() - i,
        {
            let ghost before = texts(out@);
            assert(all[i as int] == paths@[i as int]@);
            let found = id_in(paths[i].as_str());
            if let Some(id) = &found {
                out.push(id.clone());
                assert(texts(out@) =~= before.push(id@));
            }
            proof {
                let now = texts(out@);
                assert forall|k: int| 0 <= k < now.len() implies plain_id(#[trigger] now[k])
                    && all.contains(secret_file(now[k])) by {
                    if k < before.len() {
                        assert(now[k] == before[k]);
                    } else {
                        assert(all[i as int] == secret_file(now[k]));
                    }
                }
                assert forall|id: Seq<char>, j: int|
                    0 <= j < i + 1 && plain_id(id) && #[trigger] all[j] == #[trigger] secret_file(
                        id,
                    ) implies now.contains(id) by {
                    if j < i {
                        let k = choose|k: int| 0 <= k < before.len() && before[k] == id;
                        assert(now[k] == id);
                    } else {
                        lemma_files(id);
                        assert(found is Some);
                        assert(now[before.len() as int] == id);
                    }
                }
            }
            i = i + 1;
        }
        proof {
            let now = texts(out@);
            assert forall|id: Seq<char>| now.to_set().contains(id) <==> ids_with_files_of(
                listing@,
            ).contains(id) by {
                if now.contains(id) {
                    let k = choose|k: int| 0 <= k < now.len() && now[k] == id;
                    assert(all.to_set().contains(secret_file(now[k])));
                }
                if ids_with_files_of(listing@).contains(id) {
                    assert(all.to_set().contains(secret_file(id)));
                    let j = choose|j: int| 0 <= j < all.len() && all[j] == secret_file(id);
                    assert(all[j] == secret_file(id));
                }
            }
            assert(now.to_set() =~= ids_with_files_of(listing@));
        }
        sort_dedup(&out)
    }

    /// The ids with a file and no tombstone, in order.
    pub fn ids(&self, listing: &Listing) -> (r: Vec<String>)
        ensures
            texts(r@) == in_order(ids_of(listing@)),
            texts(r@).to_set() == ids_of(listing@),
    {
        let held = self.ids_with_files(listing);
        let ghost all = texts(held@);
        let mut out: Vec<String> = Vec::new();
        let mut i: usize = 0;
        while i < held.len()
            invariant
                i <= held@.len(),
                all == texts(held@),
                all.to_set() == ids_with_files_of(listing@),
                forall|k: int|
                    0 <= k < out@.len() ==> ids_of(listing@).contains(#[trigger] texts(out@)[k]),
                forall|j: int|
                    0 <= j < i && ids_of(listing@).contains(#[trigger] all[j]) ==> texts(
                        out@,
                    ).contains(all[j]),
            decreases held@.len() - i,
        {
            let ghost before = texts(out@);
            assert(all[i as int] == held@[i as int]@);
            assert(all.to_set().contains(all[i as int]));
            if !listing.has(tomb_name(held[i].as_str()).as_str()) {
                out.push(held[i].clone());
                assert(texts(out@) =~= before.push(held@[i as int]@));
            }
            proof {
                let now = texts(out@);
                assert forall|k: int| 0 <= k < now.len() implies ids_of(listing@).contains(
                    #[trigger] now[k],
                ) by {
                    if k < before.len() {
                        assert(now[k] == before[k]);
                    }
                }
                assert forall|j: int|
                    0 <= j < i + 1 && ids_of(listing@).contains(
                        #[trigger] all[j],
                    ) implies now.contains(all[j]) by {
                    if j < i {
                        let k = choose|k: int| 0 <= k < before.len() && before[k] == all[j];
                        assert(now[k] == all[j]);
                    } else {
                        assert(now[before.len() as int] == all[j]);
                    }
                }
            }
            i = i + 1;
        }
        proof {
            let now = texts(out@);
            assert forall|id: Seq<char>| now.to_set().contains(id) <==> ids_of(
                listing@,
            ).contains(id) by {
                if now.contains(id) {
                    let k = choose|k: int| 0 <= k < now.len() && now[k] == id;
                    assert(ids_of(listing@).contains(now[k]));
                }
                if ids_of(listing@).contains(id) {
                    assert(all.to_set().contains(id));
                    let j = choose|j: int| 0 <= j < all.len() && all[j] == id;
                    assert(now.contains(all[j]));
                }
            }
            assert(now.to_set() =~= ids_of(listing@));
        }
        sort_dedup(&out)
    }

    /// Where a search for a name ends: at the first secret that bears it, or before that at the
    /// first that could not be loaded, or behind the last.
    pub fn find_index(&self, name: &str, loaded: &Vec<(String, Result<Secret, Problem>)>) -> (r:
        usize)
        ensures
            r == search_end(loaded@, name@),
            r <= loaded@.len(),
            r < loaded@.len() ==> is_end(loaded@[r as int], name@),
    {
        let ghost all = loaded@;
        let mut i: usize = 0;
        assert(all.skip(0) =~= all);
        while i < loaded.len() && !ends_search(&loaded[i], name)
            invariant
                i <= loaded@.len(),
                loaded@ == all,
                search_end(all, name@) == i + search_end(all.skip(i as int), name@),
            decreases loaded@.len() - i,
        {
            proof {
                assert(all.skip(i as int).drop_first() =~= all.skip(i + 1));
            }
            i = i + 1;
        }
        i
    }

    /// The first of some loaded secrets that bears a name, unless one before it could not be
    /// loaded.
    pub fn find(&self, name: &str, loaded: Vec<(String, Result<Secret, Problem>)>) -> (r: Result<
        Option<(String, Secret)>,
        Problem,
    >)
        ensures
            ({
                let i = search_end(loaded@, name@);
                match r {
                    Ok(None) => i == loaded@.len(),
                    Ok(Some((id, secret))) => i < loaded@.len() && loaded@[i] == (
                        id,
                        Ok::<Secret, Problem>(secret),
                    ) && secret.name@ == name@,
                    Err(e) => i < loaded@.len() && loaded@[i].1 == Err::<Secret, Problem>(e),
                }
            }),
    {
        let mut loaded = loaded;
        let i = self.find_index(name, &loaded);
        if i >= loaded.len() {
            return Ok(None);
        }
        let (id, secret) = loaded.remove(i);
        match secret {
            Ok(s) => Ok(Some((id, s))),
            Err(e) => Err(e),
        }
    }

    /// The names of all the secrets, in order, unless one could not be loaded.
    pub fn names(&self, loaded: Vec<Result<Secret, Problem>>) -> (r: Result<Vec<String>, Problem>)
        ensures
            match r {
                Ok(names) => {
                    &&& first_failure(loaded@) == loaded@.len()
                    &&& sorted(texts(names@))
                    &&& texts(names@).to_multiset() == names_of(loaded@).to_multiset()
                },
                Err(e) => first_failure(loaded@) < loaded@.len() && loaded@[first_failure(
                    loaded@,
                )] == Err::<Secret, Problem>(e),
            },
    {
        let mut loaded = loaded;
        let ghost all = loaded@;
        let mut out: Vec<String> = Vec::new();
        let mut i: usize = 0;
        assert(all.skip(0) =~= all);
        assert(texts(out@) =~= names_of(all.take(0)));
        while i < loaded.len() && loaded[i].is_ok()
            invariant
                i <= loaded@.len(),
                loaded@ == all,
                first_failure(all) == i + first_failure(all.skip(i as int)),
                texts(out@) == names_of(all.take(i as int)),
            decreases loaded@.len() - i,
        {
            proof {
                assert(all.skip(i as int).drop_first() =~= all.skip(i + 1));
            }
            let ghost before = texts(out@);
            if let Ok(s) = &loaded[i] {
                out.push(s.name.clone());
            }
            proof {
                assert(texts(out@) =~= before.push(all[i as int]->Ok_0.name@));
                assert(texts(out@) =~= names_of(all.take(i + 1)));
            }
            i = i + 1;
        }
        if i < loaded.len() {
            if let Err(e) = loaded.remove(i) {
                return Err(e);
            }
        }
        assert(all.take(i as int) =~= all);
        Ok(sort(&out))
    }
}

/// A search for `name` ends at this one: it bears the name, or it could not be loaded.
pub open spec fn is_end(one: (String, Result<Secret, Problem>), name: Seq<char>) -> bool {
    match one.1 {
        Ok(secret) => secret.name@ == name,
        Err(_) => true,
    }
}

/// Where a search for `name` ends, or the length where it finds nothing.
pub open spec fn search_end(
    loaded: Seq<(String, Result<Secret, Problem>)>,
    name: Seq<char>,
) -> int
    decreases loaded.len(),
{
    if loaded.len() == 0 || is_end(loaded[0], name) {
        0
    } else {
        1 + search_end(loaded.drop_first(), name)
    }
}

fn ends_search(one: &(String, Result<Secret, Problem>), name: &str) -> (r: bool)
    ensures
        r == is_end(*one, name@),
{
    match &one.1 {
        Ok(secret) => same(secret.name.as_str(), name),
        Err(_) => true,
    }
}

/// Where the first one stands that could not be loaded, or the length.
pub open spec fn first_failure(loaded: Seq<Result<Secret, Problem>>) -> int
    decreases loaded.len(),
{
    if loaded.len() == 0 || loaded[0] is Err {
        0
    } else {
        1 + first_failure(loaded.drop_first())
    }
}

/// The names of secrets that were all loaded.
pub open spec fn names_of(loaded: Seq<Result<Secret, Problem>>) -> Seq<Seq<char>> {
    loaded.map_values(|s: Result<Secret, Problem>| s->Ok_0.name@)
}

} // verus!

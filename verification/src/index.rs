//! A plaintext list of names, so that listing does not need the store key.
//!
//! Listing by unlocking the store would take the largest privilege there is for the smallest
//! question, and leave the key warm in the broker afterwards. The cost is that this one file names
//! what you hold. It never leaves the machine: sync skips it and a store that is a git repository
//! ignores it, so a copy elsewhere still says nothing.

use crate::disk::{acts, write_acts, write_private, Act, Listing, Step};
use crate::order::{
    ascending, in_order, join, join_texts, joined_lines_are_read_back, lemma_in_order,
    lemma_order_exists, sort_dedup,
};
use crate::store::Store;
use crate::text::{
    cut, lemma_cut, lines, nonempty, nonempty_texts, same, seen, strip_return, texts, to_lines,
};
use vstd::prelude::*;
use vstd::string::*;
use vstd::utf8::encode_utf8;

verus! {

/// The names in the index: its lines that are not empty. No index and an empty one are the same.
pub open spec fn index_names(index: Option<Seq<char>>) -> Option<Seq<Seq<char>>> {
    match index {
        Some(text) => if nonempty(lines(text)).len() > 0 {
            Some(nonempty(lines(text)))
        } else {
            None
        },
        None => None,
    }
}

/// The text of an index of these names: each once, in order, one to a line.
pub open spec fn index_text(names: Set<Seq<char>>) -> Seq<char> {
    join(in_order(names), "\n"@)
}

/// Writing an index of these names.
pub open spec fn index_acts(names: Set<Seq<char>>) -> Seq<Act> {
    write_acts("names"@, encode_utf8(index_text(names)))
}

/// Adding a name to the index. Without one there is nothing to keep in step: it is built when the
/// names are next asked for.
pub open spec fn index_add_acts(index: Option<Seq<char>>, name: Seq<char>) -> Seq<Act> {
    match index_names(index) {
        Some(names) => index_acts(names.to_set().insert(name)),
        None => Seq::empty(),
    }
}

/// Taking a name out of the index.
pub open spec fn index_remove_acts(index: Option<Seq<char>>, name: Seq<char>) -> Seq<Act> {
    match index_names(index) {
        Some(names) => index_acts(names.to_set().remove(name)),
        None => Seq::empty(),
    }
}

/// What was written to the index is what a later reading finds, in order. A name that is empty or
/// holds a line break does not come back, nor does one but the last that ends in a carriage return.
pub proof fn the_index_is_read_back(names: Seq<Seq<char>>)
    requires
        names.len() > 0,
        forall|i: int|
            0 <= i < names.len() ==> (#[trigger] names[i]).len() > 0 && !names[i].contains('\n') && (
            i < names.len() - 1 ==> names[i].last() != '\r'),
        ascending(names),
    ensures
        index_names(Some(index_text(names.to_set()))) == Some(names),
{
    lemma_in_order(names);
    joined_lines_are_read_back(names);
}

/// What an index is read as holds no line break and is not empty.
proof fn lemma_lines_plain(text: Seq<char>)
    ensures
        forall|i: int| 0 <= i < lines(text).len() ==> !(#[trigger] lines(text)[i]).contains('\n'),
    decreases text.len(),
{
    if text.len() > 0 {
        let i = cut(text, '\n');
        lemma_cut(text, '\n');
        if i < text.len() {
            let first = text.subrange(0, i);
            let rest = text.subrange(i + 1, text.len() as int);
            lemma_lines_plain(rest);
            let all = lines(text);
            assert(all == seq![strip_return(first)] + lines(rest));
            assert forall|k: int| 0 <= k < all.len() implies !(#[trigger] all[k]).contains('\n') by {
                if k == 0 {
                    let s = all[0];
                    if s.contains('\n') {
                        let m = choose|m: int| 0 <= m < s.len() && s[m] == '\n';
                        assert(text[m] == '\n');
                    }
                } else {
                    assert(all[k] == lines(rest)[k - 1]);
                }
            }
        } else {
            let all = lines(text);
            assert(all =~= seq![text]);
            if text.contains('\n') {
                let m = choose|m: int| 0 <= m < text.len() && text[m] == '\n';
                assert(text[m] == '\n');
            }
        }
    }
}

proof fn lemma_nonempty(v: Seq<Seq<char>>)
    ensures
        forall|i: int|
            0 <= i < nonempty(v).len() ==> (#[trigger] nonempty(v)[i]).len() > 0 && v.contains(
                nonempty(v)[i],
            ),
{
    let keep = |p: Seq<char>| p.len() > 0;
    let w = nonempty(v);
    assert forall|i: int| 0 <= i < w.len() implies (#[trigger] w[i]).len() > 0 && v.contains(w[i]) by {
        v.lemma_filter_pred(keep, i);
        assert(w.contains(w[i]));
        v.lemma_filter_contains_rev(keep, w[i]);
    }
}

/// A name that is added to the index is read back with all that were there, each once and in order;
/// adding it again changes nothing; and without an index there is still none, so that no partial
/// one is ever begun. A name that ends in a carriage return, and is not the last, does not come
/// back.
pub proof fn an_added_name_is_read_back(index: Option<Seq<char>>, name: Seq<char>)
    requires
        name.len() > 0,
        !name.contains('\n'),
        index_names(index) matches Some(old) ==> forall|i: int|
            0 <= i < in_order(old.to_set().insert(name)).len() - 1 ==> (#[trigger] in_order(
                old.to_set().insert(name),
            )[i]).last() != '\r',
    ensures
        match index_names(index) {
            Some(old) => {
                let all = old.to_set().insert(name);
                &&& index_add_acts(index, name) == index_acts(all)
                &&& index_names(Some(index_text(all))) == Some(in_order(all))
                &&& ascending(in_order(all))
                &&& in_order(all).to_set() == all
                &&& index_add_acts(Some(index_text(all)), name) == index_acts(all)
            },
            None => index_add_acts(index, name) == Seq::<Act>::empty(),
        },
{
    if let Some(old) = index_names(index) {
        let text = index->0;
        let all = old.to_set().insert(name);
        vstd::seq_lib::seq_to_set_is_finite(old);
        lemma_order_exists(all);
        let v = in_order(all);
        lemma_lines_plain(text);
        lemma_nonempty(lines(text));
        assert forall|i: int| 0 <= i < v.len() implies (#[trigger] v[i]).len() > 0
            && !v[i].contains('\n') by {
            assert(v.to_set().contains(v[i]));
            if v[i] != name {
                assert(old.contains(v[i]));
                let k = choose|k: int| 0 <= k < old.len() && old[k] == v[i];
                assert(lines(text).contains(old[k]));
                let m = choose|m: int| 0 <= m < lines(text).len() && lines(text)[m] == old[k];
                assert(!lines(text)[m].contains('\n'));
            }
        }
        assert(v.to_set().contains(name));
        the_index_is_read_back(v);
        assert(all.insert(name) =~= all);
    }
}

impl Store {
    /// The names in the index, from what its file holds.
    pub fn index_read(&self, index: Option<&str>) -> (r: Option<Vec<String>>)
        ensures
            match r {
                Some(names) => index_names(seen(index)) == Some(texts(names@)),
                None => index_names(seen(index)) is None,
            },
    {
        match index {
            Some(text) => {
                let names = nonempty_texts(&to_lines(text));
                if names.len() > 0 {
                    Some(names)
                } else {
                    None
                }
            },
            None => None,
        }
    }

    /// Write an index of these names.
    pub fn index_write(&self, names: &Vec<String>) -> (r: Vec<Step>)
        ensures
            acts(r@) == index_acts(texts(names@).to_set()),
    {
        proof {
            lemma_names_is_a_file();
        }
        let all = sort_dedup(names);
        let text = join_texts(&all, "\n");
        write_private("names", text.as_str().as_bytes())
    }

    /// Keep the index in step with a secret that was written.
    pub fn index_add(&self, index: Option<&str>, name: &str) -> (r: Vec<Step>)
        ensures
            acts(r@) == index_add_acts(seen(index), name@),
    {
        match self.index_read(index) {
            Some(names) => {
                let mut names = names;
                let ghost was = texts(names@);
                names.push(name.to_string());
                assert(texts(names@) =~= was.push(name@));
                assert(was.push(name@).to_set() =~= was.to_set().insert(name@)) by {
                    crate::order::lemma_push_set(was.push(name@), was.len() as int);
                    assert(was.push(name@).take(was.len() as int) =~= was);
                    assert(was.push(name@).take(was.len() as int + 1) =~= was.push(name@));
                }
                self.index_write(&names)
            },
            None => {
                let r: Vec<Step> = Vec::new();
                assert(acts(r@) =~= Seq::<Act>::empty());
                r
            },
        }
    }

    /// Keep the index in step with a secret that was deleted.
    pub fn index_remove(&self, index: Option<&str>, name: &str) -> (r: Vec<Step>)
        ensures
            acts(r@) == index_remove_acts(seen(index), name@),
    {
        match self.index_read(index) {
            Some(names) => {
                let left = all_but(&names, name);
                self.index_write(&left)
            },
            None => {
                let r: Vec<Step> = Vec::new();
                assert(acts(r@) =~= Seq::<Act>::empty());
                r
            },
        }
    }

    /// Drop the index. A sync can bring names this machine has never seen, so the next listing
    /// rebuilds it. That there is none is no failure.
    pub fn index_clear(&self, listing: &Listing) -> (r: Vec<Step>)
        ensures
            acts(r@) == if listing@.contains("names"@) {
                seq![Act::Remove("names"@)]
            } else {
                Seq::empty()
            },
    {
        let mut r: Vec<Step> = Vec::new();
        if listing.has("names") {
            r.push(Step::Remove("names".to_string()));
            assert(acts(r@) =~= seq![Act::Remove("names"@)]);
        } else {
            assert(acts(r@) =~= Seq::<Act>::empty());
        }
        r
    }
}

proof fn lemma_names_is_a_file()
    ensures
        crate::disk::names_a_file("names"@),
{
    reveal_strlit("names");
    reveal_strlit(".");
    reveal_strlit("..");
    crate::text::lemma_rcut_unique("names"@, '/', -1);
    assert(crate::disk::file_name("names"@) =~= "names"@);
}

/// Every text but one.
pub open spec fn other_than(name: Seq<char>) -> spec_fn(Seq<char>) -> bool {
    |t: Seq<char>| t != name
}

/// The texts other than `name`.
pub fn all_but(v: &Vec<String>, name: &str) -> (r: Vec<String>)
    ensures
        texts(r@) == texts(v@).filter(other_than(name@)),
        texts(r@).to_set() == texts(v@).to_set().remove(name@),
{
    let mut out: Vec<String> = Vec::new();
    let ghost all = texts(v@);
    let ghost keep = other_than(name@);
    let mut i: usize = 0;
    proof {
        reveal(Seq::filter);
        assert(texts(out@) =~= all.take(0).filter(keep));
    }
    while i < v.len()
        invariant
            i <= v@.len(),
            all == texts(v@),
            keep == other_than(name@),
            texts(out@) == all.take(i as int).filter(keep),
        decreases v@.len() - i,
    {
        let ghost before = texts(out@);
        if !same(v[i].as_str(), name) {
            out.push(v[i].clone());
            assert(texts(out@) =~= before.push(v@[i as int]@));
        }
        proof {
            reveal(Seq::filter);
            assert(all.take(i + 1).drop_last() =~= all.take(i as int));
            assert(all.take(i + 1).last() == v@[i as int]@);
        }
        i = i + 1;
    }
    proof {
        assert(all.take(i as int) =~= all);
        lemma_filter_set(all, name@);
    }
    out
}

proof fn lemma_filter_set(v: Seq<Seq<char>>, name: Seq<char>)
    ensures
        v.filter(other_than(name)).to_set() == v.to_set().remove(name),
    decreases v.len(),
{
    reveal(Seq::filter);
    let keep = other_than(name);
    if v.len() == 0 {
        assert(v.filter(keep).to_set() =~= v.to_set().remove(name));
    } else {
        let w = v.drop_last();
        lemma_filter_set(w, name);
        crate::order::lemma_push_set(v, w.len() as int);
        assert(v.take(w.len() as int) =~= w);
        assert(v.take(w.len() as int + 1) =~= v);
        let f = w.filter(keep);
        if v.last() != name {
            crate::order::lemma_push_set(f.push(v.last()), f.len() as int);
            assert(f.push(v.last()).take(f.len() as int) =~= f);
            assert(f.push(v.last()).take(f.len() as int + 1) =~= f.push(v.last()));
        }
        assert(v.filter(keep).to_set() =~= v.to_set().remove(name));
    }
}

} // verus!

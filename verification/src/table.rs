//! A small table from texts to values, in the order its keys were first put in.

use crate::text::same;
use vstd::prelude::*;
use vstd::string::*;

verus! {

/// A table in which no key occurs twice.
pub struct Table<V> {
    rows: Vec<(String, V)>,
}

/// The value that rows hold for a key: that of the first row that bears it.
spec fn row_of<V>(rows: Seq<(String, V)>, key: Seq<char>) -> int
    decreases rows.len(),
{
    if rows.len() == 0 || rows[0].0@ == key {
        0
    } else {
        1 + row_of(rows.drop_first(), key)
    }
}

proof fn lemma_row_of<V>(rows: Seq<(String, V)>, key: Seq<char>)
    ensures
        0 <= row_of(rows, key) <= rows.len(),
        row_of(rows, key) < rows.len() ==> rows[row_of(rows, key)].0@ == key,
        forall|i: int| 0 <= i < row_of(rows, key) ==> (#[trigger] rows[i]).0@ != key,
    decreases rows.len(),
{
    if rows.len() > 0 && rows[0].0@ != key {
        lemma_row_of(rows.drop_first(), key);
        assert forall|i: int| 0 <= i < row_of(rows, key) implies (#[trigger] rows[i]).0@ != key by {
            if i > 0 {
                assert(rows.drop_first()[i - 1] == rows[i]);
            }
        }
    }
}

proof fn lemma_row_unique<V>(rows: Seq<(String, V)>, key: Seq<char>, i: int)
    requires
        0 <= i <= rows.len(),
        i < rows.len() ==> rows[i].0@ == key,
        forall|j: int| 0 <= j < i ==> (#[trigger] rows[j]).0@ != key,
    ensures
        row_of(rows, key) == i,
{
    lemma_row_of(rows, key);
    let k = row_of(rows, key);
    if k < i {
        assert(rows[k].0@ != key);
    }
    if i < k {
        assert(rows[i].0@ != key);
    }
}

/// The table that rows stand for.
spec fn as_map<V>(rows: Seq<(String, V)>) -> Map<Seq<char>, V> {
    Map::new(
        |key: Seq<char>| row_of(rows, key) < rows.len(),
        |key: Seq<char>| rows[row_of(rows, key)].1,
    )
}

/// No key occurs twice.
spec fn distinct<V>(rows: Seq<(String, V)>) -> bool {
    forall|i: int, j: int|
        0 <= i < j < rows.len() ==> (#[trigger] rows[i]).0@ != (#[trigger] rows[j]).0@
}

impl<V> View for Table<V> {
    type V = Map<Seq<char>, V>;

    closed spec fn view(&self) -> Map<Seq<char>, V> {
        as_map(self.rows@)
    }
}

impl<V> Table<V> {
    #[verifier::type_invariant]
    spec fn valid(self) -> bool {
        distinct(self.rows@)
    }

    /// A table with nothing in it.
    pub fn new() -> (r: Table<V>)
        ensures
            r@ == Map::<Seq<char>, V>::empty(),
    {
        let r = Table { rows: Vec::new() };
        assert(r@ =~= Map::<Seq<char>, V>::empty());
        r
    }

    fn find(&self, key: &str) -> (r: usize)
        ensures
            r == row_of(self.rows@, key@),
            r <= self.rows@.len(),
    {
        let mut i: usize = 0;
        while i < self.rows.len() && !same(self.rows[i].0.as_str(), key)
            invariant
                i <= self.rows@.len(),
                forall|j: int| 0 <= j < i ==> (#[trigger] self.rows@[j]).0@ != key@,
            decreases self.rows@.len() - i,
        {
            i = i + 1;
        }
        proof {
            lemma_row_unique(self.rows@, key@, i as int);
        }
        i
    }

    /// How many keys there are.
    pub fn len(&self) -> (r: usize)
        ensures
            r == self@.dom().len(),
            self@.dom().finite(),
    {
        proof {
            use_type_invariant(self);
            lemma_dom(self.rows@);
        }
        self.rows.len()
    }

    /// Whether there is a value for a key.
    pub fn has(&self, key: &str) -> (r: bool)
        ensures
            r == self@.contains_key(key@),
    {
        self.find(key) < self.rows.len()
    }

    /// The value for a key.
    pub fn get(&self, key: &str) -> (r: Option<&V>)
        ensures
            match r {
                Some(v) => self@.contains_key(key@) && self@[key@] == *v,
                None => !self@.contains_key(key@),
            },
    {
        let i = self.find(key);
        if i < self.rows.len() {
            Some(&self.rows[i].1)
        } else {
            None
        }
    }

    /// The keys, each once.
    pub fn keys(&self) -> (r: Vec<String>)
        ensures
            crate::text::texts(r@).to_set() == self@.dom(),
            crate::text::texts(r@).no_duplicates(),
    {
        proof {
            use_type_invariant(self);
            lemma_dom(self.rows@);
        }
        let mut out: Vec<String> = Vec::new();
        let mut i: usize = 0;
        while i < self.rows.len()
            invariant
                i <= self.rows@.len(),
                crate::text::texts(out@) == key_texts(self.rows@).take(i as int),
            decreases self.rows@.len() - i,
        {
            let ghost before = crate::text::texts(out@);
            out.push(self.rows[i].0.clone());
            assert(crate::text::texts(out@) =~= before.push(self.rows@[i as int].0@));
            assert(before.push(self.rows@[i as int].0@) =~= key_texts(self.rows@).take(i + 1));
            i = i + 1;
        }
        assert(key_texts(self.rows@).take(i as int) =~= key_texts(self.rows@));
        out
    }

    /// Set the value for a key.
    pub fn insert(&mut self, key: &str, value: V)
        ensures
            final(self)@ == old(self)@.insert(key@, value),
    {
        proof {
            use_type_invariant(&*self);
        }
        let ghost was = self.rows@;
        let i = self.find(key);
        let mut rows: Vec<(String, V)> = Vec::new();
        assert(distinct(rows@));
        std::mem::swap(&mut rows, &mut self.rows);
        proof {
            lemma_row_of(was, key@);
        }
        if i < rows.len() {
            rows.set(i, (key.to_string(), value));
        } else {
            rows.push((key.to_string(), value));
        }
        let ghost is = rows@;
        proof {
            assert forall|a: int, b: int| 0 <= a < b < is.len() implies (#[trigger] is[a]).0@ != (
            #[trigger] is[b]).0@ by {
                if b < was.len() {
                    assert(is[a].0@ == was[a].0@ && is[b].0@ == was[b].0@);
                } else {
                    assert(is[a].0@ == was[a].0@);
                }
            }
            assert forall|k: Seq<char>| #[trigger] as_map(is).contains_key(k) == as_map(was).insert(
                key@,
                value,
            ).contains_key(k) && (as_map(is).contains_key(k) ==> as_map(is)[k] == as_map(
                was,
            ).insert(key@, value)[k]) by {
                lemma_row_of(was, k);
                let j = row_of(was, k);
                if k == key@ {
                    lemma_row_unique(is, k, i as int);
                } else if j < was.len() {
                    lemma_row_unique(is, k, j);
                } else {
                    lemma_row_unique(is, k, is.len() as int);
                }
            }
            assert(as_map(is) =~= as_map(was).insert(key@, value));
        }
        self.rows = rows;
    }

    /// Take the value for a key out.
    pub fn remove(&mut self, key: &str) -> (r: Option<V>)
        ensures
            final(self)@ == old(self)@.remove(key@),
            match r {
                Some(v) => old(self)@.contains_key(key@) && old(self)@[key@] == v,
                None => !old(self)@.contains_key(key@),
            },
    {
        proof {
            use_type_invariant(&*self);
        }
        let ghost was = self.rows@;
        let i = self.find(key);
        let mut rows: Vec<(String, V)> = Vec::new();
        assert(distinct(rows@));
        std::mem::swap(&mut rows, &mut self.rows);
        proof {
            lemma_row_of(was, key@);
        }
        let mut taken: Option<V> = None;
        if i < rows.len() {
            let (_, value) = rows.remove(i);
            taken = Some(value);
        }
        let ghost is = rows@;
        proof {
            if i < was.len() {
                assert forall|a: int, b: int| 0 <= a < b < is.len() implies (#[trigger] is[a]).0@
                    != (#[trigger] is[b]).0@ by {
                    let a0 = if a < i {
                        a
                    } else {
                        a + 1
                    };
                    let b0 = if b < i {
                        b
                    } else {
                        b + 1
                    };
                    assert(is[a] == was[a0] && is[b] == was[b0]);
                }
            }
            assert forall|k: Seq<char>| #[trigger] as_map(is).contains_key(k) == as_map(was).remove(
                key@,
            ).contains_key(k) && (as_map(is).contains_key(k) ==> as_map(is)[k] == as_map(
                was,
            ).remove(key@)[k]) by {
                lemma_row_of(was, k);
                let j = row_of(was, k);
                if i < was.len() {
                    assert forall|a: int| 0 <= a < is.len() implies #[trigger] is[a] == was[if a < i {
                        a
                    } else {
                        a + 1
                    }] by {}
                    if k == key@ {
                        assert forall|a: int| 0 <= a < is.len() implies (#[trigger] is[a]).0@
                            != k by {
                            assert(was[i as int].0@ == k);
                        }
                        lemma_row_unique(is, k, is.len() as int);
                    } else if j < was.len() {
                        lemma_row_unique(
                            is,
                            k,
                            if j < i {
                                j
                            } else {
                                j - 1
                            },
                        );
                    } else {
                        lemma_row_unique(is, k, is.len() as int);
                    }
                }
            }
            assert(as_map(is) =~= as_map(was).remove(key@));
        }
        self.rows = rows;
        taken
    }
}

impl<V> Table<V> {
    /// Take the values for some keys out.
    pub fn remove_all(&mut self, keys: &Vec<String>)
        ensures
            final(self)@ == old(self)@.remove_keys(crate::text::texts(keys@).to_set()),
    {
        let ghost start = self@;
        let ghost all = crate::text::texts(keys@);
        let mut i: usize = 0;
        assert(start.remove_keys(all.take(0).to_set()) =~= start);
        while i < keys.len()
            invariant
                i <= keys@.len(),
                all == crate::text::texts(keys@),
                self@ == start.remove_keys(all.take(i as int).to_set()),
            decreases keys@.len() - i,
        {
            let ghost before = self@;
            self.remove(keys[i].as_str());
            proof {
                crate::order::lemma_push_set(all, i as int);
                assert(all[i as int] == keys@[i as int]@);
                assert(before.remove(all[i as int]) =~= start.remove_keys(
                    all.take(i + 1).to_set(),
                ));
            }
            i = i + 1;
        }
        assert(all.take(i as int) =~= all);
    }
}

/// A table by what its values stand for.
pub open spec fn deep<V: View>(m: Map<Seq<char>, V>) -> Map<Seq<char>, V::V> {
    m.map_values(|v: V| v@)
}

spec fn key_texts<V>(rows: Seq<(String, V)>) -> Seq<Seq<char>> {
    rows.map_values(|row: (String, V)| row.0@)
}

proof fn lemma_dom<V>(rows: Seq<(String, V)>)
    requires
        distinct(rows),
    ensures
        key_texts(rows).to_set() == as_map(rows).dom(),
        key_texts(rows).no_duplicates(),
        as_map(rows).dom().len() == rows.len(),
        as_map(rows).dom().finite(),
{
    let keys = key_texts(rows);
    assert forall|i: int, j: int| 0 <= i < j < keys.len() implies keys[i] != keys[j] by {
        assert(keys[i] == rows[i].0@ && keys[j] == rows[j].0@);
    }
    assert forall|k: Seq<char>| keys.to_set().contains(k) == as_map(rows).dom().contains(k) by {
        lemma_row_of(rows, k);
        if keys.contains(k) {
            let i = choose|i: int| 0 <= i < keys.len() && keys[i] == k;
            assert(rows[i].0@ == k);
        }
        if row_of(rows, k) < rows.len() {
            assert(keys[row_of(rows, k)] == k);
        }
    }
    assert(keys.to_set() =~= as_map(rows).dom());
    keys.unique_seq_to_set();
    vstd::seq_lib::seq_to_set_is_finite(keys);
}

} // verus!

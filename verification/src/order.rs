//! The order of texts, sorting by it, and joining a list into one text.

use crate::text::{lemma_cut, lemma_cut_unique, lines, nonempty, same, texts};
use vstd::prelude::*;
use vstd::string::*;

verus! {

/// `a` comes before `b`: at the first difference `a` has the smaller character, or `a` ends first.
pub open spec fn less(a: Seq<char>, b: Seq<char>) -> bool
    decreases b.len(),
{
    if b.len() == 0 {
        false
    } else if a.len() == 0 {
        true
    } else if a[0] != b[0] {
        (a[0] as u32) < (b[0] as u32)
    } else {
        less(a.drop_first(), b.drop_first())
    }
}

/// No text comes before one that stands to its left.
pub open spec fn sorted(v: Seq<Seq<char>>) -> bool {
    forall|i: int, j: int| 0 <= i < j < v.len() ==> !less(#[trigger] v[j], #[trigger] v[i])
}

/// Every text comes before all that stand to its right, so none occurs twice.
pub open spec fn ascending(v: Seq<Seq<char>>) -> bool {
    forall|i: int, j: int| 0 <= i < j < v.len() ==> less(#[trigger] v[i], #[trigger] v[j])
}

/// The order is strict and total.
pub proof fn lemma_less(a: Seq<char>, b: Seq<char>)
    ensures
        !less(a, a),
        less(a, b) ==> !less(b, a),
        less(a, b) || less(b, a) || a == b,
    decreases a.len() + b.len(),
{
    if a.len() > 0 {
        lemma_less_same(a);
    }
    if a.len() == 0 || b.len() == 0 {
        if a.len() == 0 && b.len() == 0 {
            assert(a =~= b);
        }
    } else if a[0] == b[0] {
        lemma_less(a.drop_first(), b.drop_first());
        if a.drop_first() == b.drop_first() {
            assert(a =~= seq![a[0]] + a.drop_first());
            assert(b =~= seq![b[0]] + b.drop_first());
        }
    } else {
        lemma_codes_differ(a[0], b[0]);
    }
}

proof fn lemma_codes_differ(c: char, d: char)
    requires
        c != d,
    ensures
        c as u32 != d as u32,
{
}

proof fn lemma_less_same(a: Seq<char>)
    ensures
        !less(a, a),
    decreases a.len(),
{
    if a.len() > 0 {
        lemma_less_same(a.drop_first());
    }
}

pub proof fn lemma_less_transitive(a: Seq<char>, b: Seq<char>, c: Seq<char>)
    requires
        less(a, b),
        less(b, c),
    ensures
        less(a, c),
    decreases a.len() + b.len() + c.len(),
{
    if a.len() > 0 && a[0] == b[0] && b[0] == c[0] {
        lemma_less_transitive(a.drop_first(), b.drop_first(), c.drop_first());
    }
}

/// Nothing comes before the smaller of two: what is not before `b` is not before `a` either.
proof fn lemma_not_less(a: Seq<char>, b: Seq<char>, c: Seq<char>)
    requires
        !less(b, a),
        !less(c, b),
    ensures
        !less(c, a),
{
    lemma_less(a, b);
    lemma_less(b, c);
    if less(c, a) {
        if less(a, b) {
            lemma_less_transitive(c, a, b);
        }
    }
}

/// Whether `a` comes before `b`.
pub fn before(a: &str, b: &str) -> (r: bool)
    ensures
        r == less(a@, b@),
{
    let v = crate::text::to_chars(a);
    let w = crate::text::to_chars(b);
    let mut i: usize = 0;
    assert(v@.skip(0) =~= v@ && w@.skip(0) =~= w@);
    while i < v.len() && i < w.len() && v[i] == w[i]
        invariant
            i <= v@.len(),
            i <= w@.len(),
            less(v@.skip(i as int), w@.skip(i as int)) == less(a@, b@),
        decreases v@.len() - i,
    {
        assert(v@.skip(i as int).drop_first() =~= v@.skip(i + 1));
        assert(w@.skip(i as int).drop_first() =~= w@.skip(i + 1));
        i = i + 1;
    }
    if i >= w.len() {
        false
    } else if i >= v.len() {
        true
    } else {
        (v[i] as u32) < (w[i] as u32)
    }
}

/// The same texts in order, each as often as it occurs.
pub fn sort(v: &Vec<String>) -> (r: Vec<String>)
    ensures
        sorted(texts(r@)),
        texts(r@).to_multiset() == texts(v@).to_multiset(),
        r@.len() == v@.len(),
{
    let mut out: Vec<String> = Vec::new();
    let mut i: usize = 0;
    assert(texts(v@).take(0) =~= texts(out@));
    while i < v.len()
        invariant
            i <= v@.len(),
            out@.len() == i,
            sorted(texts(out@)),
            texts(out@).to_multiset() == texts(v@).take(i as int).to_multiset(),
        decreases v@.len() - i,
    {
        let ghost held = texts(out@);
        let mut at: usize = 0;
        while at < out.len() && !before(v[i].as_str(), out[at].as_str())
            invariant
                i < v@.len(),
                at <= out@.len(),
                held == texts(out@),
                forall|j: int| 0 <= j < at ==> !less(v@[i as int]@, #[trigger] held[j]),
            decreases out@.len() - at,
        {
            at = at + 1;
        }
        let ghost x = v@[i as int]@;
        out.insert(at, v[i].clone());
        proof {
            let now = texts(out@);
            assert(now =~= held.insert(at as int, x));
            vstd::seq_lib::to_multiset_insert(held, at as int, x);
            texts(v@).take(i as int).to_multiset_ensures();
            assert(texts(v@).take(i + 1) =~= texts(v@).take(i as int).push(x));
            assert forall|p: int, q: int| 0 <= p < q < now.len() implies !less(
                #[trigger] now[q],
                #[trigger] now[p],
            ) by {
                if p == at {
                    assert(now[q] == held[q - 1]);
                    lemma_less(x, held[at as int]);
                    if q - 1 > at {
                        lemma_not_less(x, held[at as int], held[q - 1]);
                    }
                } else if q == at {
                    assert(now[p] == held[p]);
                } else {
                    let p0 = if p < at {
                        p
                    } else {
                        p - 1
                    };
                    let q0 = if q < at {
                        q
                    } else {
                        q - 1
                    };
                    assert(now[p] == held[p0] && now[q] == held[q0]);
                }
            }
        }
        i = i + 1;
    }
    assert(texts(v@).take(i as int) =~= texts(v@));
    out
}

/// Put `name` into an ascending list, which stays as it is where it holds the name already.
pub fn insert_ascending(list: &mut Vec<String>, name: &str)
    requires
        ascending(texts(old(list)@)),
    ensures
        ascending(texts(final(list)@)),
        texts(final(list)@).to_set() == texts(old(list)@).to_set().insert(name@),
{
    let ghost held = texts(list@);
    let ghost x = name@;
    let mut at: usize = 0;
    while at < list.len() && before(list[at].as_str(), name)
        invariant
            at <= list@.len(),
            held == texts(list@),
            x == name@,
            forall|j: int| 0 <= j < at ==> less(#[trigger] held[j], x),
        decreases list@.len() - at,
    {
        at = at + 1;
    }
    if at < list.len() && same(list[at].as_str(), name) {
        assert(held[at as int] == x);
        assert(held.to_set().insert(x) =~= held.to_set());
        return;
    }
    list.insert(at, name.to_string());
    proof {
        let now = texts(list@);
        assert(now =~= held.insert(at as int, x));
        if at < held.len() {
            lemma_less(held[at as int], x);
        }
        assert forall|p: int, q: int| 0 <= p < q < now.len() implies less(
            #[trigger] now[p],
            #[trigger] now[q],
        ) by {
            if p == at {
                assert(now[q] == held[q - 1]);
                if q - 1 > at {
                    lemma_less_transitive(x, held[at as int], held[q - 1]);
                }
            } else if q == at {
                assert(now[p] == held[p]);
            } else {
                let p0 = if p < at {
                    p
                } else {
                    p - 1
                };
                let q0 = if q < at {
                    q
                } else {
                    q - 1
                };
                assert(now[p] == held[p0] && now[q] == held[q0]);
            }
        }
        assert forall|t: Seq<char>| now.to_set().contains(t) == held.to_set().insert(x).contains(
            t,
        ) by {
            if now.contains(t) {
                let k = choose|k: int| 0 <= k < now.len() && now[k] == t;
                if k < at {
                    assert(held[k] == t);
                } else if k > at {
                    assert(held[k - 1] == t);
                }
            }
            if held.contains(t) {
                let k = choose|k: int| 0 <= k < held.len() && held[k] == t;
                if k < at {
                    assert(now[k] == t);
                } else {
                    assert(now[k + 1] == t);
                }
            }
            assert(now[at as int] == x);
        }
        assert(now.to_set() =~= held.to_set().insert(x));
    }
}

/// The texts of a list in order, each once.
pub fn sort_dedup(v: &Vec<String>) -> (r: Vec<String>)
    ensures
        ascending(texts(r@)),
        texts(r@).to_set() == texts(v@).to_set(),
        texts(r@) == in_order(texts(v@).to_set()),
{
    let mut out: Vec<String> = Vec::new();
    let mut i: usize = 0;
    assert(texts(v@).take(0).to_set() =~= texts(out@).to_set());
    while i < v.len()
        invariant
            i <= v@.len(),
            ascending(texts(out@)),
            texts(out@).to_set() == texts(v@).take(i as int).to_set(),
        decreases v@.len() - i,
    {
        insert_ascending(&mut out, v[i].as_str());
        proof {
            lemma_push_set(texts(v@), i as int);
        }
        i = i + 1;
    }
    proof {
        assert(texts(v@).take(i as int) =~= texts(v@));
        lemma_in_order(texts(out@));
    }
    out
}

/// Taking one more text adds it to the set.
pub proof fn lemma_push_set(s: Seq<Seq<char>>, i: int)
    requires
        0 <= i < s.len(),
    ensures
        s.take(i + 1).to_set() == s.take(i).to_set().insert(s[i]),
{
    let a = s.take(i + 1);
    let b = s.take(i);
    assert forall|t: Seq<char>| a.to_set().contains(t) == b.to_set().insert(s[i]).contains(t) by {
        if a.contains(t) {
            let k = choose|k: int| 0 <= k < a.len() && a[k] == t;
            if k < i {
                assert(b[k] == t);
            }
        }
        if b.contains(t) {
            let k = choose|k: int| 0 <= k < b.len() && b[k] == t;
            assert(a[k] == t);
        }
        assert(a[i] == s[i]);
    }
    assert(s.take(i + 1).to_set() =~= s.take(i).to_set().insert(s[i]));
}

/// Two ascending lists of the same texts are the same list.
pub proof fn lemma_ascending_unique(a: Seq<Seq<char>>, b: Seq<Seq<char>>)
    requires
        ascending(a),
        ascending(b),
        a.to_set() == b.to_set(),
    ensures
        a == b,
    decreases a.len(),
{
    if a.len() == 0 {
        if b.len() > 0 {
            assert(b.to_set().contains(b[0]));
            assert(a.contains(b[0]));
        }
        assert(a =~= b);
    } else {
        assert(a.to_set().contains(a[0]));
        assert(b.contains(a[0]));
        let k = choose|k: int| 0 <= k < b.len() && b[k] == a[0];
        assert(b.to_set().contains(b[0]));
        assert(a.contains(b[0]));
        let m = choose|m: int| 0 <= m < a.len() && a[m] == b[0];
        lemma_less(a[0], b[0]);
        if k > 0 {
            assert(less(b[0], b[k]));
            if m > 0 {
                assert(less(a[0], a[m]));
            }
        }
        assert(a[0] == b[0]);
        let a1 = a.drop_first();
        let b1 = b.drop_first();
        assert forall|t: Seq<char>| a1.to_set().contains(t) == b1.to_set().contains(t) by {
            if a1.contains(t) {
                let i = choose|i: int| 0 <= i < a1.len() && a1[i] == t;
                assert(a[i + 1] == t);
                assert(a.to_set().contains(t));
                assert(b.contains(t));
                let j = choose|j: int| 0 <= j < b.len() && b[j] == t;
                assert(less(a[0], a[i + 1]));
                lemma_less(a[0], t);
                assert(b1[j - 1] == t);
            }
            if b1.contains(t) {
                let i = choose|i: int| 0 <= i < b1.len() && b1[i] == t;
                assert(b[i + 1] == t);
                assert(b.to_set().contains(t));
                assert(a.contains(t));
                let j = choose|j: int| 0 <= j < a.len() && a[j] == t;
                assert(less(b[0], b[i + 1]));
                lemma_less(b[0], t);
                assert(a1[j - 1] == t);
            }
        }
        assert(a1.to_set() =~= b1.to_set());
        assert(ascending(a1)) by {
            assert forall|i: int, j: int| 0 <= i < j < a1.len() implies less(
                #[trigger] a1[i],
                #[trigger] a1[j],
            ) by {
                assert(a1[i] == a[i + 1] && a1[j] == a[j + 1]);
            }
        }
        assert(ascending(b1)) by {
            assert forall|i: int, j: int| 0 <= i < j < b1.len() implies less(
                #[trigger] b1[i],
                #[trigger] b1[j],
            ) by {
                assert(b1[i] == b[i + 1] && b1[j] == b[j + 1]);
            }
        }
        lemma_ascending_unique(a1, b1);
        assert(a =~= seq![a[0]] + a1);
        assert(b =~= seq![b[0]] + b1);
    }
}

/// The texts one after another, with `sep` between each two.
pub open spec fn join(v: Seq<Seq<char>>, sep: Seq<char>) -> Seq<char>
    decreases v.len(),
{
    if v.len() == 0 {
        Seq::<char>::empty()
    } else if v.len() == 1 {
        v[0]
    } else {
        join(v.drop_last(), sep) + sep + v.last()
    }
}

/// Join a list with `sep`.
pub fn join_texts(v: &Vec<String>, sep: &str) -> (r: String)
    ensures
        r@ == join(texts(v@), sep@),
{
    let mut out = String::new();
    let mut i: usize = 0;
    while i < v.len()
        invariant
            i <= v@.len(),
            out@ == join(texts(v@).take(i as int), sep@),
        decreases v@.len() - i,
    {
        proof {
            assert(texts(v@).take(i + 1).drop_last() =~= texts(v@).take(i as int));
        }
        if i > 0 {
            out.append(sep);
            out.append(v[i].as_str());
        } else {
            out.append(v[i].as_str());
            assert(out@ =~= v@[0]@);
        }
        i = i + 1;
    }
    assert(texts(v@).take(i as int) =~= texts(v@));
    out
}

/// Two sorted lists of the same texts, each as often, are the same list.
pub proof fn lemma_sorted_unique(a: Seq<Seq<char>>, b: Seq<Seq<char>>)
    requires
        sorted(a),
        sorted(b),
        a.to_multiset() == b.to_multiset(),
    ensures
        a == b,
{
    let leq = |x: Seq<char>, y: Seq<char>| !less(y, x);
    assert forall|x: Seq<char>, y: Seq<char>| leq(x, y) || #[trigger] leq(y, x) by {
        lemma_less(x, y);
    }
    assert forall|x: Seq<char>, y: Seq<char>| leq(x, y) && #[trigger] leq(y, x) implies x == y by {
        lemma_less(x, y);
    }
    assert forall|x: Seq<char>, y: Seq<char>, z: Seq<char>|
        #[trigger] leq(x, y) && #[trigger] leq(y, z) implies leq(x, z) by {
        lemma_not_less(x, y, z);
    }
    assert forall|x: Seq<char>| #[trigger] leq(x, x) by {
        lemma_less(x, x);
    }
    vstd::seq_lib::lemma_sorted_unique(a, b, leq);
}

/// The texts of a set in order.
pub open spec fn in_order(set: Set<Seq<char>>) -> Seq<Seq<char>> {
    choose|v: Seq<Seq<char>>| ascending(v) && #[trigger] v.to_set() == set
}

/// An ascending list of a set is the set in order.
pub proof fn lemma_in_order(v: Seq<Seq<char>>)
    requires
        ascending(v),
    ensures
        in_order(v.to_set()) == v,
{
    let w = in_order(v.to_set());
    assert(ascending(w) && w.to_set() == v.to_set());
    lemma_ascending_unique(v, w);
}

proof fn lemma_insert_text(w: Seq<Seq<char>>, t: Seq<char>) -> (v: Seq<Seq<char>>)
    requires
        ascending(w),
        !w.contains(t),
    ensures
        ascending(v),
        forall|x: Seq<char>| #[trigger] v.contains(x) <==> w.contains(x) || x == t,
    decreases w.len(),
{
    if w.len() == 0 {
        let v = seq![t];
        assert(v[0] == t);
        v
    } else {
        let z = w.last();
        let u = w.drop_last();
        assert(w[w.len() - 1] == z);
        assert(w.contains(z));
        lemma_less(z, t);
        if less(z, t) {
            let v = w.push(t);
            assert forall|i: int, j: int| 0 <= i < j < v.len() implies less(
                #[trigger] v[i],
                #[trigger] v[j],
            ) by {
                assert(v[i] == w[i]);
                if j < w.len() {
                    assert(v[j] == w[j]);
                } else if i < w.len() - 1 {
                    assert(less(w[i], w[w.len() - 1]));
                    lemma_less_transitive(w[i], z, t);
                }
            }
            assert forall|x: Seq<char>| #[trigger] v.contains(x) <==> w.contains(x) || x == t by {
                if w.contains(x) {
                    let k = choose|k: int| 0 <= k < w.len() && w[k] == x;
                    assert(v[k] == x);
                }
                assert(v[w.len() as int] == t);
            }
            v
        } else {
            assert forall|i: int, j: int| 0 <= i < j < u.len() implies less(
                #[trigger] u[i],
                #[trigger] u[j],
            ) by {
                assert(u[i] == w[i] && u[j] == w[j]);
            }
            if u.contains(t) {
                let k = choose|k: int| 0 <= k < u.len() && u[k] == t;
                assert(w[k] == t);
            }
            let front = lemma_insert_text(u, t);
            let v = front.push(z);
            assert forall|i: int, j: int| 0 <= i < j < v.len() implies less(
                #[trigger] v[i],
                #[trigger] v[j],
            ) by {
                if j < front.len() {
                    assert(v[i] == front[i] && v[j] == front[j]);
                } else {
                    assert(front.contains(front[i]));
                    if u.contains(front[i]) {
                        let k = choose|k: int| 0 <= k < u.len() && u[k] == front[i];
                        assert(less(w[k], w[w.len() - 1]));
                    }
                }
            }
            assert forall|x: Seq<char>| #[trigger] v.contains(x) <==> w.contains(x) || x == t by {
                if v.contains(x) {
                    let k = choose|k: int| 0 <= k < v.len() && v[k] == x;
                    if k < front.len() {
                        assert(front.contains(front[k]));
                        if u.contains(x) {
                            let m = choose|m: int| 0 <= m < u.len() && u[m] == x;
                            assert(w[m] == x);
                        }
                    }
                }
                if w.contains(x) || x == t {
                    if x == t || u.contains(x) {
                        assert(front.contains(x));
                        let k = choose|k: int| 0 <= k < front.len() && front[k] == x;
                        assert(v[k] == x);
                    } else {
                        let k = choose|k: int| 0 <= k < w.len() && w[k] == x;
                        if k < u.len() {
                            assert(u[k] == x);
                        }
                        assert(v[front.len() as int] == x);
                    }
                }
            }
            v
        }
    }
}

proof fn lemma_some_order(set: Set<Seq<char>>) -> (v: Seq<Seq<char>>)
    requires
        set.finite(),
    ensures
        ascending(v),
        v.to_set() == set,
    decreases set.len(),
{
    if set.len() == 0 {
        let v = Seq::<Seq<char>>::empty();
        assert(v.to_set() =~= set);
        v
    } else {
        let t = set.choose();
        let rest = set.remove(t);
        let w = lemma_some_order(rest);
        assert(w.to_set().contains(t) == rest.contains(t));
        let v = lemma_insert_text(w, t);
        assert forall|x: Seq<char>| v.to_set().contains(x) == set.contains(x) by {
            assert(w.to_set().contains(x) == rest.contains(x));
            assert(v.contains(x) <==> w.contains(x) || x == t);
        }
        assert(v.to_set() =~= set);
        v
    }
}

/// Finitely many texts can be put in order.
pub proof fn lemma_order_exists(set: Set<Seq<char>>)
    requires
        set.finite(),
    ensures
        ascending(in_order(set)),
        in_order(set).to_set() == set,
{
    let v = lemma_some_order(set);
    lemma_in_order(v);
}

/// A joined list begins with its first text.
pub proof fn lemma_join_first(v: Seq<Seq<char>>, sep: Seq<char>)
    requires
        v.len() > 1,
    ensures
        join(v, sep) == v[0] + sep + join(v.drop_first(), sep),
    decreases v.len(),
{
    let w = v.drop_last();
    if v.len() == 2 {
        assert(w =~= seq![v[0]]);
        assert(v.drop_first() =~= seq![v[1]]);
        assert(join(w, sep) == v[0]);
        assert(join(v.drop_first(), sep) == v[1]);
    } else {
        lemma_join_first(w, sep);
        assert(w.drop_first() =~= v.drop_first().drop_last());
        assert(v.drop_first().last() == v.last());
        assert(join(v, sep) =~= v[0] + sep + join(v.drop_first(), sep));
    }
}

/// Lines that were joined with line breaks are read back as they were, provided none of them is
/// empty or holds a line break, and none but the last ends in a carriage return.
pub proof fn joined_lines_are_read_back(v: Seq<Seq<char>>)
    requires
        forall|i: int|
            0 <= i < v.len() ==> (#[trigger] v[i]).len() > 0 && !v[i].contains('\n') && (i
                < v.len() - 1 ==> v[i].last() != '\r'),
    ensures
        lines(join(v, "\n"@)) == v,
        nonempty(v) == v,
    decreases v.len(),
{
    reveal_strlit("\n");
    let s = join(v, "\n"@);
    lemma_all_nonempty(v);
    if v.len() == 0 {
        assert(lines(s) =~= v);
    } else if v.len() == 1 {
        lemma_cut(s, '\n');
        assert(lines(s) =~= v);
    } else {
        lemma_join_first(v, "\n"@);
        let rest = join(v.drop_first(), "\n"@);
        assert(s[v[0].len() as int] == '\n');
        assert forall|j: int| 0 <= j < v[0].len() implies s[j] != '\n' by {
            assert(v[0].contains(v[0][j]));
            assert(s[j] == v[0][j]);
        }
        lemma_cut_unique(s, '\n', v[0].len() as int);
        assert(s.subrange(0, v[0].len() as int) =~= v[0]);
        assert(s.subrange(v[0].len() as int + 1, s.len() as int) =~= rest);
        joined_lines_are_read_back(v.drop_first());
        assert(lines(s) =~= seq![v[0]] + v.drop_first());
        assert(lines(s) =~= v);
    }
}

proof fn lemma_all_nonempty(v: Seq<Seq<char>>)
    requires
        forall|i: int| 0 <= i < v.len() ==> (#[trigger] v[i]).len() > 0,
    ensures
        nonempty(v) == v,
    decreases v.len(),
{
    reveal(Seq::filter);
    if v.len() > 0 {
        lemma_all_nonempty(v.drop_last());
        assert(v.drop_last().push(v.last()) =~= v);
    }
}

/// The order goes by the first character in which two texts differ, by its place in Unicode, and a
/// text comes before every longer one that begins with it.
pub proof fn the_first_difference_decides(a: Seq<char>, b: Seq<char>, i: int)
    requires
        0 <= i <= a.len(),
        i <= b.len(),
        a.take(i) == b.take(i),
    ensures
        i == a.len() && i < b.len() ==> less(a, b) && !less(b, a),
        i < a.len() && i < b.len() && (a[i] as u32) < (b[i] as u32) ==> less(a, b) && !less(b, a),
        i == a.len() && i == b.len() ==> !less(a, b),
    decreases i,
{
    if i > 0 {
        assert(a[0] == a.take(i)[0] && b[0] == b.take(i)[0]);
        let x = a.drop_first();
        let y = b.drop_first();
        assert(x.take(i - 1) =~= a.take(i).drop_first());
        assert(y.take(i - 1) =~= b.take(i).drop_first());
        assert(i < a.len() ==> x[i - 1] == a[i]);
        assert(i < b.len() ==> y[i - 1] == b[i]);
        the_first_difference_decides(x, y, i - 1);
    }
}

/// Joined texts have the separator between them and nowhere else.
pub proof fn a_separator_stands_between(v: Seq<Seq<char>>, last: Seq<char>, sep: Seq<char>)
    ensures
        join(Seq::empty(), sep) == Seq::<char>::empty(),
        join(seq![last], sep) == last,
        v.len() > 0 ==> join(v.push(last), sep) == join(v, sep) + sep + last,
{
    assert(v.push(last).drop_last() =~= v);
}

} // verus!

//! Renders secret names as a tree, the way `pass` does, for people rather than for pipes.

use crate::order::{in_order, sort_dedup};
use crate::text::{cat3, cat4, nonempty, nonempty_texts, split, split_all, texts};
use vstd::prelude::*;
use vstd::string::*;

verus! {

/// The parts of a name, which is its way down the tree.
pub open spec fn way(name: Seq<char>) -> Seq<Seq<char>> {
    nonempty(split(name, '/'))
}

/// How many parts there are in all.
pub open spec fn total(ways: Seq<Seq<Seq<char>>>) -> nat
    decreases ways.len(),
{
    if ways.len() == 0 {
        0
    } else {
        total(ways.drop_last()) + ways.last().len()
    }
}

/// Some way starts here.
pub open spec fn is_head(ways: Seq<Seq<Seq<char>>>, head: Seq<char>) -> bool {
    exists|i: int| 0 <= i < ways.len() && (#[trigger] ways[i]).len() > 0 && ways[i][0] == head
}

/// Where the ways start.
pub open spec fn heads(ways: Seq<Seq<Seq<char>>>) -> Set<Seq<char>> {
    Set::new(|head: Seq<char>| is_head(ways, head))
}

/// The rest of every way that starts here.
pub open spec fn under(ways: Seq<Seq<Seq<char>>>, head: Seq<char>) -> Seq<Seq<Seq<char>>>
    decreases ways.len(),
{
    if ways.len() == 0 {
        Seq::empty()
    } else {
        let before = under(ways.drop_last(), head);
        if ways.last().len() > 0 && ways.last()[0] == head {
            before.push(ways.last().drop_first())
        } else {
            before
        }
    }
}

/// The ways under a head have fewer parts.
pub proof fn lemma_under(ways: Seq<Seq<Seq<char>>>, head: Seq<char>)
    ensures
        total(under(ways, head)) <= total(ways),
        is_head(ways, head) ==> total(under(ways, head)) < total(ways),
    decreases ways.len(),
{
    if ways.len() > 0 {
        let front = ways.drop_last();
        lemma_under(front, head);
        let b = under(front, head);
        let last = ways.last();
        if last.len() > 0 && last[0] == head {
            assert(b.push(last.drop_first()).drop_last() =~= b);
        }
        if is_head(ways, head) {
            let i = choose|i: int|
                0 <= i < ways.len() && (#[trigger] ways[i]).len() > 0 && ways[i][0] == head;
            if i < front.len() {
                assert(front[i] == ways[i]);
            }
        }
    }
}

/// A name as it is shown: one with others under it is a namespace, which is the thing worth picking
/// out.
pub open spec fn label(name: Seq<char>, namespace: bool, colour: bool) -> Seq<char> {
    if colour && namespace {
        "\x1b[1;34m"@ + name + "\x1b[0m"@
    } else {
        name
    }
}

/// The lines for the first `n` of some names, with everything under each of them.
pub open spec fn drawn(
    ways: Seq<Seq<Seq<char>>>,
    names: Seq<Seq<char>>,
    n: nat,
    prefix: Seq<char>,
    colour: bool,
) -> Seq<char>
    decreases total(ways), n,
    via drawn_decreases
{
    if n == 0 || n > names.len() || !is_head(ways, names[n - 1]) {
        Seq::empty()
    } else {
        let name = names[n - 1];
        let last = n == names.len();
        let rest = under(ways, name);
        let next = in_order(heads(rest));
        drawn(ways, names, (n - 1) as nat, prefix, colour) + prefix + (if last {
            "└── "@
        } else {
            "├── "@
        }) + label(name, heads(rest) != Set::<Seq<char>>::empty(), colour) + "\n"@ + drawn(
            rest,
            next,
            next.len(),
            prefix + (if last {
                "    "@
            } else {
                "│   "@
            }),
            colour,
        )
    }
}

#[via_fn]
proof fn drawn_decreases(
    ways: Seq<Seq<Seq<char>>>,
    names: Seq<Seq<char>>,
    n: nat,
    prefix: Seq<char>,
    colour: bool,
) {
    if n > 0 && n <= names.len() {
        lemma_under(ways, names[n - 1]);
    }
}

/// The tree of some ways: their heads in order, and under each the rest.
pub open spec fn tree(ways: Seq<Seq<Seq<char>>>, prefix: Seq<char>, colour: bool) -> Seq<char> {
    drawn(ways, in_order(heads(ways)), in_order(heads(ways)).len(), prefix, colour)
}

/// The ways of some names.
pub open spec fn ways_of(names: Seq<Seq<char>>) -> Seq<Seq<Seq<char>>> {
    names.map_values(|name: Seq<char>| way(name))
}

/// What ways hold.
pub open spec fn parts_of(ways: Seq<Vec<String>>) -> Seq<Seq<Seq<char>>> {
    ways.map_values(|w: Vec<String>| texts(w@))
}

fn heads_in(ways: &Vec<Vec<String>>) -> (r: Vec<String>)
    ensures
        texts(r@) == in_order(heads(parts_of(ways@))),
        texts(r@).to_set() == heads(parts_of(ways@)),
{
    let ghost all = parts_of(ways@);
    let mut out: Vec<String> = Vec::new();
    let mut i: usize = 0;
    while i < ways.len()
        invariant
            i <= ways@.len(),
            all == parts_of(ways@),
            forall|h: Seq<char>| #[trigger]
                texts(out@).contains(h) <==> is_head(all.take(i as int), h),
        decreases ways@.len() - i,
    {
        let ghost before = texts(out@);
        assert(all[i as int] == texts(ways@[i as int]@));
        if ways[i].len() > 0 {
            out.push(ways[i][0].clone());
            assert(texts(out@) =~= before.push(all[i as int][0]));
        }
        proof {
            let now = texts(out@);
            assert forall|h: Seq<char>| #[trigger] now.contains(h) <==> is_head(
                all.take(i + 1),
                h,
            ) by {
                lemma_head_push(all, i as int, h);
                assert(before.contains(h) <==> is_head(all.take(i as int), h));
                if before.contains(h) {
                    let k = choose|k: int| 0 <= k < before.len() && before[k] == h;
                    assert(now[k] == h);
                }
                if now.contains(h) {
                    let k = choose|k: int| 0 <= k < now.len() && now[k] == h;
                    if k < before.len() {
                        assert(before[k] == h);
                    }
                }
                if all[i as int].len() > 0 {
                    assert(now[before.len() as int] == all[i as int][0]);
                }
            }
        }
        i = i + 1;
    }
    proof {
        assert(all.take(i as int) =~= all);
        assert forall|h: Seq<char>| texts(out@).to_set().contains(h) == heads(all).contains(h) by {
            assert(texts(out@).contains(h) <==> is_head(all.take(i as int), h));
        }
        assert(texts(out@).to_set() =~= heads(all));
    }
    sort_dedup(&out)
}

proof fn lemma_head_push(all: Seq<Seq<Seq<char>>>, i: int, h: Seq<char>)
    requires
        0 <= i < all.len(),
    ensures
        is_head(all.take(i + 1), h) <==> is_head(all.take(i), h) || (all[i].len() > 0 && all[i][0]
            == h),
{
    let a = all.take(i + 1);
    let b = all.take(i);
    if is_head(a, h) {
        let k = choose|k: int| 0 <= k < a.len() && (#[trigger] a[k]).len() > 0 && a[k][0] == h;
        if k < i {
            assert(b[k] == a[k]);
        }
    }
    if is_head(b, h) {
        let k = choose|k: int| 0 <= k < b.len() && (#[trigger] b[k]).len() > 0 && b[k][0] == h;
        assert(a[k] == b[k]);
    }
    assert(a[i] == all[i]);
}

fn below(ways: &Vec<Vec<String>>, head: &str) -> (r: Vec<Vec<String>>)
    ensures
        parts_of(r@) == under(parts_of(ways@), head@),
{
    let ghost all = parts_of(ways@);
    let mut out: Vec<Vec<String>> = Vec::new();
    let mut i: usize = 0;
    assert(parts_of(out@) =~= under(all.take(0), head@));
    while i < ways.len()
        invariant
            i <= ways@.len(),
            all == parts_of(ways@),
            parts_of(out@) == under(all.take(i as int), head@),
        decreases ways@.len() - i,
    {
        let ghost before = parts_of(out@);
        proof {
            assert(all.take(i + 1).drop_last() =~= all.take(i as int));
            assert(all.take(i + 1).last() == texts(ways@[i as int]@));
        }
        if ways[i].len() > 0 && crate::text::same(ways[i][0].as_str(), head) {
            let rest = tail(&ways[i]);
            out.push(rest);
            assert(parts_of(out@) =~= before.push(texts(rest@)));
        }
        i = i + 1;
    }
    assert(all.take(i as int) =~= all);
    out
}

fn tail(v: &Vec<String>) -> (r: Vec<String>)
    requires
        v@.len() > 0,
    ensures
        texts(r@) == texts(v@).drop_first(),
{
    let mut out: Vec<String> = Vec::new();
    let mut i: usize = 1;
    while i < v.len()
        invariant
            1 <= i <= v@.len(),
            texts(out@) == texts(v@).subrange(1, i as int),
        decreases v@.len() - i,
    {
        let ghost before = texts(out@);
        out.push(v[i].clone());
        assert(texts(out@) =~= before.push(v@[i as int]@));
        assert(texts(out@) =~= texts(v@).subrange(1, i + 1));
        i = i + 1;
    }
    assert(texts(v@).subrange(1, i as int) =~= texts(v@).drop_first());
    out
}

/// One more name is one more line, with everything under it.
proof fn lemma_drawn_step(
    ways: Seq<Seq<Seq<char>>>,
    names: Seq<Seq<char>>,
    i: int,
    prefix: Seq<char>,
    colour: bool,
)
    requires
        0 <= i < names.len(),
        is_head(ways, names[i]),
    ensures
        ({
            let last = i + 1 == names.len();
            let rest = under(ways, names[i]);
            drawn(ways, names, (i + 1) as nat, prefix, colour) == drawn(
                ways,
                names,
                i as nat,
                prefix,
                colour,
            ) + prefix + (if last {
                "└── "@
            } else {
                "├── "@
            }) + label(names[i], heads(rest) != Set::<Seq<char>>::empty(), colour) + "\n"@ + tree(
                rest,
                prefix + (if last {
                    "    "@
                } else {
                    "│   "@
                }),
                colour,
            )
        }),
{
}

proof fn lemma_glue(
    start: Seq<char>,
    a: Seq<char>,
    p: Seq<char>,
    b: Seq<char>,
    l: Seq<char>,
    n: Seq<char>,
    t: Seq<char>,
)
    ensures
        start + a + (p + b + l + n) + t == start + (a + p + b + l + n + t),
{
    assert(start + a + (p + b + l + n) + t =~= start + (a + p + b + l + n + t));
}

fn draw(ways: &Vec<Vec<String>>, prefix: &str, colour: bool, out: &mut String)
    ensures
        final(out)@ == old(out)@ + tree(parts_of(ways@), prefix@, colour),
    decreases total(parts_of(ways@)),
{
    let ghost start = out@;
    let ghost all = parts_of(ways@);
    let names = heads_in(ways);
    let ghost shown = texts(names@);
    let mut i: usize = 0;
    assert(start + drawn(all, shown, 0, prefix@, colour) =~= start);
    while i < names.len()
        invariant
            i <= names@.len(),
            all == parts_of(ways@),
            shown == texts(names@),
            shown.to_set() == heads(all),
            out@ == start + drawn(all, shown, i as nat, prefix@, colour),
        decreases names@.len() - i,
    {
        let name = names[i].as_str();
        let last = i + 1 == names.len();
        proof {
            assert(shown[i as int] == name@);
            assert(shown.to_set().contains(shown[i as int]));
            lemma_under(all, name@);
        }
        let rest = below(ways, name);
        let next = heads_in(&rest);
        let ghost below_here = under(all, name@);
        proof {
            let n = texts(next@);
            if n.len() > 0 {
                assert(n.to_set().contains(n[0]));
                assert(heads(below_here) != Set::<Seq<char>>::empty());
            } else {
                assert(heads(below_here) =~= Set::<Seq<char>>::empty()) by {
                    assert(n.to_set() =~= Set::<Seq<char>>::empty());
                }
            }
        }
        let shown_name = if colour && next.len() > 0 {
            cat3("\x1b[1;34m", name, "\x1b[0m")
        } else {
            name.to_string()
        };
        let branch = if last {
            "└── "
        } else {
            "├── "
        };
        let line = cat4(prefix, branch, shown_name.as_str(), "\n");
        let ghost before = out@;
        out.append(line.as_str());
        let deeper = crate::text::cat2(
            prefix,
            if last {
                "    "
            } else {
                "│   "
            },
        );
        draw(&rest, deeper.as_str(), colour, out);
        proof {
            lemma_drawn_step(all, shown, i as int, prefix@, colour);
            lemma_glue(
                start,
                drawn(all, shown, i as nat, prefix@, colour),
                prefix@,
                branch@,
                shown_name@,
                "\n"@,
                tree(below_here, deeper@, colour),
            );
        }
        i = i + 1;
    }
}

/// The names as a tree under the name of the program.
pub fn render(names: &Vec<String>, colour: bool) -> (r: String)
    ensures
        r@ == "passbox\n"@ + tree(ways_of(texts(names@)), Seq::empty(), colour),
{
    let mut ways: Vec<Vec<String>> = Vec::new();
    let mut i: usize = 0;
    while i < names.len()
        invariant
            i <= names@.len(),
            parts_of(ways@) == ways_of(texts(names@)).take(i as int),
        decreases names@.len() - i,
    {
        let ghost before = parts_of(ways@);
        let parts = nonempty_texts(&split_all(names[i].as_str(), '/'));
        ways.push(parts);
        assert(parts_of(ways@) =~= before.push(way(names@[i as int]@)));
        assert(parts_of(ways@) =~= ways_of(texts(names@)).take(i + 1));
        i = i + 1;
    }
    assert(ways_of(texts(names@)).take(i as int) =~= ways_of(texts(names@)));
    let mut out = "passbox\n".to_string();
    proof {
        reveal_strlit("");
        assert(""@ =~= Seq::<char>::empty());
    }
    draw(&ways, "", colour, &mut out);
    out
}

// ---------------------------------------------------------------------------------------------
// The order of the names does not matter

/// The ways under a head are those that go on from it.
pub proof fn lemma_under_contains(ways: Seq<Seq<Seq<char>>>, head: Seq<char>, w: Seq<Seq<char>>)
    ensures
        under(ways, head).contains(w) <==> ways.contains(seq![head] + w),
    decreases ways.len(),
{
    if ways.len() > 0 {
        let front = ways.drop_last();
        let last = ways.last();
        lemma_under_contains(front, head, w);
        let b = under(front, head);
        let now = under(ways, head);
        let full = seq![head] + w;
        if ways.contains(full) {
            let k = choose|k: int| 0 <= k < ways.len() && ways[k] == full;
            if k < front.len() {
                assert(front[k] == full);
                assert(front.contains(full));
                let m = choose|m: int| 0 <= m < b.len() && b[m] == w;
                assert(now[m] == w);
            } else {
                assert(last == full);
                assert(last[0] == head);
                assert(last.drop_first() =~= w);
                assert(now[b.len() as int] == w);
            }
        }
        if now.contains(w) {
            let k = choose|k: int| 0 <= k < now.len() && now[k] == w;
            if k < b.len() {
                assert(b[k] == w);
                assert(b.contains(w));
                let m = choose|m: int| 0 <= m < front.len() && front[m] == full;
                assert(ways[m] == full);
            } else {
                assert(last =~= full);
                assert(ways[ways.len() - 1] == full);
            }
        }
    }
}

proof fn lemma_same_heads(a: Seq<Seq<Seq<char>>>, b: Seq<Seq<Seq<char>>>)
    requires
        forall|w: Seq<Seq<char>>| a.contains(w) <==> b.contains(w),
    ensures
        heads(a) == heads(b),
        forall|h: Seq<char>| is_head(a, h) <==> is_head(b, h),
{
    assert forall|h: Seq<char>| is_head(a, h) <==> is_head(b, h) by {
        if is_head(a, h) {
            let i = choose|i: int| 0 <= i < a.len() && (#[trigger] a[i]).len() > 0 && a[i][0] == h;
            assert(a.contains(a[i]));
            let j = choose|j: int| 0 <= j < b.len() && b[j] == a[i];
            assert(b[j].len() > 0);
        }
        if is_head(b, h) {
            let i = choose|i: int| 0 <= i < b.len() && (#[trigger] b[i]).len() > 0 && b[i][0] == h;
            assert(b.contains(b[i]));
            let j = choose|j: int| 0 <= j < a.len() && a[j] == b[i];
            assert(a[j].len() > 0);
        }
    }
    assert(heads(a) =~= heads(b));
}

proof fn lemma_same_drawn(
    a: Seq<Seq<Seq<char>>>,
    b: Seq<Seq<Seq<char>>>,
    names: Seq<Seq<char>>,
    n: nat,
    prefix: Seq<char>,
    colour: bool,
)
    requires
        forall|w: Seq<Seq<char>>| a.contains(w) <==> b.contains(w),
    ensures
        drawn(a, names, n, prefix, colour) == drawn(b, names, n, prefix, colour),
    decreases total(a), n,
{
    lemma_same_heads(a, b);
    if !(n == 0 || n > names.len() || !is_head(a, names[n - 1])) {
        let name = names[n - 1];
        let x = under(a, name);
        let y = under(b, name);
        lemma_under(a, name);
        assert forall|w: Seq<Seq<char>>| x.contains(w) <==> y.contains(w) by {
            lemma_under_contains(a, name, w);
            lemma_under_contains(b, name, w);
        }
        lemma_same_heads(x, y);
        let next = in_order(heads(x));
        let deeper = prefix + (if n == names.len() {
            "    "@
        } else {
            "│   "@
        });
        lemma_same_drawn(x, y, next, next.len(), deeper, colour);
        lemma_same_drawn(a, b, names, (n - 1) as nat, prefix, colour);
    }
}

/// The tree depends on which names there are, not on their order or how often each is given.
pub proof fn the_order_of_names_does_not_matter(
    a: Seq<Seq<char>>,
    b: Seq<Seq<char>>,
    prefix: Seq<char>,
    colour: bool,
)
    requires
        a.to_set() == b.to_set(),
    ensures
        tree(ways_of(a), prefix, colour) == tree(ways_of(b), prefix, colour),
{
    let x = ways_of(a);
    let y = ways_of(b);
    assert forall|w: Seq<Seq<char>>| x.contains(w) <==> y.contains(w) by {
        if x.contains(w) {
            let i = choose|i: int| 0 <= i < x.len() && x[i] == w;
            assert(a.to_set().contains(a[i]));
            let j = choose|j: int| 0 <= j < b.len() && b[j] == a[i];
            assert(y[j] == w);
        }
        if y.contains(w) {
            let i = choose|i: int| 0 <= i < y.len() && y[i] == w;
            assert(b.to_set().contains(b[i]));
            let j = choose|j: int| 0 <= j < a.len() && a[j] == b[i];
            assert(x[j] == w);
        }
    }
    lemma_same_heads(x, y);
    lemma_same_drawn(x, y, in_order(heads(x)), in_order(heads(x)).len(), prefix, colour);
}

} // verus!

//! What a tree of names looks like: how many lines it takes, and what its colours add.

use crate::order::{ascending, in_order, lemma_order_exists};
use crate::text::{cut, lemma_cut, lines, starts_with};
use crate::tree::{
    drawn, heads, is_head, label, lemma_under, lemma_under_contains, total, tree, under, way, ways_of,
};
use vstd::prelude::*;
use vstd::string::*;

verus! {

/// No part of the ways holds this character.
pub open spec fn free_of(ways: Seq<Seq<Seq<char>>>, c: char) -> bool {
    forall|i: int, j: int|
        0 <= i < ways.len() && 0 <= j < ways[i].len() ==> !(#[trigger] ways[i][j]).contains(c)
}

/// What is free of a character is so below every head.
proof fn lemma_free_under(ways: Seq<Seq<Seq<char>>>, head: Seq<char>, c: char)
    requires
        free_of(ways, c),
    ensures
        free_of(under(ways, head), c),
        is_head(ways, head) ==> !head.contains(c),
{
    let rest = under(ways, head);
    assert forall|i: int, j: int| 0 <= i < rest.len() && 0 <= j < rest[i].len() implies !(
    #[trigger] rest[i][j]).contains(c) by {
        let w = rest[i];
        assert(rest.contains(w));
        lemma_under_contains(ways, head, w);
        let full = seq![head] + w;
        let k = choose|k: int| 0 <= k < ways.len() && ways[k] == full;
        assert(ways[k][j + 1] == w[j]);
    }
    if is_head(ways, head) {
        let i = choose|i: int|
            0 <= i < ways.len() && (#[trigger] ways[i]).len() > 0 && ways[i][0] == head;
        assert(!ways[i][0].contains(c));
    }
}

/// Names without a character make ways without it.
proof fn lemma_free_ways(names: Seq<Seq<char>>, c: char)
    requires
        forall|i: int| 0 <= i < names.len() ==> !(#[trigger] names[i]).contains(c),
    ensures
        free_of(ways_of(names), c),
{
    let ways = ways_of(names);
    assert forall|i: int, j: int| 0 <= i < ways.len() && 0 <= j < ways[i].len() implies !(
    #[trigger] ways[i][j]).contains(c) by {
        let keep = |p: Seq<char>| p.len() > 0;
        let parts = crate::text::split(names[i], '/');
        assert(ways[i] == way(names[i]));
        assert(parts.filter(keep).contains(ways[i][j]));
        parts.lemma_filter_contains_rev(keep, ways[i][j]);
        let k = choose|k: int| 0 <= k < parts.len() && parts[k] == ways[i][j];
        lemma_split_free(names[i], c, k);
    }
}

proof fn lemma_split_free(s: Seq<char>, c: char, k: int)
    requires
        !s.contains(c),
        0 <= k < crate::text::split(s, '/').len(),
    ensures
        !crate::text::split(s, '/')[k].contains(c),
    decreases s.len(),
{
    let parts = crate::text::split(s, '/');
    let i = cut(s, '/');
    lemma_cut(s, '/');
    if i < s.len() {
        let first = s.subrange(0, i);
        let rest = s.subrange(i + 1, s.len() as int);
        assert(parts == seq![first] + crate::text::split(rest, '/'));
        if k == 0 {
            if first.contains(c) {
                let m = choose|m: int| 0 <= m < first.len() && first[m] == c;
                assert(s[m] == c);
            }
        } else {
            if rest.contains(c) {
                let m = choose|m: int| 0 <= m < rest.len() && rest[m] == c;
                assert(s[m + i + 1] == c);
            }
            lemma_split_free(rest, c, k - 1);
            assert(parts[k] == crate::text::split(rest, '/')[k - 1]);
        }
    } else {
        assert(parts[k] == s);
    }
}

// ---------------------------------------------------------------------------------------------
// Colours

/// What begins a colour.
pub const ESCAPE: char = '\u{1b}';

/// A text without the colours that a tree adds.
pub open spec fn uncoloured(s: Seq<char>) -> Seq<char>
    decreases s.len(),
    via uncoloured_decreases
{
    if s.len() == 0 {
        s
    } else if starts_with(s, "\x1b[1;34m"@) {
        uncoloured(s.skip("\x1b[1;34m"@.len() as int))
    } else if starts_with(s, "\x1b[0m"@) {
        uncoloured(s.skip("\x1b[0m"@.len() as int))
    } else {
        seq![s[0]] + uncoloured(s.drop_first())
    }
}

#[via_fn]
proof fn uncoloured_decreases(s: Seq<char>) {
    reveal_strlit("\x1b[1;34m");
    reveal_strlit("\x1b[0m");
}

/// What holds no escape comes through as it is.
proof fn lemma_uncoloured_plain(x: Seq<char>, rest: Seq<char>)
    requires
        !x.contains(ESCAPE),
    ensures
        uncoloured(x + rest) == x + uncoloured(rest),
    decreases x.len(),
{
    if x.len() == 0 {
        assert(x + rest =~= rest);
        assert(x + uncoloured(rest) =~= uncoloured(rest));
    } else {
        let s = x + rest;
        reveal_strlit("\x1b[1;34m");
        reveal_strlit("\x1b[0m");
        assert(x.contains(x[0]));
        assert(s[0] != ESCAPE);
        if starts_with(s, "\x1b[1;34m"@) {
            assert(s.subrange(0, 7)[0] == ESCAPE);
        }
        if starts_with(s, "\x1b[0m"@) {
            assert(s.subrange(0, 4)[0] == ESCAPE);
        }
        let y = x.drop_first();
        if y.contains(ESCAPE) {
            let k = choose|k: int| 0 <= k < y.len() && y[k] == ESCAPE;
            assert(x[k + 1] == ESCAPE);
        }
        lemma_uncoloured_plain(y, rest);
        assert(s.drop_first() =~= y + rest);
        assert(seq![s[0]] + (y + uncoloured(rest)) =~= x + uncoloured(rest));
    }
}

/// A name in colour comes through as the name.
proof fn lemma_uncoloured_label(name: Seq<char>, namespace: bool, rest: Seq<char>)
    requires
        !name.contains(ESCAPE),
    ensures
        uncoloured(label(name, namespace, true) + rest) == name + uncoloured(rest),
{
    if namespace {
        let blue = "\x1b[1;34m"@;
        let reset = "\x1b[0m"@;
        reveal_strlit("\x1b[1;34m");
        reveal_strlit("\x1b[0m");
        let s = label(name, namespace, true) + rest;
        assert(s =~= blue + (name + (reset + rest)));
        assert(s.subrange(0, 7) =~= blue);
        assert(s.skip(7) =~= name + (reset + rest));
        lemma_uncoloured_plain(name, reset + rest);
        let t = reset + rest;
        assert(t.subrange(0, 4) =~= reset);
        if starts_with(t, blue) {
            assert(t.subrange(0, 7)[2] == t[2]);
            assert(t[2] == '0' && blue[2] == '1');
        }
        assert(t.skip(4) =~= rest);
    } else {
        lemma_uncoloured_plain(name, rest);
    }
}

proof fn lemma_no_escape()
    ensures
        !"\n"@.contains(ESCAPE),
        !"└── "@.contains(ESCAPE),
        !"├── "@.contains(ESCAPE),
        !"    "@.contains(ESCAPE),
        !"│   "@.contains(ESCAPE),
{
    reveal_strlit("\n");
    reveal_strlit("└── ");
    reveal_strlit("├── ");
    reveal_strlit("    ");
    reveal_strlit("│   ");
}

proof fn lemma_add_free(a: Seq<char>, b: Seq<char>, c: char)
    requires
        !a.contains(c),
        !b.contains(c),
    ensures
        !(a + b).contains(c),
{
    let s = a + b;
    if s.contains(c) {
        let k = choose|k: int| 0 <= k < s.len() && s[k] == c;
        if k < a.len() {
            assert(a[k] == c);
        } else {
            assert(b[k - a.len()] == c);
        }
    }
}

proof fn lemma_regroup(
    a: Seq<char>,
    b: Seq<char>,
    c: Seq<char>,
    d: Seq<char>,
    e: Seq<char>,
    f: Seq<char>,
    g: Seq<char>,
)
    ensures
        a + b + c + d + e + f + g == a + (b + (c + (d + (e + (f + g))))),
{
    assert(a + b + c + d + e + f + g =~= a + (b + (c + (d + (e + (f + g))))));
}

proof fn lemma_uncoloured_drawn(
    ways: Seq<Seq<Seq<char>>>,
    names: Seq<Seq<char>>,
    n: nat,
    prefix: Seq<char>,
    rest: Seq<char>,
)
    requires
        free_of(ways, ESCAPE),
        !prefix.contains(ESCAPE),
    ensures
        uncoloured(drawn(ways, names, n, prefix, true) + rest) == drawn(
            ways,
            names,
            n,
            prefix,
            false,
        ) + uncoloured(rest),
    decreases total(ways), n,
{
    if n == 0 || n > names.len() || !is_head(ways, names[n - 1]) {
        assert(drawn(ways, names, n, prefix, true) + rest =~= rest);
        assert(drawn(ways, names, n, prefix, false) + uncoloured(rest) =~= uncoloured(rest));
    } else {
        let name = names[n - 1];
        let last = n == names.len();
        let below = under(ways, name);
        let next = in_order(heads(below));
        let namespace = heads(below) != Set::<Seq<char>>::empty();
        let branch = if last {
            "└── "@
        } else {
            "├── "@
        };
        let indent = if last {
            "    "@
        } else {
            "│   "@
        };
        let deeper = prefix + indent;
        let before = drawn(ways, names, (n - 1) as nat, prefix, true);
        let plain_before = drawn(ways, names, (n - 1) as nat, prefix, false);
        let sub = drawn(below, next, next.len(), deeper, true);
        let plain_sub = drawn(below, next, next.len(), deeper, false);
        let shown = label(name, namespace, true);
        lemma_no_escape();
        lemma_add_free(prefix, indent, ESCAPE);
        lemma_free_under(ways, name, ESCAPE);
        lemma_under(ways, name);
        let t4 = sub + rest;
        let t3 = "\n"@ + t4;
        let t2 = shown + t3;
        let t1 = branch + t2;
        let t0 = prefix + t1;
        assert(drawn(ways, names, n, prefix, true) == before + prefix + branch + shown + "\n"@ + sub);
        lemma_regroup(before, prefix, branch, shown, "\n"@, sub, rest);
        assert(drawn(ways, names, n, prefix, false) == plain_before + prefix + branch + name + "\n"@
            + plain_sub);
        lemma_uncoloured_drawn(ways, names, (n - 1) as nat, prefix, t0);
        lemma_uncoloured_plain(prefix, t1);
        lemma_uncoloured_plain(branch, t2);
        lemma_uncoloured_label(name, namespace, t3);
        lemma_uncoloured_plain("\n"@, t4);
        lemma_uncoloured_drawn(below, next, next.len(), deeper, rest);
        lemma_regroup(
            plain_before,
            prefix,
            branch,
            name,
            "\n"@,
            plain_sub,
            uncoloured(rest),
        );
    }
}

/// Colours are all that colour adds: a coloured tree without them is the plain one. The names hold
/// no escape of their own.
pub proof fn a_tree_without_its_colours_is_the_plain_tree(names: Seq<Seq<char>>)
    requires
        forall|i: int| 0 <= i < names.len() ==> !(#[trigger] names[i]).contains(ESCAPE),
    ensures
        uncoloured(tree(ways_of(names), Seq::empty(), true)) == tree(
            ways_of(names),
            Seq::empty(),
            false,
        ),
{
    let ways = ways_of(names);
    let first = in_order(heads(ways));
    let none = Seq::<char>::empty();
    lemma_free_ways(names, ESCAPE);
    lemma_uncoloured_drawn(ways, first, first.len(), none, none);
    assert(tree(ways, none, true) + none =~= tree(ways, none, true));
    assert(tree(ways, none, false) + uncoloured(none) =~= tree(ways, none, false));
}

// ---------------------------------------------------------------------------------------------
// Lines

/// How many line breaks a text holds.
pub open spec fn breaks(s: Seq<char>) -> nat
    decreases s.len(),
{
    if s.len() == 0 {
        0
    } else {
        breaks(s.drop_last()) + if s.last() == '\n' {
            1nat
        } else {
            0
        }
    }
}

proof fn lemma_breaks_add(a: Seq<char>, b: Seq<char>)
    ensures
        breaks(a + b) == breaks(a) + breaks(b),
    decreases b.len(),
{
    if b.len() == 0 {
        assert(a + b =~= a);
    } else {
        lemma_breaks_add(a, b.drop_last());
        assert((a + b).drop_last() =~= a + b.drop_last());
    }
}

proof fn lemma_breaks_none(s: Seq<char>)
    requires
        !s.contains('\n'),
    ensures
        breaks(s) == 0,
    decreases s.len(),
{
    if s.len() > 0 {
        let t = s.drop_last();
        if t.contains('\n') {
            let k = choose|k: int| 0 <= k < t.len() && t[k] == '\n';
            assert(s[k] == '\n');
        }
        assert(s[s.len() - 1] == s.last());
        lemma_breaks_none(t);
    }
}

/// A text whose last line is ended has as many lines as line breaks.
proof fn lemma_lines_breaks(s: Seq<char>)
    requires
        s.len() > 0 ==> s.last() == '\n',
    ensures
        lines(s).len() == breaks(s),
    decreases s.len(),
{
    if s.len() > 0 {
        let i = cut(s, '\n');
        lemma_cut(s, '\n');
        assert(s[s.len() - 1] == '\n');
        let first = s.subrange(0, i);
        let rest = s.subrange(i + 1, s.len() as int);
        if first.contains('\n') {
            let k = choose|k: int| 0 <= k < first.len() && first[k] == '\n';
            assert(s[k] == '\n');
        }
        if rest.len() > 0 {
            assert(rest.last() == s.last());
        }
        lemma_lines_breaks(rest);
        lemma_breaks_none(first);
        assert(s =~= first + seq!['\n'] + rest);
        lemma_breaks_add(first + seq!['\n'], rest);
        lemma_breaks_add(first, seq!['\n']);
        reveal_with_fuel(breaks, 2);
        assert(breaks(seq!['\n']) == 1) by {
            assert(seq!['\n'].drop_last() =~= Seq::<char>::empty());
        }
    }
}

/// Some way leads here.
pub open spec fn is_place(ways: Seq<Seq<Seq<char>>>, p: Seq<Seq<char>>) -> bool {
    p.len() > 0 && exists|i: int|
        0 <= i < ways.len() && p.len() <= (#[trigger] ways[i]).len() && ways[i].take(
            p.len() as int,
        ) == p
}

/// Every name and every namespace on the way to one.
pub open spec fn places(ways: Seq<Seq<Seq<char>>>) -> Set<Seq<Seq<char>>> {
    Set::new(|p: Seq<Seq<char>>| is_place(ways, p))
}

/// The places at and below the first few heads.
spec fn places_below(ways: Seq<Seq<Seq<char>>>, names: Seq<Seq<char>>, n: int) -> Set<
    Seq<Seq<char>>,
> {
    Set::new(|p: Seq<Seq<char>>| is_place(ways, p) && names.take(n).contains(p[0]))
}

proof fn lemma_place_under(ways: Seq<Seq<Seq<char>>>, head: Seq<char>, p: Seq<Seq<char>>)
    requires
        p.len() > 0,
    ensures
        is_place(ways, seq![head] + p) <==> is_place(under(ways, head), p),
{
    let rest = under(ways, head);
    let full = seq![head] + p;
    if is_place(ways, full) {
        let i = choose|i: int|
            0 <= i < ways.len() && full.len() <= (#[trigger] ways[i]).len() && ways[i].take(
                full.len() as int,
            ) == full;
        let w = ways[i].drop_first();
        assert(ways[i].take(full.len() as int)[0] == head);
        assert(ways[i] =~= seq![head] + w);
        assert(ways.contains(seq![head] + w));
        lemma_under_contains(ways, head, w);
        let k = choose|k: int| 0 <= k < rest.len() && rest[k] == w;
        assert(rest[k].take(p.len() as int) =~= p) by {
            assert forall|m: int| 0 <= m < p.len() implies w[m] == p[m] by {
                assert(ways[i].take(full.len() as int)[m + 1] == full[m + 1]);
            }
        }
    }
    if is_place(rest, p) {
        let k = choose|k: int|
            0 <= k < rest.len() && p.len() <= (#[trigger] rest[k]).len() && rest[k].take(
                p.len() as int,
            ) == p;
        assert(rest.contains(rest[k]));
        lemma_under_contains(ways, head, rest[k]);
        let w = seq![head] + rest[k];
        let i = choose|i: int| 0 <= i < ways.len() && ways[i] == w;
        assert(ways[i].take(full.len() as int) =~= full) by {
            assert forall|m: int| 0 <= m < full.len() implies w[m] == full[m] by {
                if m > 0 {
                    assert(rest[k].take(p.len() as int)[m - 1] == p[m - 1]);
                }
            }
        }
    }
}

proof fn lemma_place_head(ways: Seq<Seq<Seq<char>>>, p: Seq<Seq<char>>)
    ensures
        is_place(ways, p) ==> is_head(ways, p[0]),
        p.len() == 1 && is_head(ways, p[0]) ==> is_place(ways, p),
{
    if is_place(ways, p) {
        let i = choose|i: int|
            0 <= i < ways.len() && p.len() <= (#[trigger] ways[i]).len() && ways[i].take(
                p.len() as int,
            ) == p;
        assert(ways[i].take(p.len() as int)[0] == p[0]);
        assert(ways[i][0] == p[0]);
    }
    if p.len() == 1 && is_head(ways, p[0]) {
        let i = choose|i: int|
            0 <= i < ways.len() && (#[trigger] ways[i]).len() > 0 && ways[i][0] == p[0];
        assert(ways[i].take(1) =~= p);
    }
}

proof fn lemma_heads_finite(ways: Seq<Seq<Seq<char>>>)
    ensures
        heads(ways).finite(),
    decreases ways.len(),
{
    if ways.len() == 0 {
        assert(heads(ways) =~= Set::<Seq<char>>::empty());
    } else {
        let front = ways.drop_last();
        let last = ways.last();
        lemma_heads_finite(front);
        assert forall|h: Seq<char>| is_head(ways, h) implies is_head(front, h) || (last.len() > 0
            && last[0] == h) by {
            let i = choose|i: int|
                0 <= i < ways.len() && (#[trigger] ways[i]).len() > 0 && ways[i][0] == h;
            if i < front.len() {
                assert(front[i] == ways[i]);
            }
        }
        if last.len() > 0 {
            let more = heads(front).insert(last[0]);
            assert(heads(ways).subset_of(more));
            vstd::set_lib::lemma_len_subset(heads(ways), more);
        } else {
            assert(heads(ways).subset_of(heads(front)));
            vstd::set_lib::lemma_len_subset(heads(ways), heads(front));
        }
    }
}

/// Where the heads are all there, every place is below one of them.
proof fn lemma_all_places(ways: Seq<Seq<Seq<char>>>, names: Seq<Seq<char>>)
    requires
        names.to_set() == heads(ways),
    ensures
        places_below(ways, names, names.len() as int) == places(ways),
{
    assert(names.take(names.len() as int) =~= names);
    assert forall|p: Seq<Seq<char>>| is_place(ways, p) implies names.contains(p[0]) by {
        lemma_place_head(ways, p);
        assert(heads(ways).contains(p[0]));
        assert(names.to_set().contains(p[0]));
    }
    assert(places_below(ways, names, names.len() as int) =~= places(ways));
}

proof fn lemma_breaks_drawn(
    ways: Seq<Seq<Seq<char>>>,
    names: Seq<Seq<char>>,
    n: nat,
    prefix: Seq<char>,
    colour: bool,
)
    requires
        free_of(ways, '\n'),
        !prefix.contains('\n'),
        ascending(names),
        names.to_set() == heads(ways),
        n <= names.len(),
    ensures
        places_below(ways, names, n as int).finite(),
        breaks(drawn(ways, names, n, prefix, colour)) == places_below(ways, names, n as int).len(),
    decreases total(ways), n,
{
    if n == 0 {
        assert(places_below(ways, names, 0) =~= Set::<Seq<Seq<char>>>::empty());
    } else {
        let name = names[n - 1];
        assert(names.to_set().contains(name));
        assert(is_head(ways, name));
        let m = (n - 1) as nat;
        let last = n == names.len();
        let below = under(ways, name);
        let next = in_order(heads(below));
        let namespace = heads(below) != Set::<Seq<char>>::empty();
        let branch = if last {
            "└── "@
        } else {
            "├── "@
        };
        let indent = if last {
            "    "@
        } else {
            "│   "@
        };
        let deeper = prefix + indent;
        let before = drawn(ways, names, m, prefix, colour);
        let sub = drawn(below, next, next.len(), deeper, colour);
        let shown = label(name, namespace, colour);
        lemma_free_under(ways, name, '\n');
        lemma_under(ways, name);
        lemma_no_breaks();
        lemma_add_free(prefix, indent, '\n');
        lemma_heads_finite(below);
        lemma_order_exists(heads(below));
        lemma_breaks_drawn(ways, names, m, prefix, colour);
        lemma_breaks_drawn(below, next, next.len(), deeper, colour);
        lemma_all_places(below, next);
        if colour && namespace {
            lemma_add_free("\x1b[1;34m"@, name, '\n');
            lemma_add_free("\x1b[1;34m"@ + name, "\x1b[0m"@, '\n');
        }
        lemma_breaks_none(prefix);
        lemma_breaks_none(branch);
        lemma_breaks_none(shown);
        lemma_breaks_add(before, prefix);
        lemma_breaks_add(before + prefix, branch);
        lemma_breaks_add(before + prefix + branch, shown);
        lemma_breaks_add(before + prefix + branch + shown, "\n"@);
        lemma_breaks_add(before + prefix + branch + shown + "\n"@, sub);
        assert(drawn(ways, names, n, prefix, colour) == before + prefix + branch + shown + "\n"@
            + sub);
        lemma_one_head(ways, names, n as int);
    }
}

proof fn lemma_no_breaks()
    ensures
        breaks("\n"@) == 1,
        !"└── "@.contains('\n'),
        !"├── "@.contains('\n'),
        !"    "@.contains('\n'),
        !"│   "@.contains('\n'),
        !"\x1b[1;34m"@.contains('\n'),
        !"\x1b[0m"@.contains('\n'),
{
    reveal_strlit("\n");
    reveal_strlit("└── ");
    reveal_strlit("├── ");
    reveal_strlit("    ");
    reveal_strlit("│   ");
    reveal_strlit("\x1b[1;34m");
    reveal_strlit("\x1b[0m");
    assert("\n"@.drop_last() =~= Seq::<char>::empty());
    reveal_with_fuel(breaks, 2);
}

/// One more head is one more place, and those below it.
proof fn lemma_one_head(ways: Seq<Seq<Seq<char>>>, names: Seq<Seq<char>>, n: int)
    requires
        ascending(names),
        0 < n <= names.len(),
        is_head(ways, names[n - 1]),
        places_below(ways, names, n - 1).finite(),
        places(under(ways, names[n - 1])).finite(),
    ensures
        places_below(ways, names, n).finite(),
        places_below(ways, names, n).len() == places_below(ways, names, n - 1).len() + 1 + places(
            under(ways, names[n - 1]),
        ).len(),
{
    let head = names[n - 1];
    let deep = places(under(ways, head));
    let f = |p: Seq<Seq<char>>| seq![head] + p;
    let at = seq![head];
    let image = deep.map(f);
    assert(vstd::relations::injective_on(f, deep)) by {
        assert forall|x: Seq<Seq<char>>, y: Seq<Seq<char>>|
            deep.contains(x) && deep.contains(y) && #[trigger] f(x) == #[trigger] f(y) implies x
            == y by {
            assert(f(x).drop_first() =~= x);
            assert(f(y).drop_first() =~= y);
        }
    }
    vstd::set_lib::lemma_map_size(deep, image, f);
    let here = image.insert(at);
    assert(!image.contains(at)) by {
        if image.contains(at) {
            let x = choose|x: Seq<Seq<char>>| deep.contains(x) && at == f(x);
            assert(f(x).len() == x.len() + 1);
        }
    }
    let before = places_below(ways, names, n - 1);
    let after = places_below(ways, names, n);
    assert forall|p: Seq<Seq<char>>| here.contains(p) <==> is_place(ways, p) && p[0] == head by {
        if here.contains(p) {
            if p == at {
                lemma_place_head(ways, p);
            } else {
                let x = choose|x: Seq<Seq<char>>| deep.contains(x) && p == f(x);
                lemma_place_under(ways, head, x);
            }
        }
        if is_place(ways, p) && p[0] == head {
            if p.len() == 1 {
                assert(p =~= at);
            } else {
                let x = p.drop_first();
                assert(p =~= seq![head] + x);
                lemma_place_under(ways, head, x);
                assert(deep.contains(x));
                assert(p == f(x));
            }
        }
    }
    let fewer = names.take(n - 1);
    let more = names.take(n);
    assert forall|t: Seq<char>| more.contains(t) <==> fewer.contains(t) || t == head by {
        if more.contains(t) {
            let k = choose|k: int| 0 <= k < more.len() && more[k] == t;
            if k < n - 1 {
                assert(fewer[k] == t);
            }
        }
        if fewer.contains(t) {
            let k = choose|k: int| 0 <= k < fewer.len() && fewer[k] == t;
            assert(more[k] == t);
        }
        assert(more[n - 1] == head);
    }
    assert(!fewer.contains(head)) by {
        if fewer.contains(head) {
            let k = choose|k: int| 0 <= k < fewer.len() && fewer[k] == head;
            assert(crate::order::less(names[k], names[n - 1]));
            crate::order::lemma_less(head, head);
        }
    }
    assert(after =~= before + here);
    assert(before.disjoint(here));
    vstd::set_lib::lemma_set_disjoint_lens(before, here);
}

/// A tree has a line for the program and one for every name and every namespace on the way to one,
/// however often and in whatever order the names are given. No name holds a line break.
pub proof fn a_tree_has_a_line_for_every_place(names: Seq<Seq<char>>, colour: bool)
    requires
        forall|i: int| 0 <= i < names.len() ==> !(#[trigger] names[i]).contains('\n'),
    ensures
        places(ways_of(names)).finite(),
        lines("passbox\n"@ + tree(ways_of(names), Seq::empty(), colour)).len() == 1 + places(
            ways_of(names),
        ).len(),
{
    let ways = ways_of(names);
    let none = Seq::<char>::empty();
    let first = in_order(heads(ways));
    let t = tree(ways, none, colour);
    let text = "passbox\n"@ + t;
    lemma_free_ways(names, '\n');
    lemma_heads_finite(ways);
    lemma_order_exists(heads(ways));
    lemma_breaks_drawn(ways, first, first.len(), none, colour);
    lemma_all_places(ways, first);
    reveal_strlit("passbox\n");
    let title = "passbox\n"@;
    assert(breaks(title) == 1) by {
        let word = title.drop_last();
        assert(!word.contains('\n'));
        lemma_breaks_none(word);
        assert(title.last() == '\n');
    }
    lemma_breaks_add(title, t);
    lemma_ends_in_break(ways, first, first.len(), none, colour);
    if t.len() > 0 {
        assert(text.last() == t.last());
    } else {
        assert(text =~= title);
    }
    lemma_lines_breaks(text);
}

proof fn lemma_ends_in_break(
    ways: Seq<Seq<Seq<char>>>,
    names: Seq<Seq<char>>,
    n: nat,
    prefix: Seq<char>,
    colour: bool,
)
    ensures
        ({
            let d = drawn(ways, names, n, prefix, colour);
            d.len() > 0 ==> d.last() == '\n'
        }),
    decreases total(ways), n,
{
    if !(n == 0 || n > names.len() || !is_head(ways, names[n - 1])) {
        let name = names[n - 1];
        let last = n == names.len();
        let below = under(ways, name);
        let next = in_order(heads(below));
        let deeper = prefix + (if last {
            "    "@
        } else {
            "│   "@
        });
        lemma_under(ways, name);
        lemma_ends_in_break(below, next, next.len(), deeper, colour);
        reveal_strlit("\n");
        let sub = drawn(below, next, next.len(), deeper, colour);
        let d = drawn(ways, names, n, prefix, colour);
        if sub.len() > 0 {
            assert(d.last() == sub.last());
        } else {
            assert(d.last() == "\n"@.last());
        }
    }
}

// ---------------------------------------------------------------------------------------------
// What stands on the lines

/// The piece stands somewhere in the text.
pub open spec fn holds(text: Seq<char>, piece: Seq<char>) -> bool {
    exists|a: Seq<char>, b: Seq<char>| text == #[trigger] (a + piece + b)
}

proof fn lemma_holds(x: Seq<char>, text: Seq<char>, y: Seq<char>, piece: Seq<char>)
    requires
        holds(text, piece),
    ensures
        holds(x + text + y, piece),
{
    let (a, b) = choose|a: Seq<char>, b: Seq<char>| text == #[trigger] (a + piece + b);
    assert(x + text + y =~= (x + a) + piece + (b + y));
}

/// How the line of a place ends.
pub open spec fn line_of(part: Seq<char>) -> Seq<char> {
    "── "@ + part + "\n"@
}

proof fn lemma_place_drawn(
    ways: Seq<Seq<Seq<char>>>,
    names: Seq<Seq<char>>,
    n: nat,
    prefix: Seq<char>,
    p: Seq<Seq<char>>,
)
    requires
        is_place(ways, p),
        names.to_set() == heads(ways),
        n <= names.len(),
        names.take(n as int).contains(p[0]),
    ensures
        holds(drawn(ways, names, n, prefix, false), line_of(p.last())),
    decreases total(ways), n,
{
    let first = names.take(n as int);
    let k = choose|k: int| 0 <= k < first.len() && first[k] == p[0];
    let name = names[n - 1];
    assert(names.to_set().contains(name));
    assert(is_head(ways, name));
    let last = n == names.len();
    let rest = under(ways, name);
    let next = in_order(heads(rest));
    let before = drawn(ways, names, (n - 1) as nat, prefix, false);
    let mark = if last {
        "└── "@
    } else {
        "├── "@
    };
    let inner = prefix + (if last {
        "    "@
    } else {
        "│   "@
    });
    let below = drawn(rest, next, next.len(), inner, false);
    let all = drawn(ways, names, n, prefix, false);
    assert(all == before + prefix + mark + label(
        name,
        heads(rest) != Set::<Seq<char>>::empty(),
        false,
    ) + "\n"@ + below);
    assert(label(name, heads(rest) != Set::<Seq<char>>::empty(), false) == name);
    if name == p[0] {
        if p.len() == 1 {
            reveal_strlit("── ");
            reveal_strlit("└── ");
            reveal_strlit("├── ");
            let c = mark[0];
            assert(mark =~= seq![c] + "── "@);
            assert(all =~= (before + prefix + seq![c]) + line_of(name) + below);
        } else {
            let q = p.drop_first();
            assert(p =~= seq![name] + q);
            lemma_place_under(ways, name, q);
            lemma_place_head(rest, q);
            lemma_heads_finite(rest);
            crate::order::lemma_order_exists(heads(rest));
            assert(next.to_set().contains(q[0]));
            assert(next.take(next.len() as int) =~= next);
            lemma_under(ways, name);
            lemma_place_drawn(rest, next, next.len(), inner, q);
            let front = before + prefix + mark + name + "\n"@;
            lemma_holds(front, below, Seq::empty(), line_of(q.last()));
            assert(front + below + Seq::<char>::empty() =~= all);
        }
    } else {
        let fewer = names.take(n - 1);
        assert(k < n - 1);
        assert(fewer[k] == p[0]);
        lemma_place_drawn(ways, names, (n - 1) as nat, prefix, p);
        let tail = prefix + mark + name + "\n"@ + below;
        lemma_holds(Seq::empty(), before, tail, line_of(p.last()));
        assert(Seq::<char>::empty() + before + tail =~= all);
    }
}

/// The line of a place says what it is called, in full: every part of every name stands in the tree
/// behind a branch, with nothing after it on its line.
pub proof fn a_tree_names_every_place(names: Seq<Seq<char>>, p: Seq<Seq<char>>)
    requires
        is_place(ways_of(names), p),
    ensures
        holds(tree(ways_of(names), Seq::empty(), false), line_of(p.last())),
{
    let ways = ways_of(names);
    let first = in_order(heads(ways));
    lemma_heads_finite(ways);
    crate::order::lemma_order_exists(heads(ways));
    lemma_place_head(ways, p);
    assert(first.to_set().contains(p[0]));
    assert(first.take(first.len() as int) =~= first);
    lemma_place_drawn(ways, first, first.len(), Seq::empty(), p);
}

/// The parts of a name are what stands between its slashes: with slashes between them they are the name
/// again, as long as no part is empty.
pub proof fn the_parts_of_a_name_make_it(name: Seq<char>)
    requires
        forall|i: int|
            0 <= i < crate::text::split(name, '/').len() ==> (#[trigger] crate::text::split(
                name,
                '/',
            )[i]).len() > 0,
    ensures
        crate::order::join(crate::tree::way(name), seq!['/']) == name,
{
    let parts = crate::text::split(name, '/');
    crate::text::parts_make_the_text_again(name, '/', 0);
    lemma_none_empty(parts);
}

proof fn lemma_none_empty(parts: Seq<Seq<char>>)
    requires
        forall|i: int| 0 <= i < parts.len() ==> (#[trigger] parts[i]).len() > 0,
    ensures
        crate::text::nonempty(parts) == parts,
    decreases parts.len(),
{
    reveal(Seq::filter);
    if parts.len() > 0 {
        lemma_none_empty(parts.drop_last());
        assert(parts.drop_last().push(parts.last()) =~= parts);
    }
}

} // verus!

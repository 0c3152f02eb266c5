//! Text as a sequence of characters: the string functions the rest of the library is built on.

use vstd::prelude::*;
use vstd::string::*;

verus! {

/// `String::push` appends one character.
pub assume_specification[ String::push ](s: &mut String, c: char)
    ensures
        final(s)@ == old(s)@.push(c),
;

/// What a list of strings holds.
pub open spec fn texts(v: Seq<String>) -> Seq<Seq<char>> {
    Seq::new(v.len(), |i: int| v[i]@)
}

/// The characters of `s`, one by one.
pub fn to_chars(s: &str) -> (r: Vec<char>)
    ensures
        r@ == s@,
{
    let mut out: Vec<char> = Vec::new();
    for c in it: s.chars()
        invariant
            it.seq() == s@,
            out@ == s@.take(it.index()),
    {
        assert(s@.take(it.index()).push(c) =~= s@.take(it.index() + 1));
        out.push(c);
    }
    assert(s@.take(s@.len() as int) =~= s@);
    out
}

/// The text made of the characters `from..to` of `v`.
pub fn from_chars(v: &Vec<char>, from: usize, to: usize) -> (r: String)
    requires
        from <= to <= v@.len(),
    ensures
        r@ == v@.subrange(from as int, to as int),
{
    let mut out = String::new();
    let mut i: usize = from;
    while i < to
        invariant
            from <= i <= to <= v@.len(),
            out@ == v@.subrange(from as int, i as int),
        decreases to - i,
    {
        out.push(v[i]);
        assert(v@.subrange(from as int, i as int).push(v@[i as int]) =~= v@.subrange(
            from as int,
            i + 1,
        ));
        i = i + 1;
    }
    out
}

/// Whether two texts hold the same characters.
pub fn same(a: &str, b: &str) -> (r: bool)
    ensures
        r == (a@ == b@),
{
    a.to_string() == b.to_string()
}

/// A copy of a list of strings.
pub fn copy_texts(v: &Vec<String>) -> (r: Vec<String>)
    ensures
        r@ == v@,
{
    let mut out: Vec<String> = Vec::new();
    let mut i: usize = 0;
    while i < v.len()
        invariant
            i <= v@.len(),
            out@ == v@.take(i as int),
        decreases v@.len() - i,
    {
        out.push(v[i].clone());
        assert(v@.take(i as int).push(v@[i as int]) =~= v@.take(i + 1));
        i = i + 1;
    }
    assert(v@.take(v@.len() as int) =~= v@);
    out
}

/// Whether `name` is one of `list`.
pub fn has_text(list: &Vec<String>, name: &str) -> (r: bool)
    ensures
        r == texts(list@).contains(name@),
{
    let mut i: usize = 0;
    while i < list.len()
        invariant
            i <= list@.len(),
            forall|j: int| 0 <= j < i ==> list@[j]@ != name@,
        decreases list@.len() - i,
    {
        if same(list[i].as_str(), name) {
            assert(texts(list@)[i as int] == name@);
            return true;
        }
        i = i + 1;
    }
    assert forall|j: int| 0 <= j < texts(list@).len() implies texts(list@)[j] != name@ by {
        assert(texts(list@)[j] == list@[j]@);
    }
    false
}

/// Glue pieces together in order.
pub open spec fn concat(parts: Seq<Seq<char>>) -> Seq<char>
    decreases parts.len(),
{
    if parts.len() == 0 {
        Seq::<char>::empty()
    } else {
        concat(parts.drop_last()) + parts.last()
    }
}

/// `a` followed by `b`.
pub fn cat2(a: &str, b: &str) -> (r: String)
    ensures
        r@ == a@ + b@,
{
    let mut out = a.to_string();
    out.append(b);
    out
}

/// `a`, `b` and `c` in a row.
pub fn cat3(a: &str, b: &str, c: &str) -> (r: String)
    ensures
        r@ == a@ + b@ + c@,
{
    let mut out = cat2(a, b);
    out.append(c);
    out
}

/// Four texts in a row.
pub fn cat4(a: &str, b: &str, c: &str, d: &str) -> (r: String)
    ensures
        r@ == a@ + b@ + c@ + d@,
{
    let mut out = cat3(a, b, c);
    out.append(d);
    out
}

/// Five texts in a row.
pub fn cat5(a: &str, b: &str, c: &str, d: &str, e: &str) -> (r: String)
    ensures
        r@ == a@ + b@ + c@ + d@ + e@,
{
    let mut out = cat4(a, b, c, d);
    out.append(e);
    out
}

// ---------------------------------------------------------------------------------------------
// Prefixes, suffixes and single characters

/// `s` begins with `p`.
pub open spec fn starts_with(s: Seq<char>, p: Seq<char>) -> bool {
    p.len() <= s.len() && s.subrange(0, p.len() as int) == p
}

/// `s` ends with `p`.
pub open spec fn ends_with(s: Seq<char>, p: Seq<char>) -> bool {
    p.len() <= s.len() && s.subrange(s.len() - p.len(), s.len() as int) == p
}

/// Whether the characters of `v` from `at` on are those of `p`.
pub fn matches_at(v: &Vec<char>, at: usize, p: &Vec<char>) -> (r: bool)
    requires
        at <= v@.len(),
    ensures
        r == starts_with(v@.skip(at as int), p@),
{
    if v.len() - at < p.len() {
        return false;
    }
    let mut i: usize = 0;
    while i < p.len()
        invariant
            i <= p@.len(),
            at + p@.len() <= v.len(),
            forall|j: int| 0 <= j < i ==> v@[at + j] == p@[j],
        decreases p@.len() - i,
    {
        if v[at + i] != p[i] {
            proof {
                let t = v@.skip(at as int);
                if starts_with(t, p@) {
                    assert(t.subrange(0, p@.len() as int)[i as int] == p@[i as int]);
                }
            }
            return false;
        }
        i = i + 1;
    }
    assert(v@.skip(at as int).subrange(0, p@.len() as int) =~= p@);
    true
}

/// Whether `s` begins with `p`.
pub fn has_prefix(s: &str, p: &str) -> (r: bool)
    ensures
        r == starts_with(s@, p@),
{
    let v = to_chars(s);
    let q = to_chars(p);
    assert(v@.skip(0) =~= v@);
    matches_at(&v, 0, &q)
}

/// Whether `s` ends with `p`.
pub fn has_suffix(s: &str, p: &str) -> (r: bool)
    ensures
        r == ends_with(s@, p@),
{
    let v = to_chars(s);
    let q = to_chars(p);
    if v.len() < q.len() {
        return false;
    }
    let at: usize = v.len() - q.len();
    let r = matches_at(&v, at, &q);
    assert(v@.skip(at as int).subrange(0, q@.len() as int) =~= v@.subrange(
        at as int,
        v@.len() as int,
    ));
    r
}

/// Where `c` first stands in `s`, or the length of `s` where it does not.
pub open spec fn cut(s: Seq<char>, c: char) -> int
    decreases s.len(),
{
    if s.len() == 0 || s[0] == c {
        0
    } else {
        1 + cut(s.drop_first(), c)
    }
}

/// Where `c` last stands in `s`, or -1 where it does not.
pub open spec fn rcut(s: Seq<char>, c: char) -> int
    decreases s.len(),
{
    if s.len() == 0 {
        -1
    } else if s.last() == c {
        s.len() - 1
    } else {
        rcut(s.drop_last(), c)
    }
}

pub proof fn lemma_cut(s: Seq<char>, c: char)
    ensures
        0 <= cut(s, c) <= s.len(),
        forall|j: int| 0 <= j < cut(s, c) ==> s[j] != c,
        cut(s, c) < s.len() ==> s[cut(s, c)] == c,
        (cut(s, c) < s.len()) == s.contains(c),
    decreases s.len(),
{
    if s.len() == 0 {
    } else if s[0] == c {
        assert(s.contains(c));
    } else {
        let t = s.drop_first();
        lemma_cut(t, c);
        assert forall|j: int| 0 <= j < cut(s, c) implies s[j] != c by {
            if j > 0 {
                assert(t[j - 1] == s[j]);
            }
        }
        if t.contains(c) {
            let k = choose|k: int| 0 <= k < t.len() && t[k] == c;
            assert(s[k + 1] == c);
        }
        if s.contains(c) {
            let k = choose|k: int| 0 <= k < s.len() && s[k] == c;
            assert(t[k - 1] == c);
        }
    }
}

/// The first place of `c` is the only index that has `c` there and nowhere before.
pub proof fn lemma_cut_unique(s: Seq<char>, c: char, i: int)
    requires
        0 <= i <= s.len(),
        forall|j: int| 0 <= j < i ==> s[j] != c,
        i < s.len() ==> s[i] == c,
    ensures
        cut(s, c) == i,
{
    lemma_cut(s, c);
    if cut(s, c) < i {
        assert(s[cut(s, c)] != c);
    }
    if i < cut(s, c) {
        assert(s[i] != c);
    }
}

pub proof fn lemma_rcut(s: Seq<char>, c: char)
    ensures
        -1 <= rcut(s, c) < s.len(),
        forall|j: int| rcut(s, c) < j < s.len() ==> s[j] != c,
        rcut(s, c) >= 0 ==> s[rcut(s, c)] == c,
    decreases s.len(),
{
    if s.len() > 0 && s.last() != c {
        let t = s.drop_last();
        lemma_rcut(t, c);
        assert forall|j: int| rcut(s, c) < j < s.len() implies s[j] != c by {
            if j < t.len() {
                assert(t[j] == s[j]);
            }
        }
    }
}

/// The last place of `c` is the only index that has `c` there and nowhere after.
pub proof fn lemma_rcut_unique(s: Seq<char>, c: char, i: int)
    requires
        -1 <= i < s.len(),
        forall|j: int| i < j < s.len() ==> s[j] != c,
        i >= 0 ==> s[i] == c,
    ensures
        rcut(s, c) == i,
{
    lemma_rcut(s, c);
    if rcut(s, c) < i {
        assert(s[i] != c);
    }
    if i < rcut(s, c) {
        assert(s[rcut(s, c)] != c);
    }
}

/// The first index at or after `from` that holds `c`, or the length.
pub fn index_from(v: &Vec<char>, from: usize, c: char) -> (r: usize)
    requires
        from <= v@.len(),
    ensures
        r == from + cut(v@.skip(from as int), c),
        from <= r <= v@.len(),
{
    let mut i: usize = from;
    while i < v.len() && v[i] != c
        invariant
            from <= i <= v@.len(),
            forall|j: int| from <= j < i ==> v@[j] != c,
        decreases v@.len() - i,
    {
        i = i + 1;
    }
    proof {
        let t = v@.skip(from as int);
        assert forall|j: int| 0 <= j < i - from implies t[j] != c by {
            assert(t[j] == v@[from + j]);
        }
        lemma_cut_unique(t, c, i - from);
    }
    i
}

/// One past the last index that holds `c`, or zero.
pub fn after_last(v: &Vec<char>, c: char) -> (r: usize)
    ensures
        r == rcut(v@, c) + 1,
        r <= v@.len(),
{
    let mut i: usize = v.len();
    while i > 0 && v[i - 1] != c
        invariant
            i <= v@.len(),
            forall|j: int| i <= j < v@.len() ==> v@[j] != c,
        decreases i,
    {
        i = i - 1;
    }
    proof {
        lemma_rcut_unique(v@, c, i - 1);
    }
    i
}

/// Whether `c` occurs in `s`.
pub fn has_char(s: &str, c: char) -> (r: bool)
    ensures
        r == s@.contains(c),
{
    let v = to_chars(s);
    let i = index_from(&v, 0, c);
    proof {
        assert(v@.skip(0) =~= v@);
        lemma_cut(v@, c);
    }
    i < v.len()
}

// ---------------------------------------------------------------------------------------------
// Splitting

/// What stands before and after the first `c`.
pub open spec fn split_once(s: Seq<char>, c: char) -> Option<(Seq<char>, Seq<char>)> {
    let i = cut(s, c);
    if i < s.len() {
        Some((s.subrange(0, i), s.subrange(i + 1, s.len() as int)))
    } else {
        None
    }
}

/// Split at the first `c`.
pub fn split_at_first(s: &str, c: char) -> (r: Option<(String, String)>)
    ensures
        match r {
            Some((a, b)) => split_once(s@, c) == Some((a@, b@)),
            None => split_once(s@, c) is None,
        },
{
    let v = to_chars(s);
    let i = index_from(&v, 0, c);
    assert(v@.skip(0) =~= v@);
    if i < v.len() {
        Some((from_chars(&v, 0, i), from_chars(&v, i + 1, v.len())))
    } else {
        None
    }
}

/// The pieces of `s` between one `c` and the next.
pub open spec fn split(s: Seq<char>, c: char) -> Seq<Seq<char>>
    decreases s.len(),
    via split_decreases
{
    let i = cut(s, c);
    if i < s.len() {
        seq![s.subrange(0, i)] + split(s.subrange(i + 1, s.len() as int), c)
    } else {
        seq![s]
    }
}

#[via_fn]
proof fn split_decreases(s: Seq<char>, c: char) {
    lemma_cut(s, c);
}

/// The pieces that hold anything at all.
pub open spec fn nonempty(parts: Seq<Seq<char>>) -> Seq<Seq<char>> {
    parts.filter(|p: Seq<char>| p.len() > 0)
}

/// The pieces that hold anything at all.
pub fn nonempty_texts(v: &Vec<String>) -> (r: Vec<String>)
    ensures
        texts(r@) == nonempty(texts(v@)),
{
    let mut out: Vec<String> = Vec::new();
    let ghost all = texts(v@);
    let mut i: usize = 0;
    proof {
        reveal(Seq::filter);
        assert(texts(out@) =~= nonempty(all.take(0)));
    }
    while i < v.len()
        invariant
            i <= v@.len(),
            all == texts(v@),
            texts(out@) == nonempty(all.take(i as int)),
        decreases v@.len() - i,
    {
        let ghost before = texts(out@);
        if to_chars(v[i].as_str()).len() > 0 {
            out.push(v[i].clone());
            assert(texts(out@) =~= before.push(v@[i as int]@));
        }
        proof {
            reveal(Seq::filter);
            assert(all.take(i + 1).drop_last() =~= all.take(i as int));
            assert(all.take(i + 1).last() == v@[i as int]@);
        }
        i = i + 1;
    }
    assert(all.take(i as int) =~= all);
    out
}

/// The text there may be.
pub open spec fn seen(o: Option<&str>) -> Option<Seq<char>> {
    match o {
        Some(s) => Some(s@),
        None => None,
    }
}

/// Each text without the white space around it.
pub open spec fn each_trimmed(v: Seq<Seq<char>>) -> Seq<Seq<char>> {
    v.map_values(|s: Seq<char>| trim(s))
}

/// Each text without the white space around it.
pub fn trim_each(v: &Vec<String>) -> (r: Vec<String>)
    ensures
        texts(r@) == each_trimmed(texts(v@)),
{
    let mut out: Vec<String> = Vec::new();
    let mut i: usize = 0;
    while i < v.len()
        invariant
            i <= v@.len(),
            texts(out@) == each_trimmed(texts(v@).take(i as int)),
        decreases v@.len() - i,
    {
        let ghost before = texts(out@);
        out.push(trimmed(v[i].as_str()));
        assert(texts(out@) =~= before.push(trim(v@[i as int]@)));
        assert(texts(out@) =~= each_trimmed(texts(v@).take(i + 1)));
        i = i + 1;
    }
    assert(texts(v@).take(i as int) =~= texts(v@));
    out
}

/// Drop a carriage return at the end, which a line ending may carry.
pub open spec fn strip_return(s: Seq<char>) -> Seq<char> {
    if s.len() > 0 && s.last() == '\r' {
        s.drop_last()
    } else {
        s
    }
}

/// The lines of `s`: a final line ending starts no further line, and `\r\n` counts as one ending.
pub open spec fn lines(s: Seq<char>) -> Seq<Seq<char>>
    decreases s.len(),
    via lines_decreases
{
    if s.len() == 0 {
        Seq::<Seq<char>>::empty()
    } else {
        let i = cut(s, '\n');
        if i < s.len() {
            seq![strip_return(s.subrange(0, i))] + lines(s.subrange(i + 1, s.len() as int))
        } else {
            seq![s]
        }
    }
}

#[via_fn]
proof fn lines_decreases(s: Seq<char>) {
    lemma_cut(s, '\n');
}

/// The lines of `s`.
pub fn to_lines(s: &str) -> (r: Vec<String>)
    ensures
        texts(r@) == lines(s@),
{
    let v = to_chars(s);
    let mut out: Vec<String> = Vec::new();
    let mut at: usize = 0;
    assert(v@.skip(0) =~= v@);
    assert(texts(out@) + lines(v@.skip(0)) =~= lines(v@));
    while at < v.len()
        invariant
            at <= v@.len(),
            v@ == s@,
            texts(out@) + lines(v@.skip(at as int)) == lines(v@),
        decreases v@.len() - at,
    {
        let ghost rest = v@.skip(at as int);
        let ghost before = texts(out@);
        let i = index_from(&v, at, '\n');
        if i < v.len() {
            let mut end: usize = i;
            if end > at && v[end - 1] == '\r' {
                end = end - 1;
            }
            let line = from_chars(&v, at, end);
            proof {
                assert(rest.subrange(0, i - at) =~= v@.subrange(at as int, i as int));
                assert(line@ =~= strip_return(rest.subrange(0, i - at)));
                assert(rest.subrange(i - at + 1, rest.len() as int) =~= v@.skip(i + 1));
            }
            out.push(line);
            proof {
                assert(texts(out@) =~= before.push(line@));
                assert(before.push(line@) + lines(v@.skip(i + 1)) =~= before + (seq![line@] + lines(
                    v@.skip(i + 1),
                )));
            }
            at = i + 1;
        } else {
            let line = from_chars(&v, at, v.len());
            proof {
                assert(line@ =~= rest);
            }
            out.push(line);
            proof {
                assert(texts(out@) =~= before.push(line@));
                assert(lines(rest) =~= seq![rest]);
                assert(v@.skip(v@.len() as int) =~= Seq::<char>::empty());
                assert(before.push(line@) + lines(v@.skip(v@.len() as int)) =~= before + lines(rest));
            }
            at = v.len();
        }
    }
    assert(v@.skip(at as int) =~= Seq::<char>::empty());
    assert(texts(out@) + lines(v@.skip(at as int)) =~= texts(out@));
    out
}

/// Split at every `c`.
pub fn split_all(s: &str, c: char) -> (r: Vec<String>)
    ensures
        texts(r@) == split(s@, c),
{
    let v = to_chars(s);
    let mut out: Vec<String> = Vec::new();
    let mut at: usize = 0;
    assert(v@.skip(0) =~= v@);
    assert(texts(out@) + split(v@.skip(0), c) =~= split(v@, c));
    loop
        invariant
            at <= v@.len(),
            v@ == s@,
            texts(out@) + split(v@.skip(at as int), c) == split(v@, c),
        decreases v@.len() - at,
    {
        let ghost rest = v@.skip(at as int);
        let ghost before = texts(out@);
        let i = index_from(&v, at, c);
        let piece = from_chars(&v, at, i);
        proof {
            assert(piece@ =~= rest.subrange(0, i - at));
        }
        out.push(piece);
        assert(texts(out@) =~= before.push(piece@));
        if i == v.len() {
            assert(rest.subrange(0, rest.len() as int) =~= rest);
            assert(split(rest, c) =~= seq![piece@]);
            assert(before.push(piece@) =~= before + seq![piece@]);
            return out;
        }
        proof {
            assert(rest.subrange(i - at + 1, rest.len() as int) =~= v@.skip(i + 1));
            assert(before.push(piece@) + split(v@.skip(i + 1), c) =~= before + (seq![piece@]
                + split(v@.skip(i + 1), c)));
        }
        at = i + 1;
    }
}

// ---------------------------------------------------------------------------------------------
// Case

/// The letters `A` to `Z` in lower case, everything else as it is.
pub open spec fn ascii_lower(s: Seq<char>) -> Seq<char> {
    Seq::new(s.len(), |i: int| lower_char(s[i]))
}

/// The letters `a` to `z` in upper case, everything else as it is.
pub open spec fn ascii_upper(s: Seq<char>) -> Seq<char> {
    Seq::new(s.len(), |i: int| upper_char(s[i]))
}

pub open spec fn lower_char(c: char) -> char {
    if 'A' <= c <= 'Z' {
        (c as u8 + 32) as u8 as char
    } else {
        c
    }
}

pub open spec fn upper_char(c: char) -> char {
    if 'a' <= c <= 'z' {
        (c as u8 - 32) as u8 as char
    } else {
        c
    }
}

/// The letters `A` to `Z` in lower case, everything else as it is.
pub fn to_ascii_lower(s: &str) -> (r: String)
    ensures
        r@ == ascii_lower(s@),
{
    let v = to_chars(s);
    let mut out = String::new();
    let mut i: usize = 0;
    while i < v.len()
        invariant
            i <= v@.len(),
            v@ == s@,
            out@ == ascii_lower(s@).take(i as int),
        decreases v@.len() - i,
    {
        let c = v[i];
        let d: char = if 'A' <= c && c <= 'Z' {
            (c as u8 + 32) as char
        } else {
            c
        };
        out.push(d);
        assert(ascii_lower(s@).take(i as int).push(d) =~= ascii_lower(s@).take(i + 1));
        i = i + 1;
    }
    assert(ascii_lower(s@).take(i as int) =~= ascii_lower(s@));
    out
}

/// The letters `a` to `z` in upper case, everything else as it is.
pub fn to_ascii_upper(s: &str) -> (r: String)
    ensures
        r@ == ascii_upper(s@),
{
    let v = to_chars(s);
    let mut out = String::new();
    let mut i: usize = 0;
    while i < v.len()
        invariant
            i <= v@.len(),
            v@ == s@,
            out@ == ascii_upper(s@).take(i as int),
        decreases v@.len() - i,
    {
        let c = v[i];
        let d: char = if 'a' <= c && c <= 'z' {
            (c as u8 - 32) as char
        } else {
            c
        };
        out.push(d);
        assert(ascii_upper(s@).take(i as int).push(d) =~= ascii_upper(s@).take(i + 1));
        i = i + 1;
    }
    assert(ascii_upper(s@).take(i as int) =~= ascii_upper(s@));
    out
}

// ---------------------------------------------------------------------------------------------
// White space

/// The characters that Unicode gives the property `White_Space`.
pub open spec fn space(c: char) -> bool {
    let n = c as u32;
    ||| 0x9 <= n <= 0xd
    ||| n == 0x20
    ||| n == 0x85
    ||| n == 0xa0
    ||| n == 0x1680
    ||| 0x2000 <= n <= 0x200a
    ||| n == 0x2028
    ||| n == 0x2029
    ||| n == 0x202f
    ||| n == 0x205f
    ||| n == 0x3000
}

/// Whether `c` is white space.
pub fn is_space(c: char) -> (r: bool)
    ensures
        r == space(c),
{
    let n: u32 = c as u32;
    (0x9 <= n && n <= 0xd) || n == 0x20 || n == 0x85 || n == 0xa0 || n == 0x1680 || (0x2000 <= n && n
        <= 0x200a) || n == 0x2028 || n == 0x2029 || n == 0x202f || n == 0x205f || n == 0x3000
}

/// `s` without the white space it begins with.
pub open spec fn trim_start(s: Seq<char>) -> Seq<char>
    decreases s.len(),
{
    if s.len() > 0 && space(s[0]) {
        trim_start(s.drop_first())
    } else {
        s
    }
}

/// `s` without the white space it ends with.
pub open spec fn trim_end(s: Seq<char>) -> Seq<char>
    decreases s.len(),
{
    if s.len() > 0 && space(s.last()) {
        trim_end(s.drop_last())
    } else {
        s
    }
}

/// `s` without the white space around it.
pub open spec fn trim(s: Seq<char>) -> Seq<char> {
    trim_end(trim_start(s))
}

/// `s` without the `c`s it ends with.
pub open spec fn trim_end_of(s: Seq<char>, c: char) -> Seq<char>
    decreases s.len(),
{
    if s.len() > 0 && s.last() == c {
        trim_end_of(s.drop_last(), c)
    } else {
        s
    }
}

/// The first index at or after `from` that holds no white space, or the length.
pub fn skip_space(v: &Vec<char>, from: usize) -> (r: usize)
    requires
        from <= v@.len(),
    ensures
        from <= r <= v@.len(),
        v@.skip(r as int) == trim_start(v@.skip(from as int)),
        r < v@.len() ==> !space(v@[r as int]),
{
    let mut i: usize = from;
    while i < v.len() && is_space(v[i])
        invariant
            from <= i <= v@.len(),
            trim_start(v@.skip(i as int)) == trim_start(v@.skip(from as int)),
        decreases v@.len() - i,
    {
        assert(v@.skip(i as int).drop_first() =~= v@.skip(i + 1));
        i = i + 1;
    }
    i
}

/// Text that begins and ends with no white space is its own trimming.
pub proof fn lemma_trim_tight(s: Seq<char>)
    requires
        s.len() > 0 ==> !space(s[0]) && !space(s.last()),
    ensures
        trim(s) == s,
{
}

/// Trimming leaves no white space at either end.
pub proof fn lemma_trim(s: Seq<char>)
    ensures
        trim(s).len() <= s.len(),
        trim(s).len() > 0 ==> !space(trim(s)[0]) && !space(trim(s).last()),
        trim(trim(s)) == trim(s),
{
    lemma_trim_start(s);
    lemma_trim_end(trim_start(s));
    lemma_trim_tight(trim(s));
}

proof fn lemma_trim_end(s: Seq<char>)
    ensures
        trim_end(s).len() <= s.len(),
        trim_end(s).len() > 0 ==> !space(trim_end(s).last()) && trim_end(s)[0] == s[0],
    decreases s.len(),
{
    if s.len() > 0 && space(s.last()) {
        lemma_trim_end(s.drop_last());
    }
}

/// `s` without the white space around it.
pub fn trimmed(s: &str) -> (r: String)
    ensures
        r@ == trim(s@),
{
    let v = to_chars(s);
    let from = skip_space(&v, 0);
    let mut to: usize = v.len();
    assert(v@.skip(0) =~= v@);
    assert(v@.subrange(from as int, to as int) =~= v@.skip(from as int));
    while to > from && is_space(v[to - 1])
        invariant
            from <= to <= v@.len(),
            trim_end(v@.subrange(from as int, to as int)) == trim(s@),
        decreases to,
    {
        assert(v@.subrange(from as int, to as int).drop_last() =~= v@.subrange(
            from as int,
            to - 1,
        ));
        to = to - 1;
    }
    from_chars(&v, from, to)
}

/// `s` without the white space it begins with.
pub fn trimmed_start(s: &str) -> (r: String)
    ensures
        r@ == trim_start(s@),
{
    let v = to_chars(s);
    let from = skip_space(&v, 0);
    assert(v@.skip(0) =~= v@);
    assert(v@.subrange(from as int, v@.len() as int) =~= v@.skip(from as int));
    from_chars(&v, from, v.len())
}

/// `s` without the `c`s it ends with.
pub fn trimmed_end_of(s: &str, c: char) -> (r: String)
    ensures
        r@ == trim_end_of(s@, c),
{
    let v = to_chars(s);
    let mut to: usize = v.len();
    assert(v@.subrange(0, to as int) =~= v@);
    while to > 0 && v[to - 1] == c
        invariant
            to <= v@.len(),
            trim_end_of(v@.subrange(0, to as int), c) == trim_end_of(s@, c),
        decreases to,
    {
        assert(v@.subrange(0, to as int).drop_last() =~= v@.subrange(0, to - 1));
        to = to - 1;
    }
    from_chars(&v, 0, to)
}

/// How many characters at the front of `s` are not white space.
pub open spec fn word_len(s: Seq<char>) -> int
    decreases s.len(),
{
    if s.len() == 0 || space(s[0]) {
        0
    } else {
        1 + word_len(s.drop_first())
    }
}

proof fn lemma_word_len(s: Seq<char>)
    ensures
        0 <= word_len(s) <= s.len(),
        s.len() > 0 && !space(s[0]) ==> word_len(s) > 0,
    decreases s.len(),
{
    if s.len() > 0 && !space(s[0]) {
        lemma_word_len(s.drop_first());
    }
}

pub proof fn lemma_trim_start(s: Seq<char>)
    ensures
        trim_start(s).len() <= s.len(),
        trim_start(s).len() > 0 ==> !space(trim_start(s)[0]),
    decreases s.len(),
{
    if s.len() > 0 && space(s[0]) {
        lemma_trim_start(s.drop_first());
    }
}

/// The words of `s`: the runs of characters between white space.
pub open spec fn words(s: Seq<char>) -> Seq<Seq<char>>
    decreases s.len(),
    via words_decreases
{
    let t = trim_start(s);
    if t.len() == 0 {
        Seq::<Seq<char>>::empty()
    } else {
        seq![t.subrange(0, word_len(t))] + words(t.skip(word_len(t)))
    }
}

#[via_fn]
proof fn words_decreases(s: Seq<char>) {
    lemma_trim_start(s);
    lemma_word_len(trim_start(s));
}

/// The words of `s`.
pub fn to_words(s: &str) -> (r: Vec<String>)
    ensures
        texts(r@) == words(s@),
{
    let v = to_chars(s);
    let mut out: Vec<String> = Vec::new();
    let mut at: usize = 0;
    assert(v@.skip(0) =~= v@);
    assert(texts(out@) + words(v@.skip(0)) =~= words(v@));
    loop
        invariant
            at <= v@.len(),
            v@ == s@,
            texts(out@) + words(v@.skip(at as int)) == words(v@),
        decreases v@.len() - at,
    {
        let ghost before = texts(out@);
        let from = skip_space(&v, at);
        let ghost t = v@.skip(from as int);
        if from == v.len() {
            assert(words(v@.skip(at as int)) =~= Seq::<Seq<char>>::empty());
            assert(texts(out@) =~= words(v@));
            return out;
        }
        let mut to: usize = from;
        while to < v.len() && !is_space(v[to])
            invariant
                from <= to <= v@.len(),
                t == v@.skip(from as int),
                word_len(t) == to - from + word_len(v@.skip(to as int)),
            decreases v@.len() - to,
        {
            assert(v@.skip(to as int).drop_first() =~= v@.skip(to + 1));
            to = to + 1;
        }
        let word = from_chars(&v, from, to);
        proof {
            assert(word_len(t) == to - from);
            assert(word@ =~= t.subrange(0, to - from));
            assert(t.skip(to - from) =~= v@.skip(to as int));
            lemma_word_len(t);
        }
        out.push(word);
        proof {
            assert(texts(out@) =~= before.push(word@));
            assert(before.push(word@) + words(v@.skip(to as int)) =~= before + (seq![word@] + words(
                v@.skip(to as int),
            )));
        }
        at = to;
    }
}

// ---------------------------------------------------------------------------------------------
// What these do, for every text

/// White space is what a keyboard and a terminal make of it: tabs, line breaks, form feeds, the
/// space, and the spaces that Unicode adds. No letter, digit or sign is any.
pub proof fn white_space_is_this(c: char)
    ensures
        space(c) <==> {
            ||| c == '\t' || c == '\n' || c == '\u{b}' || c == '\u{c}' || c == '\r' || c == ' '
            ||| c == '\u{85}' || c == '\u{a0}' || c == '\u{1680}' || '\u{2000}' <= c <= '\u{200a}'
            ||| c == '\u{2028}' || c == '\u{2029}' || c == '\u{202f}' || c == '\u{205f}'
            ||| c == '\u{3000}'
        },
{
}

/// Trimming takes white space off both ends and nothing else: what is left is one stretch of the
/// text, all around it was white space, and it neither begins nor ends with any.
pub proof fn trimming_takes_the_ends_and_no_more(s: Seq<char>) -> (ends: (int, int))
    ensures
        0 <= ends.0 <= ends.1 <= s.len(),
        trim(s) == s.subrange(ends.0, ends.1),
        forall|k: int| 0 <= k < ends.0 || ends.1 <= k < s.len() ==> space(#[trigger] s[k]),
        ends.0 < ends.1 ==> !space(s[ends.0]) && !space(s[ends.1 - 1]),
{
    let i = lemma_start(s);
    let t = s.skip(i);
    let n = lemma_end(t);
    assert(t.take(n) =~= s.subrange(i, i + n));
    assert forall|k: int| 0 <= k < i || i + n <= k < s.len() implies space(#[trigger] s[k]) by {
        if k >= i + n {
            assert(t[k - i] == s[k]);
        }
    }
    if n > 0 {
        assert(t[0] == s[i] && t[n - 1] == s[i + n - 1]);
    }
    (i, i + n)
}

proof fn lemma_start(s: Seq<char>) -> (i: int)
    ensures
        0 <= i <= s.len(),
        trim_start(s) == s.skip(i),
        forall|k: int| 0 <= k < i ==> space(#[trigger] s[k]),
        i < s.len() ==> !space(s[i]),
    decreases s.len(),
{
    if s.len() > 0 && space(s[0]) {
        let t = s.drop_first();
        let i = lemma_start(t);
        assert(t.skip(i) =~= s.skip(i + 1));
        assert forall|k: int| 0 <= k < i + 1 implies space(#[trigger] s[k]) by {
            if k > 0 {
                assert(t[k - 1] == s[k]);
            }
        }
        i + 1
    } else {
        assert(s.skip(0) =~= s);
        0
    }
}

proof fn lemma_end(s: Seq<char>) -> (n: int)
    ensures
        0 <= n <= s.len(),
        trim_end(s) == s.take(n),
        forall|k: int| n <= k < s.len() ==> space(#[trigger] s[k]),
        n > 0 ==> !space(s[n - 1]),
    decreases s.len(),
{
    if s.len() > 0 && space(s.last()) {
        let t = s.drop_last();
        let n = lemma_end(t);
        assert(t.take(n) =~= s.take(n));
        assert forall|k: int| n <= k < s.len() implies space(#[trigger] s[k]) by {
            if k < t.len() {
                assert(t[k] == s[k]);
            }
        }
        n
    } else {
        assert(s.take(s.len() as int) =~= s);
        s.len() as int
    }
}

/// A text is trimmed to nothing exactly where it is all white space.
pub proof fn a_blank_text_is_all_white_space(s: Seq<char>)
    ensures
        trim(s).len() == 0 <==> forall|k: int| 0 <= k < s.len() ==> space(#[trigger] s[k]),
{
    let (i, j) = trimming_takes_the_ends_and_no_more(s);
    if i < j {
        assert(!space(s[i]));
    }
}

/// Taking a character off the end takes every one of it there and nothing else.
pub proof fn taking_off_the_end_takes_only_that(s: Seq<char>, c: char)
    ensures
        trim_end_of(s, c).len() <= s.len(),
        trim_end_of(s, c) == s.take(trim_end_of(s, c).len() as int),
        forall|k: int| trim_end_of(s, c).len() <= k < s.len() ==> #[trigger] s[k] == c,
        trim_end_of(s, c).len() > 0 ==> trim_end_of(s, c).last() != c,
    decreases s.len(),
{
    let r = trim_end_of(s, c);
    if s.len() > 0 && s.last() == c {
        let t = s.drop_last();
        taking_off_the_end_takes_only_that(t, c);
        assert(t.take(r.len() as int) =~= s.take(r.len() as int));
        assert forall|k: int| r.len() <= k < s.len() implies #[trigger] s[k] == c by {
            if k < t.len() {
                assert(t[k] == s[k]);
            }
        }
    } else {
        assert(s.take(s.len() as int) =~= s);
    }
}

/// A text is split at the first place where the character stands: what comes before holds none, and
/// both halves with the character between them are the text. Without the character there is no split.
pub proof fn a_split_is_at_the_first_place(s: Seq<char>, c: char, a: Seq<char>, b: Seq<char>)
    ensures
        split_once(s, c) is None <==> !s.contains(c),
        split_once(s, c) == Some((a, b)) <==> s == a + seq![c] + b && !a.contains(c),
{
    lemma_cut(s, c);
    let i = cut(s, c);
    if i < s.len() {
        assert(s.contains(s[i]));
        let x = s.subrange(0, i);
        let y = s.subrange(i + 1, s.len() as int);
        assert(s =~= x + seq![c] + y);
        assert(!x.contains(c)) by {
            if x.contains(c) {
                let k = choose|k: int| 0 <= k < x.len() && x[k] == c;
                assert(s[k] == c);
            }
        }
    } else if s.contains(c) {
        let k = choose|k: int| 0 <= k < s.len() && s[k] == c;
        assert(s[k] != c);
    }
    if s == a + seq![c] + b && !a.contains(c) {
        let n = a.len() as int;
        assert(s[n] == c);
        assert forall|j: int| 0 <= j < n implies s[j] != c by {
            assert(a.contains(a[j]));
            assert(s[j] == a[j]);
        }
        lemma_cut_unique(s, c, n);
        assert(s.subrange(0, n) =~= a);
        assert(s.subrange(n + 1, s.len() as int) =~= b);
    }
}

/// A text is read line by line: the first line goes up to the first break, without the carriage
/// return it may end in, and the others are those of the rest. A text without a break is one line,
/// and the empty text none.
pub proof fn lines_end_at_the_breaks(a: Seq<char>, b: Seq<char>)
    requires
        !a.contains('\n'),
    ensures
        lines(Seq::empty()) == Seq::<Seq<char>>::empty(),
        a.len() > 0 ==> lines(a) == seq![a],
        lines(a + seq!['\n'] + b) == seq![
            if a.len() > 0 && a.last() == '\r' {
                a.drop_last()
            } else {
                a
            },
        ] + lines(b),
{
    let s = a + seq!['\n'] + b;
    a_split_is_at_the_first_place(s, '\n', a, b);
    a_split_is_at_the_first_place(a, '\n', a, b);
    lemma_cut(a, '\n');
    lemma_cut(s, '\n');
}

/// Parts with what they were split at between them are the text again, and no part holds it.
pub proof fn parts_make_the_text_again(s: Seq<char>, c: char, i: int)
    ensures
        split(s, c).len() > 0,
        crate::order::join(split(s, c), seq![c]) == s,
        0 <= i < split(s, c).len() ==> !split(s, c)[i].contains(c),
    decreases s.len(),
{
    lemma_cut(s, c);
    let n = cut(s, c);
    let parts = split(s, c);
    if n < s.len() {
        let a = s.subrange(0, n);
        let b = s.subrange(n + 1, s.len() as int);
        a_split_is_at_the_first_place(s, c, a, b);
        parts_make_the_text_again(b, c, i - 1);
        assert(parts =~= seq![a] + split(b, c));
        crate::order::lemma_join_first(parts, seq![c]);
        assert(parts.drop_first() =~= split(b, c));
        assert(0 < i < parts.len() ==> parts[i] == split(b, c)[i - 1]);
    } else {
        assert(!s.contains(c)) by {
            a_split_is_at_the_first_place(s, c, s, s);
        }
    }
}

/// Folding the case of a text changes the letters of the alphabet and nothing else, and keeps every
/// character in its place.
pub proof fn folding_changes_letters_only(s: Seq<char>, i: int)
    requires
        0 <= i < s.len(),
    ensures
        ascii_lower(s).len() == s.len(),
        ascii_upper(s).len() == s.len(),
        !('A' <= s[i] <= 'Z') ==> ascii_lower(s)[i] == s[i],
        !('a' <= s[i] <= 'z') ==> ascii_upper(s)[i] == s[i],
        'A' <= s[i] <= 'Z' ==> ascii_lower(s)[i] as int == s[i] as int + 32,
        'a' <= s[i] <= 'z' ==> ascii_upper(s)[i] as int == s[i] as int - 32,
        ascii_upper(ascii_lower(s)) == ascii_upper(s),
{
    assert(ascii_upper(ascii_lower(s)) =~= ascii_upper(s)) by {
        assert forall|k: int| 0 <= k < s.len() implies ascii_upper(ascii_lower(s))[k] == ascii_upper(
            s,
        )[k] by {
            assert(ascii_lower(s)[k] == lower_char(s[k]));
        }
    }
}

} // verus!

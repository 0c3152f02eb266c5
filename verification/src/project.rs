//! A project declares which secrets it needs in `.passbox.toml`. The file is a request, never a
//! grant: an agent can write one itself, so approving it takes a fingerprint. The approval is bound
//! to the file's hash, so adding a secret to the manifest invalidates it and asks again.
//!
//! Grants are machine local and never sync. A grant that travelled would let a machine you have not
//! touched inherit approvals you gave on this one.

use crate::crypto::{decrypt, encrypt, Recipient, StoreKey};
use crate::disk::{
    acts, join, lemma_names_a_file, path_join, run, temporary, write_acts, write_private, File, Step,
};
use crate::history::sealed;
use crate::outside::{age_open, hex_encode, hex_text, is_public_of, sha256, sha256_digest};
use crate::problem::Problem;
use crate::promises::lemma_write;
use crate::store::Store;
use crate::text::{
    after_last, cat3, copy_texts, from_chars, has_text, lemma_rcut, rcut, same, texts, to_chars,
};
use vstd::prelude::*;
use vstd::string::*;

verus! {

/// What a project's declaration is called.
pub const MANIFEST: &'static str = ".passbox.toml";

/// How long an approval of a project lasts unless its manifest says otherwise: an hour.
pub const DEFAULT_GRANT_SECS: u64 = 3600;

/// The longest that a manifest can ask for: twelve hours.
pub const MAX_GRANT_SECS: u64 = 43_200;

/// What a manifest says.
pub struct ManifestV {
    pub dir: Seq<char>,
    pub secrets: Seq<Seq<char>>,
    pub window_secs: u64,
    pub hash: Seq<char>,
}

/// A manifest that was found.
pub struct Manifest {
    pub dir: String,
    pub secrets: Vec<String>,
    pub window_secs: u64,
    pub hash: String,
}

impl View for Manifest {
    type V = ManifestV;

    open spec fn view(&self) -> ManifestV {
        ManifestV {
            dir: self.dir@,
            secrets: texts(self.secrets@),
            window_secs: self.window_secs,
            hash: self.hash@,
        }
    }
}

/// What a grant says.
pub struct GrantV {
    pub dir: Seq<char>,
    pub hash: Seq<char>,
    pub secrets: Seq<Seq<char>>,
    pub until: u64,
}

/// An approval of a manifest as it was.
pub struct Grant {
    pub dir: String,
    pub hash: String,
    pub secrets: Vec<String>,
    pub until: u64,
}

impl View for Grant {
    type V = GrantV;

    open spec fn view(&self) -> GrantV {
        GrantV {
            dir: self.dir@,
            hash: self.hash@,
            secrets: texts(self.secrets@),
            until: self.until,
        }
    }
}

/// What grants say.
pub open spec fn grants_of(grants: Seq<Grant>) -> Seq<GrantV> {
    grants.map_values(|g: Grant| g@)
}

// ---------------------------------------------------------------------------------------------
// Finding a manifest

/// A path that ends where its last part does: without the slashes behind it, and without parts that
/// are a single dot. The root stays as it is.
pub open spec fn tidy(path: Seq<char>) -> Seq<char>
    decreases path.len(),
{
    if path.len() > 1 && (path.last() == '/' || (path.last() == '.' && path[path.len() - 2]
        == '/')) {
        tidy(path.drop_last())
    } else {
        path
    }
}

/// The directory above, if there is one.
pub open spec fn above(dir: Seq<char>) -> Option<Seq<char>> {
    let d = tidy(dir);
    if d.len() == 0 || d == "/"@ {
        None
    } else {
        Some(tidy(d.take(rcut(d, '/') + 1)))
    }
}

proof fn lemma_tidy(path: Seq<char>)
    ensures
        tidy(path).len() <= path.len(),
        tidy(tidy(path)) == tidy(path),
        tidy(path).len() > 1 ==> tidy(path).last() != '/',
    decreases path.len(),
{
    if path.len() > 1 && (path.last() == '/' || (path.last() == '.' && path[path.len() - 2]
        == '/')) {
        lemma_tidy(path.drop_last());
    }
}

/// The path without the slashes and dots behind it.
fn tidied(path: &str) -> (r: String)
    ensures
        r@ == tidy(path@),
{
    let v = to_chars(path);
    let mut n: usize = v.len();
    assert(v@.take(n as int) =~= v@);
    while n > 1 && (v[n - 1] == '/' || (v[n - 1] == '.' && v[n - 2] == '/'))
        invariant
            n <= v@.len(),
            v@ == path@,
            tidy(v@.take(n as int)) == tidy(path@),
        decreases n,
    {
        assert(v@.take(n as int).drop_last() =~= v@.take(n - 1));
        n = n - 1;
    }
    let r = from_chars(&v, 0, n);
    assert(r@ =~= v@.take(n as int));
    r
}

/// A directory and all those above it, from the inside out.
pub open spec fn climb(dir: Seq<char>) -> Seq<Seq<char>>
    decreases dir.len(),
    via climb_decreases
{
    match above(dir) {
        Some(up) => seq![tidy(dir)] + climb(up),
        None => seq![tidy(dir)],
    }
}

#[via_fn]
proof fn climb_decreases(dir: Seq<char>) {
    lemma_above(dir);
}

proof fn lemma_above(dir: Seq<char>)
    ensures
        above(dir) matches Some(up) ==> up.len() < dir.len() && tidy(up) == up,
{
    reveal_strlit("/");
    let d = tidy(dir);
    lemma_tidy(dir);
    lemma_rcut(d, '/');
    let i = rcut(d, '/');
    lemma_tidy(d.take(i + 1));
    if i + 1 == d.len() && d.len() == 1 {
        assert(d =~= "/"@);
    }
}

/// The directory above, if there is one.
pub fn dir_above(dir: &str) -> (r: Option<String>)
    ensures
        match r {
            Some(up) => above(dir@) == Some(up@),
            None => above(dir@) is None,
        },
{
    let d = tidied(dir);
    let v = to_chars(d.as_str());
    if v.len() == 0 || same(d.as_str(), "/") {
        return None;
    }
    let at = after_last(&v, '/');
    proof {
        lemma_rcut(d@, '/');
    }
    let up = from_chars(&v, 0, at);
    assert(up@ =~= d@.take(rcut(d@, '/') + 1));
    Some(tidied(up.as_str()))
}

/// A directory and all those above it, from the inside out: running in a subdirectory of the
/// project still finds its manifest.
pub fn dirs_from(from: &str) -> (r: Vec<String>)
    ensures
        texts(r@) == climb(from@),
{
    let mut out: Vec<String> = Vec::new();
    let mut dir = from.to_string();
    let mut more = true;
    assert(texts(out@) + climb(dir@) =~= climb(from@));
    while more
        invariant
            more ==> texts(out@) + climb(dir@) == climb(from@),
            !more ==> texts(out@) == climb(from@),
        decreases (if more { dir@.len() + 1 } else { 0 }),
    {
        let ghost before = texts(out@);
        let ghost here = dir@;
        proof {
            lemma_above(dir@);
        }
        out.push(tidied(dir.as_str()));
        assert(texts(out@) =~= before.push(tidy(here)));
        match dir_above(dir.as_str()) {
            Some(up) => {
                assert(before + climb(here) =~= before.push(tidy(here)) + climb(up@));
                dir = up;
            },
            None => {
                assert(before + climb(here) =~= before.push(tidy(here)));
                more = false;
            },
        }
    }
    out
}

/// The first that holds one.
pub open spec fn nearest(found: Seq<bool>, r: Option<usize>) -> bool {
    match r {
        Some(i) => i < found.len() && found[i as int] && forall|j: int|
            0 <= j < i ==> !(#[trigger] found[j]),
        None => forall|j: int| 0 <= j < found.len() ==> !(#[trigger] found[j]),
    }
}

/// The nearest directory that holds a manifest, where `found` says of each whether it does.
pub fn find(dirs: &Vec<String>, found: &Vec<bool>) -> (r: Option<usize>)
    requires
        dirs@.len() == found@.len(),
    ensures
        nearest(found@, r),
{
    let mut i: usize = 0;
    while i < found.len()
        invariant
            i <= found@.len(),
            forall|j: int| 0 <= j < i ==> !(#[trigger] found@[j]),
        decreases found@.len() - i,
    {
        if found[i] {
            return Some(i);
        }
        i = i + 1;
    }
    None
}

/// Where the manifest of a directory would be.
pub fn manifest_path(dir: &str) -> (r: String)
    ensures
        r@ == path_join(dir@, MANIFEST@),
{
    join(dir, MANIFEST)
}

/// The hash of a file: its SHA-256 in hexadecimal.
pub fn hash(bytes: &[u8]) -> (r: String)
    ensures
        r@ == hex_text(sha256(bytes@)),
        r@.len() == 64,
{
    let digest = sha256_digest(bytes);
    hex_encode(digest.as_slice())
}

/// How long an approval of a manifest lasts: what it asks for, an hour if it does not, and never
/// more than twelve.
pub open spec fn grant_window(asked: Option<u64>) -> u64 {
    let secs = match asked {
        Some(secs) => secs,
        None => DEFAULT_GRANT_SECS,
    };
    if secs > MAX_GRANT_SECS {
        MAX_GRANT_SECS
    } else {
        secs
    }
}

/// The manifest in `dir`, however that is written, from its bytes and what they were parsed to.
pub fn read(dir: &str, raw: &[u8], secrets: Vec<String>, window_secs: Option<u64>) -> (r: Manifest)
    ensures
        r@ == (ManifestV {
            dir: tidy(dir@),
            secrets: texts(secrets@),
            window_secs: grant_window(window_secs),
            hash: hex_text(sha256(raw@)),
        }),
        r.window_secs <= MAX_GRANT_SECS,
{
    let secs: u64 = match window_secs {
        Some(secs) => secs,
        None => DEFAULT_GRANT_SECS,
    };
    let capped: u64 = if secs > MAX_GRANT_SECS {
        MAX_GRANT_SECS
    } else {
        secs
    };
    Manifest { dir: tidied(dir), secrets, window_secs: capped, hash: hash(raw) }
}

// ---------------------------------------------------------------------------------------------
// Grants

/// A grant covers a secret only while the manifest it was approved for is unchanged, where it was,
/// and for what it listed.
pub open spec fn grant_covers(g: GrantV, m: ManifestV, secret: Seq<char>, now: u64) -> bool {
    g.until > now && g.hash == m.hash && g.dir == m.dir && g.secrets.contains(secret)
}

impl Grant {
    /// Whether this grant covers a secret of a manifest.
    pub fn covers(&self, manifest: &Manifest, secret: &str, now: u64) -> (r: bool)
        ensures
            r == grant_covers(self@, manifest@, secret@, now),
    {
        self.until > now && same(self.hash.as_str(), manifest.hash.as_str()) && same(
            self.dir.as_str(),
            manifest.dir.as_str(),
        ) && has_text(&self.secrets, secret)
    }

    /// The same grant again.
    pub fn copy(&self) -> (r: Grant)
        ensures
            r@ == self@,
    {
        Grant {
            dir: self.dir.clone(),
            hash: self.hash.clone(),
            secrets: copy_texts(&self.secrets),
            until: self.until,
        }
    }
}

impl Manifest {
    /// The same manifest again.
    pub fn copy(&self) -> (r: Manifest)
        ensures
            r@ == self@,
    {
        Manifest {
            dir: self.dir.clone(),
            secrets: copy_texts(&self.secrets),
            window_secs: self.window_secs,
            hash: self.hash.clone(),
        }
    }
}

/// The same grants again.
pub fn copy_grants(grants: &Vec<Grant>) -> (r: Vec<Grant>)
    ensures
        grants_of(r@) == grants_of(grants@),
{
    let mut out: Vec<Grant> = Vec::new();
    let mut i: usize = 0;
    while i < grants.len()
        invariant
            i <= grants@.len(),
            grants_of(out@) == grants_of(grants@).take(i as int),
        decreases grants@.len() - i,
    {
        let ghost before = grants_of(out@);
        out.push(grants[i].copy());
        assert(grants_of(out@) =~= before.push(grants@[i as int]@));
        assert(grants_of(out@) =~= grants_of(grants@).take(i + 1));
        i = i + 1;
    }
    assert(grants_of(grants@).take(i as int) =~= grants_of(grants@));
    out
}

/// The file that holds this machine's grants.
pub open spec fn grants_file(host: Seq<char>) -> Seq<char> {
    "grants-"@ + host + ".age"@
}

/// Where this machine's grants are.
pub fn path(store: &Store, host: &str) -> (r: String)
    ensures
        r@ == path_join(store.dir@, grants_file(host@)),
{
    join(store.dir.as_str(), cat3("grants-", host, ".age").as_str())
}

/// The grants that have not run out.
pub open spec fn live(grants: Seq<GrantV>, now: u64) -> Seq<GrantV> {
    grants.filter(|g: GrantV| g.until > now)
}

/// What the grants file holds for the key. A file that is missing or does not open holds nothing:
/// grants fail closed.
pub fn open_grants(raw: Option<&[u8]>, key: &StoreKey) -> (r: Option<Vec<u8>>)
    ensures
        match r {
            Some(plain) => raw matches Some(file) && age_open(file@, key@) == Some(plain@),
            None => raw matches Some(file) ==> age_open(file@, key@) is None,
        },
{
    match raw {
        Some(file) => match decrypt(file, key) {
            Ok(plain) => Some(plain),
            Err(_) => None,
        },
        None => None,
    }
}

/// The grants to go by, from what the file was parsed to: none where it could not be, and without
/// the ones that ran out, which keeps the file from growing without bound.
pub fn load(parsed: Option<Vec<Grant>>, now: u64) -> (r: Vec<Grant>)
    ensures
        grants_of(r@) == match parsed {
            Some(grants) => live(grants_of(grants@), now),
            None => Seq::empty(),
        },
{
    let mut out: Vec<Grant> = Vec::new();
    let ghost keep = |g: GrantV| g.until > now;
    match parsed {
        Some(grants) => {
            let ghost all = grants_of(grants@);
            let mut i: usize = 0;
            proof {
                reveal(Seq::filter);
                assert(grants_of(out@) =~= all.take(0).filter(keep));
            }
            while i < grants.len()
                invariant
                    i <= grants@.len(),
                    all == grants_of(grants@),
                    keep == (|g: GrantV| g.until > now),
                    grants_of(out@) == all.take(i as int).filter(keep),
                decreases grants@.len() - i,
            {
                let ghost before = grants_of(out@);
                if grants[i].until > now {
                    out.push(grants[i].copy());
                    assert(grants_of(out@) =~= before.push(grants@[i as int]@));
                }
                proof {
                    reveal(Seq::filter);
                    assert(all.take(i + 1).drop_last() =~= all.take(i as int));
                    assert(all.take(i + 1).last() == grants@[i as int]@);
                }
                i = i + 1;
            }
            assert(all.take(i as int) =~= all);
        },
        None => {
            assert(grants_of(out@) =~= Seq::<GrantV>::empty());
        },
    }
    out
}

/// Write this machine's grants. Encrypting needs only the public recipient, so recording a grant
/// costs no extra unlock. `json` is the grants in the form their file holds.
pub fn save(json: &[u8], recipient: &Recipient, host: &str) -> (r: Result<Vec<Step>, Problem>)
    ensures
        r is Ok,
        r matches Ok(steps) ==> exists|file: Seq<u8>| #[trigger]
            sealed(file, json@, recipient@) && acts(steps@) == write_acts(grants_file(host@), file),
{
    let mut to: Vec<Recipient> = Vec::new();
    to.push(recipient.again());
    assert(to@[0]@ == recipient@);
    match encrypt(json, &to) {
        Ok(file) => {
            assert(sealed(file@, json@, recipient@));
            proof {
                reveal_strlit(".age");
                lemma_names_a_file("grants-"@ + host@, ".age"@);
            }
            let path = cat3("grants-", host, ".age");
            Ok(write_private(path.as_str(), file.as_slice()))
        },
        Err(e) => Err(e),
    }
}

/// The grants to go by, from the bytes of their file: none where it is missing, does not open for
/// the key, or is not read as grants, and else without the ones that ran out. `parse` is what reads
/// grants out of the plain bytes.
pub open spec fn grants_in(
    raw: Option<Seq<u8>>,
    key: Seq<char>,
    parse: spec_fn(Seq<u8>) -> Option<Seq<GrantV>>,
    now: u64,
) -> Seq<GrantV> {
    match raw {
        Some(file) => match age_open(file, key) {
            Some(plain) => match parse(plain) {
                Some(grants) => live(grants, now),
                None => Seq::empty(),
            },
            None => Seq::empty(),
        },
        None => Seq::empty(),
    }
}

/// Grants that were saved are read back by the store key without the ones that ran out, in the
/// order they were saved in, whatever form they are written in, as long as that form is read back.
/// A file that is missing, does not open or is not read gives none: never an error, and never a
/// part of the list.
pub proof fn saved_grants_are_read_back(
    disk: Map<Seq<char>, File>,
    host: Seq<char>,
    file: Seq<u8>,
    json: Seq<u8>,
    recipient: Seq<char>,
    key: Seq<char>,
    grants: Seq<GrantV>,
    parse: spec_fn(Seq<u8>) -> Option<Seq<GrantV>>,
    now: u64,
    at: i128,
)
    requires
        sealed(file, json, recipient),
        is_public_of(recipient, key),
        parse(json) == Some(grants),
    ensures
        ({
            let after = run(disk, write_acts(grants_file(host), file), at);
            &&& after.contains_key(grants_file(host))
            &&& grants_in(Some(after[grants_file(host)].bytes), key, parse, now) == live(grants, now)
        }),
        grants_in(None, key, parse, now) == Seq::<GrantV>::empty(),
        forall|raw: Seq<u8>|
            age_open(raw, key) is None || parse(age_open(raw, key)->0) is None
                ==> #[trigger] grants_in(Some(raw), key, parse, now) == Seq::<GrantV>::empty(),
{
    let path = grants_file(host);
    reveal_strlit(".age");
    reveal_strlit(".tmp");
    assert(path.last() == 'e');
    assert(temporary(path).last() == 'p');
    lemma_write(disk, path, file, at);
}

/// Editing a manifest cannot widen what a grant opens: a grant for one hash covers nothing of a
/// manifest with another.
pub proof fn another_manifest_voids_the_grant(
    g: GrantV,
    before: ManifestV,
    after: ManifestV,
    granted: Seq<char>,
    wanted: Seq<char>,
    now: u64,
    later: u64,
)
    requires
        grant_covers(g, before, granted, now),
        after.hash != before.hash,
    ensures
        !grant_covers(g, after, wanted, later),
{
}

/// A grant covers only what it listed, only until it runs out, and once it does it is dropped when
/// the grants are next read.
pub proof fn a_grant_covers_only_what_it_listed(g: GrantV, m: ManifestV, secret: Seq<char>, now: u64)
    ensures
        !g.secrets.contains(secret) ==> !grant_covers(g, m, secret, now),
        g.until <= now ==> !grant_covers(g, m, secret, now),
        g.until <= now ==> !live(seq![g], now).contains(g),
{
    reveal(Seq::filter);
    let s = seq![g];
    assert(s.drop_last() =~= Seq::<GrantV>::empty());
    assert(s.last() == g);
    assert(s.drop_last().filter(|x: GrantV| x.until > now) =~= Seq::<GrantV>::empty());
}

/// What stays at home includes every machine's grants, so an approval given on one machine never
/// arrives on another.
pub proof fn grants_never_travel(host: Seq<char>)
    ensures
        crate::sync::stays_home(grants_file(host)),
{
    reveal_strlit("grants-");
    reveal_strlit(".age");
    let p = grants_file(host);
    assert(p.subrange(0, 7) =~= "grants-"@);
    assert(p.subrange(p.len() - 4, p.len() as int) =~= ".age"@);
}

/// An approval of a project lasts as long as its manifest asks for, up to twelve hours, and an hour
/// where it does not say.
pub proof fn a_project_lasts_as_long_as_it_asks(secs: u64)
    ensures
        secs <= 12 * 3600 ==> grant_window(Some(secs)) == secs,
        secs > 12 * 3600 ==> grant_window(Some(secs)) == 12 * 3600,
        grant_window(None) == 3600,
{
}

/// The grants to go by are those that have not run out, as they were written and in their order.
pub proof fn only_what_ran_out_is_dropped(grants: Seq<GrantV>, g: GrantV, now: u64)
    ensures
        live(Seq::empty(), now) == Seq::<GrantV>::empty(),
        g.until > now ==> live(grants.push(g), now) == live(grants, now).push(g),
        g.until <= now ==> live(grants.push(g), now) == live(grants, now),
{
    reveal(Seq::filter);
    assert(grants.push(g).drop_last() =~= grants);
}

proof fn lemma_tidy_front(path: Seq<char>, d: Seq<char>)
    requires
        d.len() <= path.len(),
        path.take(d.len() as int) == d,
        tidy(d) == d,
        d.len() > 0,
    ensures
        d.len() <= tidy(path).len() <= path.len(),
        tidy(path) == path.take(tidy(path).len() as int),
        tidy(tidy(path)) == tidy(path),
    decreases path.len(),
{
    assert(path.take(path.len() as int) =~= path);
    if path.len() > 1 && (path.last() == '/' || (path.last() == '.' && path[path.len() - 2] == '/')) {
        let p = path.drop_last();
        if path.len() == d.len() {
            assert(path =~= d);
            lemma_tidy(p);
        } else {
            assert(p.take(d.len() as int) =~= path.take(d.len() as int));
            lemma_tidy_front(p, d);
            assert(p.take(tidy(p).len() as int) =~= path.take(tidy(p).len() as int));
        }
    }
}

/// However deep one is in a project, its directory is looked in: the way up from a path goes through
/// every directory that the path lies in.
pub proof fn the_way_up_goes_through_every_directory(d: Seq<char>, rest: Seq<char>)
    requires
        d.len() > 0,
        d != "/"@,
        tidy(d) == d,
    ensures
        climb(d).len() > 0,
        climb(d)[0] == d,
        climb(d + seq!['/'] + rest).contains(d),
    decreases rest.len(),
{
    reveal_strlit("/");
    let path = d + seq!['/'] + rest;
    let n = d.len() as int;
    assert(path.take(n) =~= d);
    lemma_tidy_front(path, d);
    let t = tidy(path);
    let m = t.len() as int;
    if m == n {
        assert(t == d);
        assert(climb(path)[0] == d);
    } else {
        assert(path[n] == '/');
        lemma_tidy(path);
        if m == n + 1 {
            assert(t.last() == path[n]);
        }
        assert(t[n] == '/');
        lemma_rcut(t, '/');
        let k = rcut(t, '/') + 1;
        assert(n < k < m);
        if t == "/"@ {
            assert(t.len() == 1);
        }
        let up = t.take(k);
        let less = rest.take(k - n - 1);
        assert(up =~= d + seq!['/'] + less);
        the_way_up_goes_through_every_directory(d, less);
        lemma_tidy(up);
        assert(climb(tidy(up)) == climb(up));
        assert(climb(path) == seq![t] + climb(tidy(up)));
        let j = choose|j: int| 0 <= j < climb(up).len() && climb(up)[j] == d;
        assert(climb(path)[j + 1] == d);
    }
}

/// The nearest manifest is the one that counts: the first that was found on the way up, and none only
/// where none was found.
pub proof fn the_nearest_manifest_counts(found: Seq<bool>, r: Option<usize>, i: int)
    requires
        nearest(found, r),
        0 <= i < found.len(),
        found[i],
    ensures
        r matches Some(k) && k <= i && found[k as int],
{
    if r is None {
        assert(!found[i]);
    }
}

} // verus!

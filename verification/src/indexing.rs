//! Locating the qmd binary and remembering where it was found.
use vstd::prelude::*;

use crate::path::{path_join, path_join_exec};
use crate::text::{chars_of, string_of, trim, trim_slice};

verus! {

broadcast use vstd::string::group_string_axioms;

/// A qmd binary: its path, and the directory it must run in, if any (the
/// bundled binary finds its `node_modules` there).
#[derive(Debug, Clone)]
pub struct QmdBinary {
    pub path: String,
    pub work_dir: Option<String>,
}

impl View for QmdBinary {
    type V = (Seq<char>, Option<Seq<char>>);

    open spec fn view(&self) -> Self::V {
        (self.path@, self.work_dir.deep_view())
    }
}

impl QmdBinary {
    /// A copy of this binary's description.
    pub fn duplicate(&self) -> (r: QmdBinary)
        ensures
            r@ == self@,
    {
        let work_dir = match &self.work_dir {
            Some(d) => Some(d.clone()),
            None => None,
        };
        QmdBinary { path: self.path.clone(), work_dir }
    }
}

/// The view of an optional binary.
pub open spec fn binary_view(b: Option<QmdBinary>) -> Option<(Seq<char>, Option<Seq<char>>)> {
    match b {
        Some(x) => Some(x@),
        None => None,
    }
}

// ---------------------------------------------------------------------------
// The cache
// ---------------------------------------------------------------------------
/// Where qmd was last found, so that it is searched for only once.
pub struct QmdCache {
    cached: Option<QmdBinary>,
}

impl View for QmdCache {
    type V = Option<(Seq<char>, Option<Seq<char>>)>;

    closed spec fn view(&self) -> Self::V {
        binary_view(self.cached)
    }
}

impl QmdCache {
    /// An empty cache.
    pub fn new() -> (r: QmdCache)
        ensures
            r@ is None,
    {
        QmdCache { cached: None }
    }
}

/// A lookup through the cache holding `cached`, where a search would find
/// `found`: the result, and what the cache holds afterwards. A cached
/// binary is returned as it is; otherwise the search's result is returned
/// and kept (nothing is kept when the search found nothing).
pub open spec fn cache_lookup(
    cached: Option<(Seq<char>, Option<Seq<char>>)>,
    found: Option<(Seq<char>, Option<Seq<char>>)>,
) -> (Option<(Seq<char>, Option<Seq<char>>)>, Option<(Seq<char>, Option<Seq<char>>)>) {
    match cached {
        Some(b) => (Some(b), Some(b)),
        None => (found, found),
    }
}

/// The qmd binary: the cached one when there is one; otherwise the result
/// of `locate`, which the cache then keeps when it found a binary.
pub fn find_qmd_binary<F: FnOnce() -> Option<QmdBinary>>(cache: &mut QmdCache, locate: F) -> (r:
    Option<QmdBinary>)
    requires
        old(cache)@ is None ==> call_requires(locate, ()),
    ensures
        old(cache)@ is Some ==> binary_view(r) == old(cache)@ && final(cache)@ == old(cache)@,
        old(cache)@ is None ==> (exists|found: Option<QmdBinary>|
            call_ensures(locate, (), found) && binary_view(r) == binary_view(found))
            && final(cache)@ == binary_view(r),
        old(cache)@ is Some ==> (binary_view(r), final(cache)@) == cache_lookup(old(cache)@, None),
        old(cache)@ is None ==> exists|found: Option<QmdBinary>|
            call_ensures(locate, (), found) && (binary_view(r), final(cache)@) == cache_lookup(
                old(cache)@,
                binary_view(found),
            ),
{
    if let Some(b) = &cache.cached {
        return Some(b.duplicate());
    }
    let result = locate();
    let r = match &result {
        Some(b) => {
            cache.cached = Some(b.duplicate());
            Some(b.duplicate())
        },
        None => None,
    };
    assert(call_ensures(locate, (), result) && binary_view(r) == binary_view(result));
    r
}

/// Forgets the cached binary.
pub fn clear_qmd_cache(cache: &mut QmdCache)
    ensures
        final(cache)@ is None,
{
    cache.cached = None;
}

// ---------------------------------------------------------------------------
// Laws of the cache
// ---------------------------------------------------------------------------
/// Once a lookup has returned a binary, every later lookup returns the same
/// binary and leaves the cache as it is, whatever a search would find then.
pub proof fn law_cached_binary_is_stable(
    cached: Option<(Seq<char>, Option<Seq<char>>)>,
    first: Option<(Seq<char>, Option<Seq<char>>)>,
    later: Option<(Seq<char>, Option<Seq<char>>)>,
)
    requires
        cache_lookup(cached, first).0 is Some,
    ensures
        cache_lookup(cache_lookup(cached, first).1, later) == cache_lookup(cached, first),
{
}

/// A lookup through an empty (or cleared) cache returns what the search
/// finds at that time; a search that finds nothing leaves the cache empty,
/// so the next lookup searches again.
pub proof fn law_empty_cache_searches(found: Option<(Seq<char>, Option<Seq<char>>)>)
    ensures
        cache_lookup(None, found).0 == found,
        found is None ==> cache_lookup(None, found).1 is None,
{
}

// ---------------------------------------------------------------------------
// Candidate locations
// ---------------------------------------------------------------------------
/// The binary `qmd` inside `dir`, run from `dir`.
pub open spec fn qmd_in_spec(dir: Seq<char>) -> (Seq<char>, Option<Seq<char>>) {
    (path_join(dir, "qmd"@), Some(dir))
}

/// The binary `qmd` inside `dir`, run from `dir`.
pub fn qmd_in(dir: &str) -> (r: QmdBinary)
    ensures
        r@ == qmd_in_spec(dir@),
{
    let d = chars_of(dir);
    let q = chars_of("qmd");
    QmdBinary { path: path_join_exec(d.as_slice(), q.as_slice()), work_dir: Some(dir.to_owned()) }
}

/// Where an application bundle keeps qmd: `<contents_dir>/Resources/qmd`.
pub open spec fn bundle_dir_spec(contents_dir: Seq<char>) -> Seq<char> {
    path_join(path_join(contents_dir, "Resources"@), "qmd"@)
}

/// The qmd directory of an application bundle whose `Contents` directory is
/// `contents_dir` (the parent of the directory holding the executable).
pub fn qmd_bundle_dir(contents_dir: &str) -> (r: String)
    ensures
        r@ == bundle_dir_spec(contents_dir@),
{
    let a = path_join_exec(chars_of(contents_dir).as_slice(), chars_of("Resources").as_slice());
    path_join_exec(chars_of(a.as_str()).as_slice(), chars_of("qmd").as_slice())
}

/// Where a development checkout keeps qmd: `<dir>/resources/qmd`.
pub open spec fn dev_dir_spec(dir: Seq<char>) -> Seq<char> {
    path_join(path_join(dir, "resources"@), "qmd"@)
}

/// The qmd directory of a development checkout rooted at `dir`.
pub fn qmd_dev_dir(dir: &str) -> (r: String)
    ensures
        r@ == dev_dir_spec(dir@),
{
    let a = path_join_exec(chars_of(dir).as_slice(), chars_of("resources").as_slice());
    path_join_exec(chars_of(a.as_str()).as_slice(), chars_of("qmd").as_slice())
}

/// The places where a system-wide qmd is looked for, in order:
/// `<home>/.bun/bin/qmd` when the home directory is known, then
/// `/usr/local/bin/qmd` and `/opt/homebrew/bin/qmd`; none has a working
/// directory.
pub open spec fn system_candidates(home: Option<Seq<char>>) -> Seq<
    (Seq<char>, Option<Seq<char>>),
> {
    match home {
        Some(h) => seq![
            (path_join(h, ".bun/bin/qmd"@), None),
            ("/usr/local/bin/qmd"@, None),
            ("/opt/homebrew/bin/qmd"@, None),
        ],
        None => seq![("/usr/local/bin/qmd"@, None), ("/opt/homebrew/bin/qmd"@, None)],
    }
}

/// The view of a list of binaries.
pub open spec fn binaries_view(v: Seq<QmdBinary>) -> Seq<(Seq<char>, Option<Seq<char>>)> {
    v.map_values(|b: QmdBinary| b@)
}

fn plain_binary(path: &str) -> (r: QmdBinary)
    ensures
        r@ == (path@, None::<Seq<char>>),
{
    QmdBinary { path: path.to_owned(), work_dir: None }
}

/// The system-wide places to look for qmd, given the home directory.
pub fn qmd_system_candidates(home: Option<&str>) -> (r: Vec<QmdBinary>)
    ensures
        binaries_view(r@) == system_candidates(
            match home {
                Some(h) => Some(h@),
                None => None,
            },
        ),
{
    let mut r: Vec<QmdBinary> = Vec::new();
    if let Some(h) = home {
        let p = path_join_exec(chars_of(h).as_slice(), chars_of(".bun/bin/qmd").as_slice());
        r.push(QmdBinary { path: p, work_dir: None });
    }
    r.push(plain_binary("/usr/local/bin/qmd"));
    r.push(plain_binary("/opt/homebrew/bin/qmd"));
    assert(binaries_view(r@) =~= system_candidates(
        match home {
            Some(h) => Some(h@),
            None => None,
        },
    ));
    r
}

/// `i` is the first index at which `present` holds.
pub open spec fn is_first_present(present: Seq<bool>, n: int, i: int) -> bool {
    0 <= i < n && i < present.len() && present[i] && forall|j: int| 0 <= j < i ==> !present[j]
}

/// The first of the candidates `c` that is present, where `p[i]` tells
/// whether `c[i]` exists (a candidate without an answer counts as absent).
pub open spec fn first_present_of(
    c: Seq<(Seq<char>, Option<Seq<char>>)>,
    p: Seq<bool>,
) -> Option<(Seq<char>, Option<Seq<char>>)>
    decreases c.len(),
{
    if c.len() == 0 || p.len() == 0 {
        None
    } else if p[0] {
        Some(c[0])
    } else {
        first_present_of(c.drop_first(), p.drop_first())
    }
}

/// The first candidate that is present: `present[i]` tells whether
/// `candidates[i]` exists.
pub fn first_present(candidates: &Vec<QmdBinary>, present: &Vec<bool>) -> (r: Option<QmdBinary>)
    ensures
        binary_view(r) == first_present_of(binaries_view(candidates@), present@),
        match r {
            Some(b) => exists|i: int|
                is_first_present(present@, candidates@.len() as int, i) && b@ == candidates@[i]@,
            None => forall|i: int|
                0 <= i < candidates@.len() && i < present@.len() ==> !present@[i],
        },
{
    let ghost cv = binaries_view(candidates@);
    let mut i: usize = 0;
    assert(cv.skip(0) =~= cv);
    assert(present@.skip(0) =~= present@);
    while i < candidates.len() && i < present.len()
        invariant
            i <= candidates@.len(),
            i <= present@.len(),
            cv == binaries_view(candidates@),
            forall|j: int| 0 <= j < i && j < present@.len() ==> !present@[j],
            first_present_of(cv.skip(i as int), present@.skip(i as int)) == first_present_of(
                cv,
                present@,
            ),
        decreases candidates.len() - i,
    {
        assert(cv.skip(i as int)[0] == candidates@[i as int]@);
        assert(present@.skip(i as int)[0] == present@[i as int]);
        if present[i] {
            let b = candidates[i].duplicate();
            assert(is_first_present(present@, candidates@.len() as int, i as int));
            return Some(b);
        }
        assert(cv.skip(i as int).drop_first() =~= cv.skip(i + 1));
        assert(present@.skip(i as int).drop_first() =~= present@.skip(i + 1));
        i = i + 1;
    }
    proof {
        if i == candidates@.len() {
            assert(cv.skip(i as int).len() == 0);
        } else {
            assert(present@.skip(i as int).len() == 0);
        }
    }
    None
}

/// The qmd that `which qmd` printed: when it succeeded, its output without
/// surrounding whitespace, with no working directory.
pub fn qmd_from_which(success: bool, stdout: &str) -> (r: Option<QmdBinary>)
    ensures
        success ==> binary_view(r) == Some((trim(stdout@), None::<Seq<char>>)),
        !success ==> r is None,
{
    if !success {
        return None;
    }
    let c = chars_of(stdout);
    let t = trim_slice(c.as_slice());
    Some(QmdBinary { path: string_of(t), work_dir: None })
}

// ---------------------------------------------------------------------------
// Search order
// ---------------------------------------------------------------------------
/// What `Path::parent` gives for `p`, as text: the path without its last
/// component, none for a root or an empty path.
pub uninterp spec fn parent_of(p: Seq<char>) -> Option<Seq<char>>;

/// `Path::parent`, rendered with `to_string_lossy`. The claim is only that
/// the result is `parent_of` of the argument.
#[verifier::external_body]
pub(crate) fn path_parent(p: &str) -> (r: Option<String>)
    ensures
        match r {
            Some(q) => parent_of(p@) == Some(q@),
            None => parent_of(p@) is None,
        },
{
    std::path::Path::new(p).parent().map(|q| q.to_string_lossy().into_owned())
}

/// `dir` and its ancestors, nearest first, at most `n` of them.
pub open spec fn ancestors(dir: Seq<char>, n: nat) -> Seq<Seq<char>>
    decreases n,
{
    if n == 0 {
        Seq::empty()
    } else {
        seq![dir] + match parent_of(dir) {
            Some(p) => ancestors(p, (n - 1) as nat),
            None => Seq::empty(),
        }
    }
}

fn ancestors_exec(dir: &str, n: usize) -> (r: Vec<String>)
    ensures
        r.deep_view() == ancestors(dir@, n as nat),
{
    let mut out: Vec<String> = Vec::new();
    let mut cur: Option<String> = Some(dir.to_owned());
    let mut k: usize = 0;
    assert(out.deep_view() + ancestors(dir@, n as nat) =~= ancestors(dir@, n as nat));
    while k < n && cur.is_some()
        invariant
            k <= n,
            match cur {
                Some(c) => out.deep_view() + ancestors(c@, (n - k) as nat) == ancestors(
                    dir@,
                    n as nat,
                ),
                None => out.deep_view() == ancestors(dir@, n as nat),
            },
        decreases n - k,
    {
        let c = cur.unwrap();
        let p = path_parent(c.as_str());
        let ghost before = out.deep_view();
        let ghost cv = c@;
        out.push(c);
        assert(out.deep_view() =~= before.push(cv));
        proof {
            let rest = match parent_of(cv) {
                Some(q) => ancestors(q, (n - k - 1) as nat),
                None => Seq::<Seq<char>>::empty(),
            };
            assert(ancestors(cv, (n - k) as nat) == seq![cv] + rest);
            assert(before + (seq![cv] + rest) =~= before.push(cv) + rest);
            if p is None {
                assert(rest =~= Seq::<Seq<char>>::empty());
                assert(before.push(cv) + rest =~= before.push(cv));
            }
        }
        cur = p;
        k = k + 1;
    }
    proof {
        if let Some(c) = cur {
            assert(k == n);
            assert(ancestors(c@, 0) =~= Seq::<Seq<char>>::empty());
            assert(out.deep_view() + Seq::<Seq<char>>::empty() =~= out.deep_view());
        }
    }
    out
}

/// Where qmd is looked for inside the application, given the path of the
/// running executable: first `<contents>/Resources/qmd/qmd`, where
/// `<contents>` is the parent of the executable's directory, then
/// `<dir>/resources/qmd/qmd` for the executable's directory and its
/// ancestors, six directories in all; each runs in its own directory. None
/// when the executable or its directory has no parent.
pub open spec fn bundled_candidates(exe: Option<Seq<char>>) -> Seq<(Seq<char>, Option<Seq<char>>)> {
    match exe {
        None => Seq::empty(),
        Some(e) => match parent_of(e) {
            None => Seq::empty(),
            Some(d) => match parent_of(d) {
                None => Seq::empty(),
                Some(c) => seq![qmd_in_spec(bundle_dir_spec(c))] + dev_candidates(ancestors(d, 6)),
            },
        },
    }
}

/// The qmd of a development checkout rooted at each of `dirs`.
pub open spec fn dev_candidates(dirs: Seq<Seq<char>>) -> Seq<(Seq<char>, Option<Seq<char>>)> {
    dirs.map_values(|a: Seq<char>| qmd_in_spec(dev_dir_spec(a)))
}

fn bundled_candidates_exec(exe: Option<String>) -> (r: Vec<QmdBinary>)
    ensures
        binaries_view(r@) == bundled_candidates(exe.deep_view()),
{
    let mut r: Vec<QmdBinary> = Vec::new();
    let e = match exe {
        None => {
            assert(binaries_view(r@) =~= Seq::empty());
            return r;
        },
        Some(e) => e,
    };
    let d = match path_parent(e.as_str()) {
        None => {
            assert(binaries_view(r@) =~= Seq::empty());
            return r;
        },
        Some(d) => d,
    };
    let c = match path_parent(d.as_str()) {
        None => {
            assert(binaries_view(r@) =~= Seq::empty());
            return r;
        },
        Some(c) => c,
    };
    r.push(qmd_in(qmd_bundle_dir(c.as_str()).as_str()));
    let dirs = ancestors_exec(d.as_str(), 6);
    let ghost anc = ancestors(d@, 6);
    let mut i: usize = 0;
    assert(binaries_view(r@) =~= seq![qmd_in_spec(bundle_dir_spec(c@))] + dev_candidates(anc.take(0)));
    while i < dirs.len()
        invariant
            i <= dirs@.len(),
            dirs.deep_view() == anc,
            binaries_view(r@) == seq![qmd_in_spec(bundle_dir_spec(c@))] + dev_candidates(anc.take(i as int)),
        decreases dirs.len() - i,
    {
        assert(dirs.deep_view()[i as int] == dirs@[i as int]@);
        let dd = qmd_dev_dir(dirs[i].as_str());
        let b = qmd_in(dd.as_str());
        assert(dd@ == dev_dir_spec(anc[i as int]));
        assert(b@ == qmd_in_spec(dev_dir_spec(anc[i as int])));
        let ghost before = binaries_view(r@);
        r.push(b);
        assert(binaries_view(r@) =~= before.push(b@));
        assert(dirs@[i as int]@ == anc[i as int]);
        assert(dev_candidates(anc.take(i + 1)) =~= dev_candidates(anc.take(i as int)).push(b@));
        assert(seq![qmd_in_spec(bundle_dir_spec(c@))] + dev_candidates(anc.take(i + 1)) =~= before.push(b@));
        i = i + 1;
    }
    assert(anc.take(i as int) =~= anc);
    r
}

/// The qmd that a run of `which qmd` gives: none when it could not run or
/// failed, else its output without surrounding whitespace.
pub open spec fn which_result(which: Option<(bool, Seq<char>)>) -> Option<(Seq<char>, Option<Seq<char>>)> {
    match which {
        Some((true, out)) => Some((trim(out), None)),
        _ => None,
    }
}

/// The view of a `which qmd` outcome.
pub open spec fn which_view(which: Option<(bool, String)>) -> Option<(bool, Seq<char>)> {
    match which {
        Some((s, out)) => Some((s, out@)),
        None => None,
    }
}

/// Steps of searching for qmd.
pub enum QmdSearch {
    /// Report the path of the running executable (`Exe`).
    Exe,
    /// Report which of these bundled candidates exist (`Present`).
    Bundled(Vec<QmdBinary>),
    /// Report the home directory (`Home`).
    Home,
    /// Report which of these system-wide candidates exist (`Present`).
    System(Vec<QmdBinary>),
    /// Run `which qmd` and report its outcome (`Which`).
    Which,
    /// The search is over.
    Done(Option<QmdBinary>),
}

/// What the caller reports during the search.
pub enum SearchEvent {
    /// The path of the running executable, if known.
    Exe(Option<String>),
    /// For each candidate of the step, whether it exists.
    Present(Vec<bool>),
    /// The home directory, if known.
    Home(Option<String>),
    /// Whether `which qmd` succeeded and what it printed; none when it could
    /// not be run.
    Which(Option<(bool, String)>),
}

/// The event that a search step waits for.
pub open spec fn search_awaits(step: QmdSearch, event: SearchEvent) -> bool {
    match step {
        QmdSearch::Exe => event is Exe,
        QmdSearch::Bundled(_) => event is Present,
        QmdSearch::Home => event is Home,
        QmdSearch::System(_) => event is Present,
        QmdSearch::Which => event is Which,
        QmdSearch::Done(_) => false,
    }
}

/// The step is `Done` with the binary `b`.
pub open spec fn search_done(step: QmdSearch, b: Option<(Seq<char>, Option<Seq<char>>)>) -> bool {
    step matches QmdSearch::Done(r) && binary_view(r) == b
}

/// What one step of the search does.
pub open spec fn search_transition(step: QmdSearch, event: SearchEvent, next: QmdSearch) -> bool {
    &&& step is Exe ==> (event matches SearchEvent::Exe(e) && next matches QmdSearch::Bundled(c)
        && binaries_view(c@) == bundled_candidates(e.deep_view()))
    &&& step is Bundled ==> (event matches SearchEvent::Present(p) && step matches QmdSearch::Bundled(
        c,
    ) && match first_present_of(binaries_view(c@), p@) {
        Some(b) => search_done(next, Some(b)),
        None => next is Home,
    })
    &&& step is Home ==> (event matches SearchEvent::Home(h) && next matches QmdSearch::System(c)
        && binaries_view(c@) == system_candidates(h.deep_view()))
    &&& step is System ==> (event matches SearchEvent::Present(p) && step matches QmdSearch::System(
        c,
    ) && match first_present_of(binaries_view(c@), p@) {
        Some(b) => search_done(next, Some(b)),
        None => next is Which,
    })
    &&& step is Which ==> (event matches SearchEvent::Which(w) && search_done(
        next,
        which_result(which_view(w)),
    ))
}

/// One step of the search for qmd: the bundled binary first, then the
/// system-wide candidates, then what `which qmd` prints; the first look
/// that finds a binary ends the search.
pub fn find_qmd_binary_uncached(step: QmdSearch, event: SearchEvent) -> (next: QmdSearch)
    requires
        search_awaits(step, event),
    ensures
        search_transition(step, event, next),
{
    match step {
        QmdSearch::Exe => match event {
            SearchEvent::Exe(e) => QmdSearch::Bundled(bundled_candidates_exec(e)),
            _ => QmdSearch::Exe,
        },
        QmdSearch::Bundled(c) => match event {
            SearchEvent::Present(p) => match first_present(&c, &p) {
                Some(b) => QmdSearch::Done(Some(b)),
                None => QmdSearch::Home,
            },
            _ => QmdSearch::Home,
        },
        QmdSearch::Home => match event {
            SearchEvent::Home(h) => {
                let c = match &h {
                    Some(x) => qmd_system_candidates(Some(x.as_str())),
                    None => qmd_system_candidates(None),
                };
                QmdSearch::System(c)
            },
            _ => QmdSearch::Home,
        },
        QmdSearch::System(c) => match event {
            SearchEvent::Present(p) => match first_present(&c, &p) {
                Some(b) => QmdSearch::Done(Some(b)),
                None => QmdSearch::Which,
            },
            _ => QmdSearch::Which,
        },
        QmdSearch::Which => match event {
            SearchEvent::Which(Some((success, out))) => QmdSearch::Done(
                qmd_from_which(success, out.as_str()),
            ),
            _ => QmdSearch::Done(None),
        },
        QmdSearch::Done(r) => QmdSearch::Done(r),
    }
}

/// The binary that the whole search finds, given the executable's path,
/// which bundled candidates exist, the home directory, which system-wide
/// candidates exist, and the outcome of `which qmd`.
pub open spec fn search_outcome(
    exe: Option<Seq<char>>,
    bundled_present: Seq<bool>,
    home: Option<Seq<char>>,
    system_present: Seq<bool>,
    which: Option<(bool, Seq<char>)>,
) -> Option<(Seq<char>, Option<Seq<char>>)> {
    match first_present_of(bundled_candidates(exe), bundled_present) {
        Some(b) => Some(b),
        None => match first_present_of(system_candidates(home), system_present) {
            Some(b) => Some(b),
            None => which_result(which),
        },
    }
}

/// A whole search ends with `search_outcome`: the first bundled candidate
/// that exists; else the first system-wide candidate that exists
/// (`~/.bun/bin/qmd`, `/usr/local/bin/qmd`, `/opt/homebrew/bin/qmd`); else
/// the trimmed output of a successful `which qmd`; else nothing. `s1` to
/// `s5` are the steps reached by answering `Exe(exe)`, `Present(bp)`,
/// `Home(home)`, `Present(sp)` and `Which(which)` in turn, as long as the
/// search goes on.
pub proof fn law_search_outcome(
    exe: Option<String>,
    bp: Vec<bool>,
    home: Option<String>,
    sp: Vec<bool>,
    which: Option<(bool, String)>,
    s1: QmdSearch,
    s2: QmdSearch,
    s3: QmdSearch,
    s4: QmdSearch,
    s5: QmdSearch,
)
    requires
        search_transition(QmdSearch::Exe, SearchEvent::Exe(exe), s1),
        search_transition(s1, SearchEvent::Present(bp), s2),
        s2 is Home ==> search_transition(s2, SearchEvent::Home(home), s3),
        s3 is System ==> search_transition(s3, SearchEvent::Present(sp), s4),
        s4 is Which ==> search_transition(s4, SearchEvent::Which(which), s5),
    ensures
        ({
            let outcome = search_outcome(
                exe.deep_view(),
                bp@,
                home.deep_view(),
                sp@,
                which_view(which),
            );
            &&& s2 is Done || s2 is Home
            &&& s2 is Done ==> search_done(s2, outcome)
            &&& s2 is Home ==> s3 is System && (s4 is Done || s4 is Which)
            &&& s2 is Home && s4 is Done ==> search_done(s4, outcome)
            &&& s2 is Home && s4 is Which ==> search_done(s5, outcome)
        }),
{
}

} // verus!

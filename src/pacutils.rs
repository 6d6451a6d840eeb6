use vstd::prelude::*;

use crate::error::CommandoError;
use crate::text::{
    first_group_captures, push_str, regex_first_groups, split_by, split_by_of, views,
};

verus! {

/// A package repository: its name and its mirror URLs, in order of preference.
pub struct Repo {
    pub name: String,
    pub mirrors: Vec<String>,
}

/// Name of the manifest file of a repository.
pub open spec fn manifest_name(repo: Seq<char>) -> Seq<char> {
    repo + seq!['.', 'f', 'i', 'l', 'e', 's']
}

/// The URL of `file` relative to `base`, as `url::Url::parse` and
/// `Url::join` give it; `None` when either fails.
pub uninterp spec fn url_join(base: Seq<char>, file: Seq<char>) -> Option<Seq<char>>;

/// Relies on `reqwest::Url::parse` (the `url` crate) for the mirror URL and
/// on `Url::join` for the file relative to it.
#[verifier::external_body]
fn join_url(base: &str, file: &str) -> (r: Option<String>)
    ensures
        url_join(base@, file@) == match r {
            Some(u) => Some(u@),
            None => None,
        },
{
    reqwest::Url::parse(base).and_then(|u| u.join(file)).ok().map(|u| u.to_string())
}

/// The manifest URL of one mirror: the file joined to the mirror with a
/// slash added.
pub open spec fn mirror_url(mirror: Seq<char>, file: Seq<char>) -> Option<Seq<char>> {
    url_join(mirror.push('/'), file)
}

/// Model of a fallback: the manifest file, the mirrors, and the index of
/// the next mirror to try.
pub struct FallbackModel {
    pub file: Seq<char>,
    pub mirrors: Seq<Seq<char>>,
    pub next: nat,
}

/// Model of a request.
pub enum RequestModel {
    /// Download from this URL.
    Get(Seq<char>),
    /// Fail with `NoMirror` for this manifest file.
    GiveUp(Seq<char>),
    /// Anything else.
    Other,
}

/// Index of the first mirror from `i` on that gives a URL, or the number
/// of mirrors.
pub open spec fn usable_from(ms: Seq<Seq<char>>, file: Seq<char>, i: int) -> int
    decreases ms.len() - i,
{
    if i < 0 || i >= ms.len() {
        ms.len() as int
    } else if mirror_url(ms[i], file) is Some {
        i
    } else {
        usable_from(ms, file, i + 1)
    }
}

/// The next request and the state after it: the next usable mirror, or
/// giving up with the repository's error once none is left.
pub open spec fn next_request(m: FallbackModel) -> (FallbackModel, RequestModel) {
    let k = usable_from(m.mirrors, m.file, m.next as int);
    if k < m.mirrors.len() {
        (
            FallbackModel { next: (k + 1) as nat, ..m },
            RequestModel::Get(mirror_url(m.mirrors[k], m.file)->Some_0),
        )
    } else {
        (
            FallbackModel { next: m.mirrors.len(), ..m },
            RequestModel::GiveUp(m.file),
        )
    }
}

/// What to do next while fetching a manifest.
pub enum FetchAction {
    /// Download this URL and report the outcome.
    Get(String),
    /// The manifest was fetched: these are its bytes.
    Done(Vec<u8>),
    /// No mirror is left.
    Fail(CommandoError),
}

/// Outcome of the last download.
pub enum FetchEvent {
    /// The download failed (transport error or non-success status).
    Failed,
    /// The download succeeded with this body.
    Fetched(Vec<u8>),
}

/// Tries the mirrors of one repository in order until one serves the
/// manifest.
pub struct MirrorFallback {
    file: String,
    mirrors: Vec<String>,
    next: usize,
}

impl View for MirrorFallback {
    type V = FallbackModel;

    closed spec fn view(&self) -> FallbackModel {
        FallbackModel { file: self.file@, mirrors: views(self.mirrors@), next: self.next as nat }
    }
}

/// A request as a model value.
pub open spec fn request_view(a: FetchAction) -> RequestModel {
    match a {
        FetchAction::Get(u) => RequestModel::Get(u@),
        FetchAction::Fail(CommandoError::NoMirror { repo }) => RequestModel::GiveUp(repo@),
        _ => RequestModel::Other,
    }
}

impl MirrorFallback {
    /// A fallback over the repository's mirrors, none tried yet.
    pub fn new(repo: &Repo) -> (r: Self)
        ensures
            r@ == (FallbackModel { file: manifest_name(repo.name@), mirrors: views(repo.mirrors@), next: 0 }),
    {
        let mut file = repo.name.clone();
        push_str(&mut file, ".files");
        proof {
            reveal_strlit(".files");
        }
        let mut mirrors: Vec<String> = Vec::new();
        let mut i: usize = 0;
        while i < repo.mirrors.len()
            invariant
                i <= repo.mirrors@.len(),
                views(mirrors@) == views(repo.mirrors@).take(i as int),
            decreases repo.mirrors@.len() - i,
        {
            let m = repo.mirrors[i].clone();
            assert(m@ == repo.mirrors@[i as int]@);
            let ghost pre = mirrors@;
            mirrors.push(m);
            assert(views(mirrors@) =~= views(pre).push(repo.mirrors@[i as int]@));
            assert(views(mirrors@) =~= views(repo.mirrors@).take(i + 1));
            i = i + 1;
        }
        assert(views(repo.mirrors@).take(i as int) =~= views(repo.mirrors@));
        assert(file@ =~= manifest_name(repo.name@));
        MirrorFallback { file, mirrors, next: 0 }
    }

    /// The next request: a URL to download, or the repository's error when
    /// no usable mirror is left.
    pub fn request(&mut self) -> (r: FetchAction)
        requires
            old(self)@.next <= old(self)@.mirrors.len(),
        ensures
            (final(self)@, request_view(r)) == next_request(old(self)@),
            !(r is Done),
            final(self)@.next <= final(self)@.mirrors.len(),
    {
        while self.next < self.mirrors.len()
            invariant
                self@.file == old(self)@.file,
                self@.mirrors == old(self)@.mirrors,
                old(self)@.next <= self@.next <= self@.mirrors.len(),
                usable_from(self@.mirrors, self@.file, self@.next as int) == usable_from(
                    old(self)@.mirrors,
                    old(self)@.file,
                    old(self)@.next as int,
                ),
            decreases self@.mirrors.len() - self@.next,
        {
            let mut base = self.mirrors[self.next].clone();
            push_str(&mut base, "/");
            proof {
                reveal_strlit("/");
            }
            assert(base@ =~= self@.mirrors[self.next as int].push('/'));
            match join_url(base.as_str(), self.file.as_str()) {
                Some(u) => {
                    self.next = self.next + 1;
                    return FetchAction::Get(u);
                },
                None => {
                    self.next = self.next + 1;
                },
            }
        }
        FetchAction::Fail(CommandoError::NoMirror { repo: self.file.clone() })
    }

    /// Takes the outcome of the last download: a fetched body ends the work,
    /// a failure moves on to the next mirror.
    pub fn on_event(&mut self, ev: FetchEvent) -> (r: FetchAction)
        requires
            old(self)@.next <= old(self)@.mirrors.len(),
        ensures
            final(self)@.next <= final(self)@.mirrors.len(),
            match ev {
                FetchEvent::Fetched(b) => r == FetchAction::Done(b) && final(self)@ == old(self)@,
                FetchEvent::Failed => (final(self)@, request_view(r)) == next_request(old(self)@),
            },
    {
        match ev {
            FetchEvent::Fetched(b) => FetchAction::Done(b),
            FetchEvent::Failed => self.request(),
        }
    }
}

/// The state and request after `k` more failed downloads, starting from
/// the request made in state `m`.
pub open spec fn after_failures(m: FallbackModel, k: nat) -> (FallbackModel, RequestModel)
    decreases k,
{
    if k == 0 {
        next_request(m)
    } else {
        after_failures(next_request(m).0, (k - 1) as nat)
    }
}

proof fn lemma_usable_from_bounds(ms: Seq<Seq<char>>, file: Seq<char>, i: int)
    requires
        0 <= i <= ms.len(),
    ensures
        i <= usable_from(ms, file, i) <= ms.len(),
    decreases ms.len() - i,
{
    if i < ms.len() && !(mirror_url(ms[i], file) is Some) {
        lemma_usable_from_bounds(ms, file, i + 1);
    }
}

proof fn lemma_gives_up_within(m: FallbackModel, k: nat)
    requires
        m.next <= m.mirrors.len(),
        k >= m.mirrors.len() - m.next,
    ensures
        after_failures(m, k).1 == RequestModel::GiveUp(m.file),
    decreases k,
{
    lemma_usable_from_bounds(m.mirrors, m.file, m.next as int);
    if k > 0 {
        let m2 = next_request(m).0;
        assert(m2.file == m.file && m2.mirrors == m.mirrors);
        lemma_gives_up_within(m2, (k - 1) as nat);
    }
}

/// When every mirror of a repository fails, the fallback gives up with the
/// error that names the repository's manifest, after at most one request
/// per mirror.
pub proof fn lemma_all_mirrors_fail(name: Seq<char>, mirrors: Seq<Seq<char>>)
    ensures
        after_failures(FallbackModel { file: manifest_name(name), mirrors, next: 0 }, mirrors.len())
            .1 == RequestModel::GiveUp(manifest_name(name)),
{
    lemma_gives_up_within(FallbackModel { file: manifest_name(name), mirrors, next: 0 }, mirrors.len());
}

proof fn lemma_tried_in_order_from(m: FallbackModel, j: nat)
    requires
        m.next + j < m.mirrors.len(),
        forall|i: int| 0 <= i < m.mirrors.len() ==> (mirror_url(#[trigger] m.mirrors[i], m.file) is Some),
    ensures
        after_failures(m, j) == (
            FallbackModel { next: (m.next + j + 1) as nat, ..m },
            RequestModel::Get(mirror_url(m.mirrors[m.next + j as int], m.file)->Some_0),
        ),
    decreases j,
{
    let n = m.next as int;
    assert(mirror_url(m.mirrors[n], m.file) is Some);
    assert(usable_from(m.mirrors, m.file, n) == n);
    if j > 0 {
        let m2 = next_request(m).0;
        assert(m2 == FallbackModel { next: (n + 1) as nat, ..m });
        lemma_tried_in_order_from(m2, (j - 1) as nat);
    }
}

/// When every mirror gives a URL, the request made after `j` failed
/// downloads is for mirror `j`: mirrors are tried in order, each once, and
/// none after the one whose download succeeds.
pub proof fn lemma_mirrors_tried_in_order(name: Seq<char>, mirrors: Seq<Seq<char>>, j: nat)
    requires
        j < mirrors.len(),
        forall|i: int| 0 <= i < mirrors.len() ==> (mirror_url(#[trigger] mirrors[i], manifest_name(name)) is Some),
    ensures
        after_failures(FallbackModel { file: manifest_name(name), mirrors, next: 0 }, j).1
            == RequestModel::Get(mirror_url(mirrors[j as int], manifest_name(name))->Some_0),
        after_failures(FallbackModel { file: manifest_name(name), mirrors, next: 0 }, j).0.next
            == j + 1,
{
    lemma_tried_in_order_from(FallbackModel { file: manifest_name(name), mirrors, next: 0 }, j);
}

/// Outcome of fetching every repository: all manifests, in repository
/// order, or the first error, with no manifest kept.
pub open spec fn all_fetched(rs: Seq<Result<Vec<u8>, CommandoError>>) -> Result<Seq<Seq<u8>>, CommandoError>
    decreases rs.len(),
{
    if rs.len() == 0 {
        Ok(Seq::empty())
    } else {
        match all_fetched(rs.drop_last()) {
            Err(e) => Err(e),
            Ok(bs) => match rs.last() {
                Ok(b) => Ok(bs.push(b@)),
                Err(e) => Err(e),
            },
        }
    }
}

/// Byte strings as model values.
pub open spec fn blobs_view(v: Seq<Vec<u8>>) -> Seq<Seq<u8>> {
    v.map_values(|b: Vec<u8>| b@)
}

/// Joins the outcomes of the per-repository fetches: the update goes on only
/// when every repository was fetched.
pub fn collect_downloads(results: Vec<Result<Vec<u8>, CommandoError>>) -> (r: Result<Vec<Vec<u8>>, CommandoError>)
    ensures
        match r {
            Ok(v) => all_fetched(results@) == Ok::<Seq<Seq<u8>>, CommandoError>(blobs_view(v@)),
            Err(e) => all_fetched(results@) == Err::<Seq<Seq<u8>>, CommandoError>(e),
        },
{
    let ghost rs = results@;
    let mut rest = results;
    let mut out: Vec<Vec<u8>> = Vec::new();
    let ghost mut i: int = 0;
    assert(rs.take(0) =~= Seq::<Result<Vec<u8>, CommandoError>>::empty());
    assert(blobs_view(out@) =~= Seq::<Seq<u8>>::empty());
    assert(rs.skip(0) =~= rs);
    while rest.len() > 0
        invariant
            rs == results@,
            0 <= i <= rs.len(),
            rest@ == rs.skip(i),
            all_fetched(rs.take(i)) == Ok::<Seq<Seq<u8>>, CommandoError>(blobs_view(out@)),
        decreases rest@.len(),
    {
        let x = rest.remove(0);
        assert(rs.take(i + 1).drop_last() =~= rs.take(i));
        assert(rs.take(i + 1).last() == x);
        assert(rest@ =~= rs.skip(i + 1));
        match x {
            Ok(b) => {
                let ghost pre = out@;
                out.push(b);
                assert(blobs_view(out@) =~= blobs_view(pre).push(out@.last()@));
            },
            Err(e) => {
                assert(all_fetched(rs.take(i + 1)) == Err::<Seq<Seq<u8>>, CommandoError>(e));
                proof {
                    lemma_fetch_error_stays(rs, i + 1);
                }
                return Err(e);
            },
        }
        proof {
            i = i + 1;
        }
    }
    assert(rs.take(i) =~= rs);
    Ok(out)
}

proof fn lemma_fetch_error_stays(rs: Seq<Result<Vec<u8>, CommandoError>>, n: int)
    requires
        0 <= n <= rs.len(),
        all_fetched(rs.take(n)) is Err,
    ensures
        all_fetched(rs) == all_fetched(rs.take(n)),
    decreases rs.len() - n,
{
    if n < rs.len() {
        assert(rs.take(n + 1).drop_last() =~= rs.take(n));
        lemma_fetch_error_stays(rs, n + 1);
    } else {
        assert(rs.take(n) =~= rs);
    }
}

/// Name of the extra repository of prebuilt user packages.
pub const AUR_REPO: &'static str = "chaotic-aur";

/// Base URL of the first mirror of the extra repository, before the
/// architecture.
pub const AUR_MIRROR_GEO: &'static str = "https://geo-mirror.chaotic.cx/chaotic-aur/";

/// Base URL of the second mirror of the extra repository, before the
/// architecture.
pub const AUR_MIRROR_CDN: &'static str = "https://cdn-mirror.chaotic.cx/chaotic-aur/";

/// Model of a repository.
pub open spec fn repo_view(r: Repo) -> (Seq<char>, Seq<Seq<char>>) {
    (r.name@, views(r.mirrors@))
}

/// The repositories with the extra repository of prebuilt user packages
/// appended, its mirrors for the architecture `arch`.
pub fn with_aur(repos: Vec<Repo>, arch: &str) -> (r: Vec<Repo>)
    ensures
        r@.len() == repos@.len() + 1,
        forall|i: int| 0 <= i < repos@.len() ==> #[trigger] r@[i] == repos@[i],
        repo_view(r@[repos@.len() as int]) == (
            AUR_REPO@,
            seq![AUR_MIRROR_GEO@ + arch@, AUR_MIRROR_CDN@ + arch@],
        ),
{
    let mut geo = String::new();
    push_str(&mut geo, AUR_MIRROR_GEO);
    push_str(&mut geo, arch);
    let mut cdn = String::new();
    push_str(&mut cdn, AUR_MIRROR_CDN);
    push_str(&mut cdn, arch);
    let mut name = String::new();
    push_str(&mut name, AUR_REPO);
    let mirrors = vec![geo, cdn];
    assert(views(mirrors@) =~= seq![AUR_MIRROR_GEO@ + arch@, AUR_MIRROR_CDN@ + arch@]);
    let mut out = repos;
    out.push(Repo { name, mirrors });
    out
}

/// Pattern of a repository section header: the name before `]`.
pub const NAME_PATTERN: &'static str = "(.*)]";

/// Pattern of a mirror line: the URL after `Server =`.
pub const MIRROR_PATTERN: &'static str = "Server\\s?=\\s?(.*)";

/// The captured texts, without the groups that did not take part.
pub open spec fn somes(cs: Seq<Option<Seq<char>>>) -> Seq<Seq<char>>
    decreases cs.len(),
{
    if cs.len() == 0 {
        Seq::empty()
    } else {
        match cs.last() {
            Some(c) => somes(cs.drop_last()).push(c),
            None => somes(cs.drop_last()),
        }
    }
}

/// The repository a section describes, if its header gives a name.
pub open spec fn section_repo(sec: Seq<char>) -> Option<(Seq<char>, Seq<Seq<char>>)> {
    repo_of(regex_first_groups(NAME_PATTERN@, sec), regex_first_groups(MIRROR_PATTERN@, sec))
}

/// The repositories of the sections, in order.
pub open spec fn conf_repos(secs: Seq<Seq<char>>) -> Seq<(Seq<char>, Seq<Seq<char>>)>
    decreases secs.len(),
{
    if secs.len() == 0 {
        Seq::empty()
    } else {
        match section_repo(secs.last()) {
            Some(r) => conf_repos(secs.drop_last()).push(r),
            None => conf_repos(secs.drop_last()),
        }
    }
}

/// The texts of the groups that took part.
pub fn captured_texts(cs: Vec<Option<String>>) -> (r: Vec<String>)
    ensures
        views(r@) == somes(crate::text::opt_views(cs@)),
{
    let ghost os = crate::text::opt_views(cs@);
    let mut out: Vec<String> = Vec::new();
    let mut i: usize = 0;
    while i < cs.len()
        invariant
            os == crate::text::opt_views(cs@),
            i <= cs@.len(),
            views(out@) == somes(os.take(i as int)),
        decreases cs@.len() - i,
    {
        assert(os.take(i + 1).drop_last() =~= os.take(i as int));
        assert(os.take(i + 1).last() == os[i as int]);
        match &cs[i] {
            Some(c) => {
                let ghost pre = out@;
                out.push(c.clone());
                assert(views(out@) =~= views(pre).push(c@));
            },
            None => {},
        }
        i = i + 1;
    }
    assert(os.take(os.len() as int) =~= os);
    out
}

/// Captures as model values.
pub open spec fn captures_view(c: Option<Vec<Option<String>>>) -> Option<Seq<Option<Seq<char>>>> {
    match c {
        Some(v) => Some(crate::text::opt_views(v@)),
        None => None,
    }
}

/// The repository of a section, from the captures of its header pattern and
/// of its mirror pattern: named by the first header capture, served by every
/// mirror capture; none when the header gives no name.
pub open spec fn repo_of(names: Option<Seq<Option<Seq<char>>>>, mirrors: Option<Seq<Option<Seq<char>>>>) -> Option<(Seq<char>, Seq<Seq<char>>)> {
    match names {
        Some(cs) => if cs.len() > 0 && cs[0] is Some {
            Some(
                (
                    cs[0]->Some_0,
                    match mirrors {
                        Some(ms) => somes(ms),
                        None => Seq::empty(),
                    },
                ),
            )
        } else {
            None
        },
        None => None,
    }
}

/// The repository that the captures of one section describe; see [`repo_of`].
pub fn repo_from_captures(names: Option<Vec<Option<String>>>, mirrors: Option<Vec<Option<String>>>) -> (r: Option<Repo>)
    ensures
        match r {
            Some(repo) => repo_of(captures_view(names), captures_view(mirrors)) == Some(repo_view(repo)),
            None => repo_of(captures_view(names), captures_view(mirrors)) is None,
        },
{
    match names {
        Some(ns) => {
            if ns.len() > 0 {
                match &ns[0] {
                    Some(name) => {
                        let ms = match mirrors {
                            Some(ms) => captured_texts(ms),
                            None => Vec::new(),
                        };
                        Some(Repo { name: name.clone(), mirrors: ms })
                    },
                    None => None,
                }
            } else {
                None
            }
        },
        None => None,
    }
}

/// Parses the output of the package manager's configuration dump: every
/// section after the first `\n[` is a repository, named by its header and
/// served by its `Server` lines. A section whose header gives no name is
/// left out.
pub fn parse_pacman_conf(output: &str) -> (r: Vec<Repo>)
    ensures
        r@.map_values(|x: Repo| repo_view(x)) == conf_repos(split_by(output@, seq!['\n', '[']).drop_first()),
{
    proof {
        reveal_strlit("\n[");
        assert("\n["@ =~= seq!['\n', '[']);
    }
    let secs = split_by_of(output, "\n[");
    assert(secs@.len() >= 1) by {
        assert(split_by(output@, seq!['\n', '[']).len() >= 1) by {
            lemma_split_by_nonempty(output@, seq!['\n', '[']);
        }
    }
    let ghost ss = views(secs@).drop_first();
    let mut out: Vec<Repo> = Vec::new();
    let mut i: usize = 1;
    while i < secs.len()
        invariant
            ss == views(secs@).drop_first(),
            1 <= i <= secs@.len(),
            out@.map_values(|x: Repo| repo_view(x)) == conf_repos(ss.take(i - 1)),
        decreases secs@.len() - i,
    {
        assert(ss.take(i as int).drop_last() =~= ss.take(i - 1));
        assert(ss.take(i as int).last() == secs@[i as int]@);
        let sec = secs[i].as_str();
        let names = first_group_captures(NAME_PATTERN, sec);
        let mirrors = first_group_captures(MIRROR_PATTERN, sec);
        let ghost prev = out@;
        match repo_from_captures(names, mirrors) {
            Some(repo) => {
                out.push(repo);
                assert(out@.map_values(|x: Repo| repo_view(x)) =~= prev.map_values(
                    |x: Repo| repo_view(x),
                ).push(repo_view(out@.last())));
            },
            None => {},
        }
        i = i + 1;
    }
    assert(ss.take(secs@.len() - 1) =~= ss);
    out
}

proof fn lemma_split_by_nonempty(s: Seq<char>, sep: Seq<char>)
    ensures
        split_by(s, sep).len() >= 1,
    decreases s.len(),
{
    if s.len() > 0 {
        if sep.len() > 0 && s.len() >= sep.len() && s.take(sep.len() as int) == sep {
            lemma_split_by_nonempty(s.skip(sep.len() as int), sep);
        } else {
            lemma_split_by_nonempty(s.drop_first(), sep);
        }
    }
}

} // verus!

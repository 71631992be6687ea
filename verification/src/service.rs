//! The session dispatcher's decision core: client requests and replies, the
//! tenant registry, search handling, and the application of change-observer
//! commands to a tenant's cache.
//!
//! Everything that reads or writes a socket stays with the caller; this
//! module decides, for every request and event, what the registry becomes
//! and what reply is owed.

use crate::cache::{
    corpus_matches, entries_wf, match_models, reload_spec, CacheModel, FileProbe, MatchModel,
    MmapCache, SearchMatch,
};
use crate::matcher::regex_ok;
use crate::text;
use vstd::prelude::*;

verus! {

/// The result ceiling used when a request does not name one.
pub fn default_max_results() -> (r: usize)
    ensures
        r == 1000,
{
    1000
}

/// A request a client can send: register a directory for a tenant, or run a
/// search for a registered tenant.
pub enum Request {
    AllocPid { pid: u32, repo_dir_path: String },
    RequestRipgrep { pid: u32, pattern: String, case_sensitive: bool },
}

/// A reply to a client: status one for success with optional text, status
/// zero for failure with an error.
pub struct Response {
    pub response_status: u8,
    pub text: Option<String>,
    pub error: Option<String>,
}

impl Response {
    /// A success reply carrying the given text.
    pub fn success(text: Option<String>) -> (r: Response)
        ensures
            r.response_status == 1,
            r.text == text,
            r.error is None,
    {
        Response { response_status: 1, text, error: None }
    }

    /// A failure reply carrying the given error.
    pub fn failure(error: String) -> (r: Response)
        ensures
            r.response_status == 0,
            r.text is None,
            r.error == Some(error),
    {
        Response { response_status: 0, text: None, error: Some(error) }
    }
}

/// One registered tenant: its id and its corpus cache.
pub struct TenantEntry {
    pub pid: u32,
    pub cache: MmapCache,
}

/// The models of the registry's entries, in registration order.
pub open spec fn tenant_models(s: Seq<TenantEntry>) -> Seq<(u32, CacheModel)> {
    s.map_values(|t: TenantEntry| (t.pid, t.cache@))
}

/// The cache registered for `pid`, earliest registration winning.
pub open spec fn lookup(s: Seq<(u32, CacheModel)>, pid: u32) -> Option<CacheModel>
    decreases s.len(),
{
    if s.len() == 0 {
        None
    } else if s.first().0 == pid {
        Some(s.first().1)
    } else {
        lookup(s.drop_first(), pid)
    }
}

/// `s` without every entry of tenant `pid`.
pub open spec fn without_tenant(s: Seq<(u32, CacheModel)>, pid: u32) -> Seq<(u32, CacheModel)>
    decreases s.len(),
{
    if s.len() == 0 {
        s
    } else if s.first().0 == pid {
        without_tenant(s.drop_first(), pid)
    } else {
        seq![s.first()] + without_tenant(s.drop_first(), pid)
    }
}

/// Every registered cache is well-formed.
pub open spec fn registry_wf(s: Seq<(u32, CacheModel)>) -> bool {
    forall|i: int| 0 <= i < s.len() ==> entries_wf((#[trigger] s[i]).1.entries)
}

/// Evicting a tenant hides exactly that tenant.
pub proof fn lemma_lookup_without(s: Seq<(u32, CacheModel)>, pid: u32, q: u32)
    ensures
        lookup(without_tenant(s, pid), q) == (if q == pid {
            Option::<CacheModel>::None
        } else {
            lookup(s, q)
        }),
    decreases s.len(),
{
    if s.len() > 0 {
        lemma_lookup_without(s.drop_first(), pid, q);
        if s.first().0 != pid {
            let w = seq![s.first()] + without_tenant(s.drop_first(), pid);
            assert(w.first() == s.first());
            assert(w.drop_first() =~= without_tenant(s.drop_first(), pid));
        }
    }
}

/// Appending a registration serves a tenant only where nobody served it
/// before.
pub proof fn lemma_lookup_push(s: Seq<(u32, CacheModel)>, e: (u32, CacheModel), q: u32)
    ensures
        lookup(s.push(e), q) == (match lookup(s, q) {
            Some(c) => Some(c),
            None => if e.0 == q {
                Some(e.1)
            } else {
                None
            },
        }),
    decreases s.len(),
{
    reveal_with_fuel(lookup, 2);
    let t = s.push(e);
    if s.len() == 0 {
        assert(t.first() == e);
        assert(t.drop_first() =~= Seq::<(u32, CacheModel)>::empty());
    } else {
        assert(t.first() == s.first());
        assert(t.drop_first() =~= s.drop_first().push(e));
        lemma_lookup_push(s.drop_first(), e, q);
    }
}

/// Updating the entry at the first index serving `pid` changes that
/// tenant's cache and nobody else's.
proof fn lemma_lookup_update(
    s: Seq<(u32, CacheModel)>,
    k: int,
    pid: u32,
    c2: CacheModel,
    q: u32,
)
    requires
        0 <= k < s.len(),
        s[k].0 == pid,
        forall|j: int| 0 <= j < k ==> (#[trigger] s[j]).0 != pid,
    ensures
        lookup(s.update(k, (pid, c2)), q) == (if q == pid {
            Some(c2)
        } else {
            lookup(s, q)
        }),
    decreases k,
{
    reveal_with_fuel(lookup, 2);
    let t = s.update(k, (pid, c2));
    if k == 0 {
        assert(t.first() == (pid, c2));
        assert(t.drop_first() =~= s.drop_first());
    } else {
        assert(t.first() == s.first());
        assert(t.drop_first() =~= s.drop_first().update(k - 1, (pid, c2)));
        assert forall|j: int| 0 <= j < k - 1 implies (#[trigger] s.drop_first()[j]).0 != pid by {
            assert(s.drop_first()[j] == s[j + 1]);
        }
        assert(s.drop_first()[k - 1] == s[k]);
        lemma_lookup_update(s.drop_first(), k - 1, pid, c2, q);
    }
}

/// Eviction keeps every registered cache well-formed.
proof fn lemma_registry_wf_without(s: Seq<(u32, CacheModel)>, pid: u32)
    requires
        registry_wf(s),
    ensures
        registry_wf(without_tenant(s, pid)),
    decreases s.len(),
{
    if s.len() > 0 {
        assert forall|i: int| 0 <= i < s.drop_first().len() implies entries_wf(
            (#[trigger] s.drop_first()[i]).1.entries,
        ) by {
            assert(s.drop_first()[i] == s[i + 1]);
        }
        lemma_registry_wf_without(s.drop_first(), pid);
        if s.first().0 != pid {
            let w = seq![s.first()] + without_tenant(s.drop_first(), pid);
            assert forall|i: int| 0 <= i < w.len() implies entries_wf(
                (#[trigger] w[i]).1.entries,
            ) by {
                if i > 0 {
                    assert(w[i] == without_tenant(s.drop_first(), pid)[i - 1]);
                }
            }
        }
    }
}

/// Tenant isolation: evicting one tenant leaves every other tenant's
/// registered cache untouched, and what a search replies is a function of
/// the searched tenant's own cache alone.
pub proof fn lemma_tenant_isolation(s: Seq<(u32, CacheModel)>, pid: u32, q: u32)
    requires
        q != pid,
    ensures
        lookup(without_tenant(s, pid), q) == lookup(s, q),
{
    lemma_lookup_without(s, pid, q);
}

/// The tenant's cache was replaced under some resolved canonical form.
pub open spec fn reloaded_from(
    c: CacheModel,
    post: Option<CacheModel>,
    path: Seq<char>,
    probe: crate::cache::ProbeModel,
) -> bool {
    exists|canon: Seq<char>| post == Some(reload_spec(c, path, canon, probe))
}

/// Introduce `reloaded_from` from a concrete resolved form.
proof fn lemma_reloaded_intro(
    c: CacheModel,
    post: Option<CacheModel>,
    path: Seq<char>,
    probe: crate::cache::ProbeModel,
    canon: Seq<char>,
)
    requires
        post == Some(reload_spec(c, path, canon, probe)),
    ensures
        reloaded_from(c, post, path, probe),
{
    assert(post == Some(reload_spec(c, path, canon, probe)));
}

/// The tenant's cache was collapsed under some resolved canonical form.
pub open spec fn collapsed_from(c: CacheModel, post: Option<CacheModel>) -> bool {
    exists|canon: Seq<char>|
        post == Some(
            (CacheModel { root: c.root, entries: crate::cache::without_canon(c.entries, canon) }),
        )
}

/// Introduce `collapsed_from` from a concrete resolved form.
proof fn lemma_collapsed_intro(c: CacheModel, post: Option<CacheModel>, canon: Seq<char>)
    requires
        post == Some(
            (CacheModel { root: c.root, entries: crate::cache::without_canon(c.entries, canon) }),
        ),
    ensures
        collapsed_from(c, post),
{
    assert(post == Some(
        (CacheModel { root: c.root, entries: crate::cache::without_canon(c.entries, canon) }),
    ));
}

/// The error text for a search by an unregistered tenant.
pub open spec fn no_codebase_msg(pid: u32) -> Seq<char> {
    "PID "@ + text::dec_str(pid as int) + " has no allocated codebase. Call alloc_pid first."@
}

/// The error text for a pattern that does not compile.
pub open spec fn search_failed_msg() -> Seq<char> {
    "Search failed: "@ + "Invalid regex pattern"@
}

/// The success text for a registration of `n` files.
pub open spec fn alloc_text(n: int) -> Seq<char> {
    "Allocated "@ + text::dec_str(n) + " files"@
}

/// The error text for a registration naming a directory that is absent.
pub open spec fn missing_root_msg(path: Seq<char>) -> Seq<char> {
    "Repository path does not exist: "@ + path
}

/// The error text for a registration whose cache build failed.
pub open spec fn load_failure_msg(err: Seq<char>) -> Seq<char> {
    "Failed to load codebase: "@ + err
}

/// The reply body a search of cache `c` yields: the capped matches joined
/// into lines.
pub open spec fn search_reply_body(
    c: CacheModel,
    pattern: Seq<char>,
    case_sensitive: bool,
    max: int,
) -> Seq<char> {
    let all = corpus_matches(c.entries, c.root, pattern, case_sensitive, max);
    joined_lines(
        all.take(
            if max <= all.len() {
                max
            } else {
                all.len() as int
            },
        ),
    )
}

/// One reply line per match: `path:line_number:content`.
pub open spec fn match_line(m: MatchModel) -> Seq<char> {
    m.path + ":"@ + text::dec_str(m.line_number as int) + ":"@ + m.line
}

/// The newline-joined reply body for a list of matches.
pub open spec fn joined_lines(ms: Seq<MatchModel>) -> Seq<char>
    decreases ms.len(),
{
    if ms.len() == 0 {
        Seq::<char>::empty()
    } else if ms.len() == 1 {
        match_line(ms.first())
    } else {
        match_line(ms.first()) + "\n"@ + joined_lines(ms.drop_first())
    }
}

/// Joining one more match appends a separator and its line.
proof fn lemma_joined_take_step(ms: Seq<MatchModel>, i: int)
    requires
        1 <= i < ms.len(),
    ensures
        joined_lines(ms.take(i + 1)) =~= joined_lines(ms.take(i)) + "\n"@ + match_line(ms[i]),
    decreases i,
{
    let t1 = ms.take(i + 1);
    let t0 = ms.take(i);
    if i == 1 {
        assert(t1.first() == ms[0]);
        assert(t1.drop_first() =~= seq![ms[1]]);
        assert(joined_lines(seq![ms[1]]) == match_line(ms[1]));
        assert(t0 =~= seq![ms[0]]);
    } else {
        let d = ms.drop_first();
        lemma_joined_take_step(d, i - 1);
        assert(t1.first() == ms[0]);
        assert(t1.drop_first() =~= d.take(i));
        assert(t0.first() == ms[0]);
        assert(t0.drop_first() =~= d.take(i - 1));
        assert(d[i - 1] == ms[i]);
        assert(t1.len() >= 2);
        assert(t0.len() >= 2);
        let l0 = match_line(ms[0]);
        let a = joined_lines(d.take(i - 1));
        let sep = "\n"@;
        let b = match_line(ms[i]);
        assert(d.take(i).len() >= 1);
        assert(l0 + sep + (a + sep + b) =~= (l0 + sep + a) + sep + b);
    }
}

/// Render one match as a reply line.
fn format_match(m: &SearchMatch) -> (r: String)
    ensures
        r@ == match_line(m@),
{
    let mut s = m.path.clone();
    s.append(":");
    s.append(text::u64_to_string(m.line_number).as_str());
    s.append(":");
    s.append(m.line.as_str());
    s
}

/// Render the newline-joined reply body, as ripgrep prints matches.
pub fn format_matches(ms: &Vec<SearchMatch>) -> (r: String)
    ensures
        r@ == joined_lines(match_models(ms@)),
{
    let ghost mm = match_models(ms@);
    let mut out = String::new();
    let mut i: usize = 0;
    proof {
        assert(mm.len() == ms@.len());
    }
    while i < ms.len()
        invariant
            0 <= i <= ms@.len(),
            mm == match_models(ms@),
            mm.len() == ms@.len(),
            i == 0 ==> out@ == Seq::<char>::empty(),
            i > 0 ==> out@ == joined_lines(mm.take(i as int)),
        decreases ms@.len() - i,
    {
        let ghost pre = out@;
        if i > 0 {
            out.append("\n");
        }
        let line = format_match(&ms[i]);
        out.append(line.as_str());
        proof {
            assert(mm[i as int] == ms@[i as int]@);
            if i == 0 {
                assert(mm.take(1) =~= seq![mm[0]]);
                assert(joined_lines(seq![mm[0]]) == match_line(mm[0]));
                assert(out@ =~= match_line(mm[0]));
            } else {
                lemma_joined_take_step(mm, i as int);
                assert(out@ =~= joined_lines(mm.take(i + 1)));
            }
        }
        i = i + 1;
    }
    proof {
        if ms@.len() == 0 {
            assert(mm.take(0) =~= mm);
            assert(out@ =~= joined_lines(mm));
        } else {
            assert(mm.take(mm.len() as int) =~= mm);
        }
    }
    out
}

/// The error text for a search by an unregistered tenant.
pub fn no_codebase_reply(pid: u32) -> (r: String)
    ensures
        r@ == no_codebase_msg(pid),
{
    let mut s = String::from_str("PID ");
    s.append(text::u64_to_string(pid as u64).as_str());
    s.append(" has no allocated codebase. Call alloc_pid first.");
    s
}

/// The success reply for a registration of `n` files.
pub fn alloc_reply(n: u64) -> (r: Response)
    ensures
        r.response_status == 1,
        r.error is None,
        r.text matches Some(t) && t@ == alloc_text(n as int),
{
    let mut s = String::from_str("Allocated ");
    s.append(text::u64_to_string(n).as_str());
    s.append(" files");
    Response::success(Some(s))
}

/// The failure reply for a registration naming an absent directory.
pub fn missing_root_reply(path: &String) -> (r: Response)
    ensures
        r.response_status == 0,
        r.text is None,
        r.error matches Some(e) && e@ == missing_root_msg(path@),
{
    let mut s = String::from_str("Repository path does not exist: ");
    s.append(path.as_str());
    Response::failure(s)
}

/// The failure reply for a registration whose cache build failed.
pub fn load_failure_reply(err: &String) -> (r: Response)
    ensures
        r.response_status == 0,
        r.text is None,
        r.error matches Some(e) && e@ == load_failure_msg(err@),
{
    let mut s = String::from_str("Failed to load codebase: ");
    s.append(err.as_str());
    Response::failure(s)
}

/// The registry: every tenant's corpus cache, owned by the worker.
pub struct ServiceState {
    tenants: Vec<TenantEntry>,
}

impl View for ServiceState {
    type V = Seq<(u32, CacheModel)>;

    closed spec fn view(&self) -> Seq<(u32, CacheModel)> {
        tenant_models(self.tenants@)
    }
}

impl ServiceState {
    /// An empty registry.
    pub fn new() -> (s: ServiceState)
        ensures
            s@ =~= Seq::<(u32, CacheModel)>::empty(),
            registry_wf(s@),
    {
        let s = ServiceState { tenants: Vec::new() };
        proof {
            assert(tenant_models(s.tenants@) =~= Seq::<(u32, CacheModel)>::empty());
        }
        s
    }

    /// How many tenants are registered.
    pub fn tenant_count(&self) -> (n: usize)
        ensures
            n == self@.len(),
    {
        proof {
            assert(tenant_models(self.tenants@).len() == self.tenants@.len());
        }
        self.tenants.len()
    }

    /// Register `cache` for `pid`, replacing any earlier registration.
    pub fn register_tenant(&mut self, pid: u32, cache: MmapCache)
        requires
            entries_wf(cache@.entries),
            registry_wf(old(self)@),
        ensures
            final(self)@ == without_tenant(old(self)@, pid).push((pid, cache@)),
            registry_wf(final(self)@),
            lookup(final(self)@, pid) == Some(cache@),
            forall|q: u32| q != pid ==> lookup(final(self)@, q) == lookup(old(self)@, q),
    {
        let ghost morig: Seq<(u32, CacheModel)> = tenant_models(self.tenants@);
        let mut i: usize = self.tenants.len();
        proof {
            assert(morig.skip(i as int) =~= Seq::<(u32, CacheModel)>::empty());
            assert(tenant_models(self.tenants@) =~= morig.take(i as int) + without_tenant(
                morig.skip(i as int),
                pid,
            ));
        }
        while i > 0
            invariant
                0 <= i <= morig.len(),
                tenant_models(self.tenants@) == morig.take(i as int) + without_tenant(
                    morig.skip(i as int),
                    pid,
                ),
            decreases i,
        {
            let ghost pre = tenant_models(self.tenants@);
            i = i - 1;
            proof {
                assert(pre.len() == self.tenants@.len());
                assert(morig.take(i + 1).len() == i + 1);
                assert(pre[i as int] == morig[i as int]);
                assert(morig.skip(i as int).first() == morig[i as int]);
                assert(morig.skip(i as int).drop_first() =~= morig.skip(i + 1));
            }
            if self.tenants[i].pid == pid {
                let removed = self.tenants.remove(i);
                proof {
                    assert(tenant_models(self.tenants@) =~= pre.remove(i as int));
                    assert(pre.remove(i as int) =~= morig.take(i as int) + without_tenant(
                        morig.skip(i + 1),
                        pid,
                    ));
                }
            } else {
                proof {
                    assert(morig.take(i + 1) =~= morig.take(i as int) + seq![morig[i as int]]);
                    assert(without_tenant(morig.skip(i as int), pid) =~= seq![morig[i as int]]
                        + without_tenant(morig.skip(i + 1), pid));
                    assert(tenant_models(self.tenants@) =~= morig.take(i as int) + without_tenant(
                        morig.skip(i as int),
                        pid,
                    ));
                }
            }
        }
        proof {
            assert(morig.skip(0) =~= morig);
            assert(morig.take(0) =~= Seq::<(u32, CacheModel)>::empty());
            assert(tenant_models(self.tenants@) =~= without_tenant(morig, pid));
        }
        let ghost collapsed = tenant_models(self.tenants@);
        let entry = TenantEntry { pid, cache };
        self.tenants.push(entry);
        proof {
            assert(tenant_models(self.tenants@) =~= collapsed.push((pid, entry.cache@)));
            lemma_registry_wf_without(morig, pid);
            let w = collapsed.push((pid, entry.cache@));
            assert forall|k: int| 0 <= k < w.len() implies entries_wf(
                (#[trigger] w[k]).1.entries,
            ) by {
                if k < collapsed.len() {
                    assert(w[k] == collapsed[k]);
                }
            }
            lemma_lookup_without(morig, pid, pid);
            lemma_lookup_push(collapsed, (pid, entry.cache@), pid);
            assert forall|q: u32| q != pid implies lookup(tenant_models(self.tenants@), q)
                == lookup(morig, q) by {
                lemma_lookup_without(morig, pid, q);
                lemma_lookup_push(collapsed, (pid, entry.cache@), q);
            }
        }
    }

    /// Evict `pid`: its cache and every mapping in it are dropped.
    pub fn remove_tenant(&mut self, pid: u32)
        requires
            registry_wf(old(self)@),
        ensures
            final(self)@ == without_tenant(old(self)@, pid),
            registry_wf(final(self)@),
            lookup(final(self)@, pid) is None,
            forall|q: u32| q != pid ==> lookup(final(self)@, q) == lookup(old(self)@, q),
    {
        let ghost morig: Seq<(u32, CacheModel)> = tenant_models(self.tenants@);
        let mut i: usize = self.tenants.len();
        proof {
            assert(morig.skip(i as int) =~= Seq::<(u32, CacheModel)>::empty());
            assert(tenant_models(self.tenants@) =~= morig.take(i as int) + without_tenant(
                morig.skip(i as int),
                pid,
            ));
        }
        while i > 0
            invariant
                0 <= i <= morig.len(),
                tenant_models(self.tenants@) == morig.take(i as int) + without_tenant(
                    morig.skip(i as int),
                    pid,
                ),
            decreases i,
        {
            let ghost pre = tenant_models(self.tenants@);
            i = i - 1;
            proof {
                assert(pre.len() == self.tenants@.len());
                assert(morig.take(i + 1).len() == i + 1);
                assert(pre[i as int] == morig[i as int]);
                assert(morig.skip(i as int).first() == morig[i as int]);
                assert(morig.skip(i as int).drop_first() =~= morig.skip(i + 1));
            }
            if self.tenants[i].pid == pid {
                let removed = self.tenants.remove(i);
                proof {
                    assert(tenant_models(self.tenants@) =~= pre.remove(i as int));
                    assert(pre.remove(i as int) =~= morig.take(i as int) + without_tenant(
                        morig.skip(i + 1),
                        pid,
                    ));
                }
            } else {
                proof {
                    assert(morig.take(i + 1) =~= morig.take(i as int) + seq![morig[i as int]]);
                    assert(without_tenant(morig.skip(i as int), pid) =~= seq![morig[i as int]]
                        + without_tenant(morig.skip(i + 1), pid));
                    assert(tenant_models(self.tenants@) =~= morig.take(i as int) + without_tenant(
                        morig.skip(i as int),
                        pid,
                    ));
                }
            }
        }
        proof {
            assert(morig.skip(0) =~= morig);
            assert(morig.take(0) =~= Seq::<(u32, CacheModel)>::empty());
            assert(tenant_models(self.tenants@) =~= without_tenant(morig, pid));
            lemma_registry_wf_without(morig, pid);
            lemma_lookup_without(morig, pid, pid);
            assert forall|q: u32| q != pid implies lookup(tenant_models(self.tenants@), q)
                == lookup(morig, q) by {
                lemma_lookup_without(morig, pid, q);
            }
        }
    }

    /// Handle a search request: an unregistered tenant is refused; for a
    /// registered one the search runs with the default ceiling, and the
    /// reply text is the newline-joined `path:line:content` body, or the
    /// failure names the pattern error.
    pub fn handle_ripgrep(&self, pid: u32, pattern: &String, case_sensitive: bool) -> (r:
        Response)
        ensures
            lookup(self@, pid) is None ==> r.response_status == 0 && r.text is None && r.error
                is Some && r.error->0@ == no_codebase_msg(pid),
            lookup(self@, pid) matches Some(c) ==> (if regex_ok(pattern@, case_sensitive) {
                r.response_status == 1 && r.error is None && r.text is Some && r.text->0@
                    == search_reply_body(c, pattern@, case_sensitive, 1000)
            } else {
                r.response_status == 0 && r.text is None && r.error is Some && r.error->0@
                    == search_failed_msg()
            }),
    {
        let mut k: usize = 0;
        proof {
            assert(tenant_models(self.tenants@).len() == self.tenants@.len());
        }
        while k < self.tenants.len()
            invariant
                0 <= k <= self.tenants@.len(),
                self@.len() == self.tenants@.len(),
                self@ == tenant_models(self.tenants@),
                forall|j: int| 0 <= j < k ==> (#[trigger] self@[j]).0 != pid,
            decreases self.tenants@.len() - k,
        {
            if self.tenants[k].pid == pid {
                proof {
                    assert(self@[k as int] == (self.tenants@[k as int].pid, self.tenants@[
                        k as int].cache@));
                    lemma_lookup_at(self@, pid, k as int);
                }
                let max_results = default_max_results();
                let searched = self.tenants[k].cache.search(pattern, case_sensitive, max_results);
                match searched {
                    Ok(resp) => {
                        let body = format_matches(&resp.matches);
                        return Response::success(Some(body));
                    },
                    Err(err) => {
                        let mut s = String::from_str("Search failed: ");
                        s.append(err.as_str());
                        return Response::failure(s);
                    },
                }
            }
            proof {
                assert(self@[k as int] == (self.tenants@[k as int].pid, self.tenants@[
                    k as int].cache@));
            }
            k = k + 1;
        }
        proof {
            lemma_lookup_none(self@, pid);
        }
        Response::failure(no_codebase_reply(pid))
    }

    /// Apply a change-observer refresh to the tenant's cache; an unknown
    /// tenant is ignored. Failures to open or map are reported for the
    /// caller's log and change nothing else.
    pub fn apply_file_changed(&mut self, pid: u32, path: &String, probe: FileProbe) -> (r: bool)
        requires
            registry_wf(old(self)@),
        ensures
            registry_wf(final(self)@),
            lookup(old(self)@, pid) is None ==> final(self)@ == old(self)@ && r,
            lookup(old(self)@, pid) matches Some(c) ==> reloaded_from(
                c,
                lookup(final(self)@, pid),
                path@,
                probe@,
            ) && (forall|q: u32| q != pid ==> lookup(final(self)@, q) == lookup(old(self)@, q)),
            lookup(old(self)@, pid) is Some ==> (r <==> crate::cache::reload_ok_spec(
                path@,
                probe@,
            )),
    {
        let ghost morig: Seq<(u32, CacheModel)> = tenant_models(self.tenants@);
        let mut k: usize = 0;
        proof {
            assert(morig.len() == self.tenants@.len());
        }
        while k < self.tenants.len()
            invariant
                0 <= k <= self.tenants@.len(),
                morig == old(self)@,
                morig == tenant_models(self.tenants@),
                morig.len() == self.tenants@.len(),
                registry_wf(morig),
                forall|j: int| 0 <= j < k ==> (#[trigger] morig[j]).0 != pid,
            decreases self.tenants@.len() - k,
        {
            proof {
                assert(morig[k as int] == (self.tenants@[k as int].pid, self.tenants@[
                    k as int].cache@));
            }
            if self.tenants[k].pid == pid {
                proof {
                    lemma_lookup_at(morig, pid, k as int);
                    assert(entries_wf(morig[k as int].1.entries));
                }
                let mut entry = self.tenants.remove(k);
                let ghost pre_cache: CacheModel = entry.cache@;
                let outcome = entry.cache.reload_file(path, probe);
                let ghost c2 = entry.cache@;
                self.tenants.insert(k, entry);
                proof {
                    assert(pre_cache == morig[k as int].1);
                    assert(tenant_models(self.tenants@) =~= morig.update(
                        k as int,
                        (pid, c2),
                    ));
                    lemma_lookup_update(morig, k as int, pid, c2, pid);
                    assert forall|q: u32| q != pid implies lookup(
                        tenant_models(self.tenants@),
                        q,
                    ) == lookup(morig, q) by {
                        lemma_lookup_update(morig, k as int, pid, c2, q);
                    }
                    let w = morig.update(k as int, (pid, c2));
                    assert forall|i: int| 0 <= i < w.len() implies entries_wf(
                        (#[trigger] w[i]).1.entries,
                    ) by {
                        if i != k {
                            assert(w[i] == morig[i]);
                        }
                    }
                    let canon0 = choose|cn: Seq<char>|
                        c2 == reload_spec(pre_cache, path@, cn, probe@);
                    lemma_reloaded_intro(
                        pre_cache,
                        lookup(tenant_models(self.tenants@), pid),
                        path@,
                        probe@,
                        canon0,
                    );
                }
                return match outcome {
                    Ok(_) => true,
                    Err(_) => false,
                };
            }
            k = k + 1;
        }
        proof {
            lemma_lookup_none(morig, pid);
        }
        true
    }

    /// Apply a change-observer removal to the tenant's cache; an unknown
    /// tenant is ignored.
    pub fn apply_file_deleted(&mut self, pid: u32, path: &String)
        requires
            registry_wf(old(self)@),
        ensures
            registry_wf(final(self)@),
            lookup(old(self)@, pid) is None ==> final(self)@ == old(self)@,
            lookup(old(self)@, pid) matches Some(c) ==> collapsed_from(
                c,
                lookup(final(self)@, pid),
            ) && (forall|q: u32| q != pid ==> lookup(final(self)@, q) == lookup(old(self)@, q)),
    {
        let ghost morig: Seq<(u32, CacheModel)> = tenant_models(self.tenants@);
        let mut k: usize = 0;
        proof {
            assert(morig.len() == self.tenants@.len());
        }
        while k < self.tenants.len()
            invariant
                0 <= k <= self.tenants@.len(),
                morig == old(self)@,
                morig == tenant_models(self.tenants@),
                morig.len() == self.tenants@.len(),
                registry_wf(morig),
                forall|j: int| 0 <= j < k ==> (#[trigger] morig[j]).0 != pid,
            decreases self.tenants@.len() - k,
        {
            proof {
                assert(morig[k as int] == (self.tenants@[k as int].pid, self.tenants@[
                    k as int].cache@));
            }
            if self.tenants[k].pid == pid {
                proof {
                    lemma_lookup_at(morig, pid, k as int);
                    assert(entries_wf(morig[k as int].1.entries));
                }
                let mut entry = self.tenants.remove(k);
                let ghost pre_cache: CacheModel = entry.cache@;
                entry.cache.remove_file(path);
                let ghost c2 = entry.cache@;
                self.tenants.insert(k, entry);
                proof {
                    assert(pre_cache == morig[k as int].1);
                    assert(tenant_models(self.tenants@) =~= morig.update(
                        k as int,
                        (pid, c2),
                    ));
                    lemma_lookup_update(morig, k as int, pid, c2, pid);
                    assert forall|q: u32| q != pid implies lookup(
                        tenant_models(self.tenants@),
                        q,
                    ) == lookup(morig, q) by {
                        lemma_lookup_update(morig, k as int, pid, c2, q);
                    }
                    let w = morig.update(k as int, (pid, c2));
                    let canon0 = choose|cn: Seq<char>|
                        c2.entries == crate::cache::without_canon(pre_cache.entries, cn);
                    crate::cache::lemma_without_canon(pre_cache.entries, canon0);
                    assert forall|i: int| 0 <= i < w.len() implies entries_wf(
                        (#[trigger] w[i]).1.entries,
                    ) by {
                        if i != k {
                            assert(w[i] == morig[i]);
                        }
                    }
                    assert(c2 =~= (CacheModel {
                        root: pre_cache.root,
                        entries: crate::cache::without_canon(pre_cache.entries, canon0),
                    }));
                    lemma_collapsed_intro(
                        pre_cache,
                        lookup(tenant_models(self.tenants@), pid),
                        canon0,
                    );
                }
                return ;
            }
            k = k + 1;
        }
        proof {
            lemma_lookup_none(morig, pid);
        }
    }
}

/// When index `k` holds the first entry of `pid`, the lookup resolves to
/// its cache.
proof fn lemma_lookup_at(s: Seq<(u32, CacheModel)>, pid: u32, k: int)
    requires
        0 <= k < s.len(),
        s[k].0 == pid,
        forall|j: int| 0 <= j < k ==> (#[trigger] s[j]).0 != pid,
    ensures
        lookup(s, pid) == Some(s[k].1),
    decreases k,
{
    if k > 0 {
        assert forall|j: int| 0 <= j < k - 1 implies (#[trigger] s.drop_first()[j]).0 != pid by {
            assert(s.drop_first()[j] == s[j + 1]);
        }
        assert(s.drop_first()[k - 1] == s[k]);
        lemma_lookup_at(s.drop_first(), pid, k - 1);
    }
}

/// When no entry serves `pid`, the lookup resolves to nobody.
proof fn lemma_lookup_none(s: Seq<(u32, CacheModel)>, pid: u32)
    requires
        forall|j: int| 0 <= j < s.len() ==> (#[trigger] s[j]).0 != pid,
    ensures
        lookup(s, pid) is None,
    decreases s.len(),
{
    if s.len() > 0 {
        assert forall|j: int| 0 <= j < s.drop_first().len() implies (#[trigger] s.drop_first()[
            j]).0 != pid by {
            assert(s.drop_first()[j] == s[j + 1]);
        }
        lemma_lookup_none(s.drop_first(), pid);
    }
}

} // verus!

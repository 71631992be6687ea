//! The change observer's routing core: the watched-roots table, and the
//! translation of raw filesystem events into per-tenant cache commands.
//!
//! The observer owns no cache: it only says which tenant's cache a path
//! belongs to and what should happen to it. Registering the OS-level watch
//! and carrying events over channels is the caller's plumbing.

use crate::paths;
use vstd::prelude::*;

verus! {

/// A raw filesystem event kind, as the OS watcher reports it.
#[derive(Clone, Copy, PartialEq, Eq, Structural, Debug)]
pub enum EventKind {
    Create,
    Modify,
    Remove,
    Other,
}

/// A command for the dispatcher: refresh or drop one file of one tenant.
pub enum ChangeCommand {
    FileChanged { tenant: u32, path: String },
    FileDeleted { tenant: u32, path: String },
}

/// The model of a command.
#[verifier::ext_equal]
pub enum CommandModel {
    FileChanged { tenant: u32, path: Seq<char> },
    FileDeleted { tenant: u32, path: Seq<char> },
}

impl View for ChangeCommand {
    type V = CommandModel;

    open spec fn view(&self) -> CommandModel {
        match self {
            ChangeCommand::FileChanged { tenant, path } => CommandModel::FileChanged {
                tenant: *tenant,
                path: path@,
            },
            ChangeCommand::FileDeleted { tenant, path } => CommandModel::FileDeleted {
                tenant: *tenant,
                path: path@,
            },
        }
    }
}

/// The models of a command list.
pub open spec fn command_models(s: Seq<ChangeCommand>) -> Seq<CommandModel> {
    s.map_values(|c: ChangeCommand| c@)
}

/// The models of the watch table: watched root and owning tenant, in
/// registration order.
pub open spec fn watch_models(s: Seq<(String, u32)>) -> Seq<(Seq<char>, u32)> {
    s.map_values(|w: (String, u32)| (w.0@, w.1))
}

/// The models of an event's path list.
pub open spec fn path_models(s: Seq<String>) -> Seq<Seq<char>> {
    s.map_values(|p: String| p@)
}

/// The tenant owning the first watched root that is a path prefix of `p`.
pub open spec fn route_root(w: Seq<(Seq<char>, u32)>, p: Seq<char>) -> Option<u32>
    decreases w.len(),
{
    if w.len() == 0 {
        None
    } else if paths::is_path_prefix(w.first().0, p) {
        Some(w.first().1)
    } else {
        route_root(w.drop_first(), p)
    }
}

/// The commands one path yields under event kind `kind`: nothing when no
/// watched root covers it, nothing for an unrecognized kind, a refresh for
/// a creation or modification, a drop for a removal.
pub open spec fn commands_for(w: Seq<(Seq<char>, u32)>, kind: EventKind, p: Seq<char>) -> Seq<
    CommandModel,
> {
    match route_root(w, p) {
        None => Seq::<CommandModel>::empty(),
        Some(t) => match kind {
            EventKind::Create => seq![CommandModel::FileChanged { tenant: t, path: p }],
            EventKind::Modify => seq![CommandModel::FileChanged { tenant: t, path: p }],
            EventKind::Remove => seq![CommandModel::FileDeleted { tenant: t, path: p }],
            EventKind::Other => Seq::<CommandModel>::empty(),
        },
    }
}

/// The commands an event yields: those of each carried path, in order.
pub open spec fn route_spec(w: Seq<(Seq<char>, u32)>, kind: EventKind, ps: Seq<Seq<char>>) -> Seq<
    CommandModel,
>
    decreases ps.len(),
{
    if ps.len() == 0 {
        Seq::<CommandModel>::empty()
    } else {
        commands_for(w, kind, ps.first()) + route_spec(w, kind, ps.drop_first())
    }
}

/// `w` without every entry watched for `tenant`.
pub open spec fn without_tenant_watches(s: Seq<(Seq<char>, u32)>, tenant: u32) -> Seq<
    (Seq<char>, u32),
>
    decreases s.len(),
{
    if s.len() == 0 {
        s
    } else if s.first().1 == tenant {
        without_tenant_watches(s.drop_first(), tenant)
    } else {
        seq![s.first()] + without_tenant_watches(s.drop_first(), tenant)
    }
}

/// `w` without every entry for the root `root`.
pub open spec fn without_root(s: Seq<(Seq<char>, u32)>, root: Seq<char>) -> Seq<(Seq<char>, u32)>
    decreases s.len(),
{
    if s.len() == 0 {
        s
    } else if s.first().0 == root {
        without_root(s.drop_first(), root)
    } else {
        seq![s.first()] + without_root(s.drop_first(), root)
    }
}

/// When index `k` holds the first watched root covering `p`, the route
/// resolves to its tenant.
proof fn lemma_route_root_at(w: Seq<(Seq<char>, u32)>, p: Seq<char>, k: int)
    requires
        0 <= k < w.len(),
        paths::is_path_prefix(w[k].0, p),
        forall|j: int| 0 <= j < k ==> !paths::is_path_prefix((#[trigger] w[j]).0, p),
    ensures
        route_root(w, p) == Some(w[k].1),
    decreases k,
{
    if k > 0 {
        assert forall|j: int| 0 <= j < k - 1 implies !paths::is_path_prefix(
            (#[trigger] w.drop_first()[j]).0,
            p,
        ) by {
            assert(w.drop_first()[j] == w[j + 1]);
        }
        lemma_route_root_at(w.drop_first(), p, k - 1);
    }
}

/// When no watched root covers `p`, the route resolves to nobody.
proof fn lemma_route_root_none(w: Seq<(Seq<char>, u32)>, p: Seq<char>)
    requires
        forall|j: int| 0 <= j < w.len() ==> !paths::is_path_prefix((#[trigger] w[j]).0, p),
    ensures
        route_root(w, p) is None,
    decreases w.len(),
{
    if w.len() > 0 {
        assert forall|j: int| 0 <= j < w.drop_first().len() implies !paths::is_path_prefix(
            (#[trigger] w.drop_first()[j]).0,
            p,
        ) by {
            assert(w.drop_first()[j] == w[j + 1]);
        }
        lemma_route_root_none(w.drop_first(), p);
    }
}

/// Routing one more path appends that path's commands.
proof fn lemma_route_take_step(
    w: Seq<(Seq<char>, u32)>,
    kind: EventKind,
    ps: Seq<Seq<char>>,
    i: int,
)
    requires
        0 <= i < ps.len(),
    ensures
        route_spec(w, kind, ps.take(i + 1)) =~= route_spec(w, kind, ps.take(i)) + commands_for(
            w,
            kind,
            ps[i],
        ),
    decreases i,
{
    let t1 = ps.take(i + 1);
    let t0 = ps.take(i);
    if i == 0 {
        assert(t1.first() == ps[0]);
        assert(t1.drop_first() =~= Seq::<Seq<char>>::empty());
        assert(t0 =~= Seq::<Seq<char>>::empty());
        assert(route_spec(w, kind, t1.drop_first()) =~= Seq::<CommandModel>::empty());
    } else {
        let d = ps.drop_first();
        lemma_route_take_step(w, kind, d, i - 1);
        assert(t1.first() == ps[0]);
        assert(t1.drop_first() =~= d.take(i));
        assert(t0.first() == ps[0]);
        assert(t0.drop_first() =~= d.take(i - 1));
        assert(d[i - 1] == ps[i]);
        let c0 = commands_for(w, kind, ps[0]);
        let a = route_spec(w, kind, d.take(i - 1));
        let b = commands_for(w, kind, ps[i]);
        assert(c0 + (a + b) =~= (c0 + a) + b);
    }
}

/// The watched-roots table: which tenant each registered root belongs to.
pub struct WatchSet {
    watches: Vec<(String, u32)>,
}

impl View for WatchSet {
    type V = Seq<(Seq<char>, u32)>;

    closed spec fn view(&self) -> Seq<(Seq<char>, u32)> {
        watch_models(self.watches@)
    }
}

impl WatchSet {
    /// An empty table.
    pub fn new() -> (w: WatchSet)
        ensures
            w@ =~= Seq::<(Seq<char>, u32)>::empty(),
    {
        let w = WatchSet { watches: Vec::new() };
        proof {
            assert(watch_models(w.watches@) =~= Seq::<(Seq<char>, u32)>::empty());
        }
        w
    }

    /// Record that `root` is watched for `tenant`, replacing any earlier
    /// registration of the same root.
    pub fn watch(&mut self, root: String, tenant: u32)
        ensures
            final(self)@ == without_root(old(self)@, root@).push((root@, tenant)),
    {
        let ghost morig: Seq<(Seq<char>, u32)> = watch_models(self.watches@);
        let mut i: usize = self.watches.len();
        proof {
            assert(morig.skip(i as int) =~= Seq::<(Seq<char>, u32)>::empty());
            assert(watch_models(self.watches@) =~= morig.take(i as int) + without_root(
                morig.skip(i as int),
                root@,
            ));
        }
        while i > 0
            invariant
                0 <= i <= morig.len(),
                watch_models(self.watches@) == morig.take(i as int) + without_root(
                    morig.skip(i as int),
                    root@,
                ),
            decreases i,
        {
            let ghost pre = watch_models(self.watches@);
            i = i - 1;
            proof {
                assert(pre.len() == self.watches@.len());
                assert(morig.take(i + 1).len() == i + 1);
                assert(pre[i as int] == morig[i as int]);
                assert(morig.skip(i as int).first() == morig[i as int]);
                assert(morig.skip(i as int).drop_first() =~= morig.skip(i + 1));
            }
            if self.watches[i].0 == root {
                let removed = self.watches.remove(i);
                proof {
                    assert(watch_models(self.watches@) =~= pre.remove(i as int));
                    assert(pre.remove(i as int) =~= morig.take(i as int) + without_root(
                        morig.skip(i + 1),
                        root@,
                    ));
                }
            } else {
                proof {
                    assert(morig.take(i + 1) =~= morig.take(i as int) + seq![morig[i as int]]);
                    assert(without_root(morig.skip(i as int), root@) =~= seq![morig[i as int]]
                        + without_root(morig.skip(i + 1), root@));
                    assert(watch_models(self.watches@) =~= morig.take(i as int) + without_root(
                        morig.skip(i as int),
                        root@,
                    ));
                }
            }
        }
        proof {
            assert(morig.skip(0) =~= morig);
            assert(morig.take(0) =~= Seq::<(Seq<char>, u32)>::empty());
            assert(watch_models(self.watches@) =~= without_root(morig, root@));
        }
        let ghost collapsed = watch_models(self.watches@);
        self.watches.push((root, tenant));
        proof {
            assert(watch_models(self.watches@) =~= collapsed.push((root@, tenant)));
        }
    }

    /// Drop every root watched for `tenant`.
    pub fn unwatch(&mut self, tenant: u32)
        ensures
            final(self)@ == without_tenant_watches(old(self)@, tenant),
    {
        let ghost morig: Seq<(Seq<char>, u32)> = watch_models(self.watches@);
        let mut i: usize = self.watches.len();
        proof {
            assert(morig.skip(i as int) =~= Seq::<(Seq<char>, u32)>::empty());
            assert(watch_models(self.watches@) =~= morig.take(i as int) + without_tenant_watches(
                morig.skip(i as int),
                tenant,
            ));
        }
        while i > 0
            invariant
                0 <= i <= morig.len(),
                watch_models(self.watches@) == morig.take(i as int) + without_tenant_watches(
                    morig.skip(i as int),
                    tenant,
                ),
            decreases i,
        {
            let ghost pre = watch_models(self.watches@);
            i = i - 1;
            proof {
                assert(pre.len() == self.watches@.len());
                assert(morig.take(i + 1).len() == i + 1);
                assert(pre[i as int] == morig[i as int]);
                assert(morig.skip(i as int).first() == morig[i as int]);
                assert(morig.skip(i as int).drop_first() =~= morig.skip(i + 1));
            }
            if self.watches[i].1 == tenant {
                let removed = self.watches.remove(i);
                proof {
                    assert(watch_models(self.watches@) =~= pre.remove(i as int));
                    assert(pre.remove(i as int) =~= morig.take(i as int) + without_tenant_watches(
                        morig.skip(i + 1),
                        tenant,
                    ));
                }
            } else {
                proof {
                    assert(morig.take(i + 1) =~= morig.take(i as int) + seq![morig[i as int]]);
                    assert(without_tenant_watches(morig.skip(i as int), tenant)
                        =~= seq![morig[i as int]] + without_tenant_watches(
                        morig.skip(i + 1),
                        tenant,
                    ));
                    assert(watch_models(self.watches@) =~= morig.take(i as int)
                        + without_tenant_watches(morig.skip(i as int), tenant));
                }
            }
        }
        proof {
            assert(morig.skip(0) =~= morig);
            assert(morig.take(0) =~= Seq::<(Seq<char>, u32)>::empty());
            assert(watch_models(self.watches@) =~= without_tenant_watches(morig, tenant));
        }
    }

    /// Translate one raw event into dispatcher commands: for each carried
    /// path, the first watched root that is a path prefix of it names the
    /// tenant; creations and modifications become refreshes, removals
    /// become drops, anything else is ignored.
    pub fn route(&self, kind: EventKind, ps: &Vec<String>) -> (r: Vec<ChangeCommand>)
        ensures
            command_models(r@) == route_spec(self@, kind, path_models(ps@)),
    {
        let ghost w: Seq<(Seq<char>, u32)> = self@;
        let ghost pm: Seq<Seq<char>> = path_models(ps@);
        let mut out: Vec<ChangeCommand> = Vec::new();
        proof {
            assert(pm.take(0) =~= Seq::<Seq<char>>::empty());
            assert(command_models(out@) =~= route_spec(w, kind, pm.take(0)));
        }
        let mut i: usize = 0;
        while i < ps.len()
            invariant
                0 <= i <= ps@.len(),
                pm == path_models(ps@),
                pm.len() == ps@.len(),
                w == self@,
                command_models(out@) == route_spec(w, kind, pm.take(i as int)),
            decreases ps@.len() - i,
        {
            let ghost pre = command_models(out@);
            let tenant_opt = self.find_tenant(&ps[i]);
            match tenant_opt {
                Some(tenant) => {
                    let is_change = match kind {
                        EventKind::Create => true,
                        EventKind::Modify => true,
                        EventKind::Remove => false,
                        EventKind::Other => false,
                    };
                    let is_remove = match kind {
                        EventKind::Remove => true,
                        _ => false,
                    };
                    if is_change {
                        out.push(ChangeCommand::FileChanged { tenant, path: ps[i].clone() });
                        proof {
                            assert(command_models(out@) =~= pre.push(
                                CommandModel::FileChanged { tenant, path: pm[i as int] },
                            ));
                            assert(commands_for(w, kind, pm[i as int])
                                =~= seq![CommandModel::FileChanged { tenant, path: pm[i as int] }]);
                        }
                    } else if is_remove {
                        out.push(ChangeCommand::FileDeleted { tenant, path: ps[i].clone() });
                        proof {
                            assert(command_models(out@) =~= pre.push(
                                CommandModel::FileDeleted { tenant, path: pm[i as int] },
                            ));
                            assert(commands_for(w, kind, pm[i as int])
                                =~= seq![CommandModel::FileDeleted { tenant, path: pm[i as int] }]);
                        }
                    } else {
                        proof {
                            assert(commands_for(w, kind, pm[i as int]) =~= Seq::<
                                CommandModel,
                            >::empty());
                        }
                    }
                },
                None => {
                    proof {
                        assert(commands_for(w, kind, pm[i as int]) =~= Seq::<
                            CommandModel,
                        >::empty());
                    }
                },
            }
            proof {
                lemma_route_take_step(w, kind, pm, i as int);
                assert(command_models(out@) =~= route_spec(w, kind, pm.take(i + 1)));
            }
            i = i + 1;
        }
        proof {
            assert(pm.take(pm.len() as int) =~= pm);
        }
        out
    }

    /// The tenant of the first watched root covering `p`, if any.
    fn find_tenant(&self, p: &String) -> (r: Option<u32>)
        ensures
            r == route_root(self@, p@),
    {
        let mut k: usize = 0;
        while k < self.watches.len()
            invariant
                0 <= k <= self.watches@.len(),
                self@.len() == self.watches@.len(),
                forall|j: int|
                    0 <= j < k ==> !paths::is_path_prefix((#[trigger] self@[j]).0, p@),
            decreases self.watches@.len() - k,
        {
            if paths::check_path_prefix(self.watches[k].0.as_str(), p.as_str()) {
                proof {
                    assert(self@[k as int].0 == self.watches@[k as int].0@);
                    lemma_route_root_at(self@, p@, k as int);
                }
                return Some(self.watches[k].1);
            }
            proof {
                assert(self@[k as int].0 == self.watches@[k as int].0@);
            }
            k = k + 1;
        }
        proof {
            lemma_route_root_none(self@, p@);
        }
        None
    }
}

} // verus!

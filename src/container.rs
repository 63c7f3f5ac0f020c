use std::sync::Arc;
use vstd::prelude::*;

use crate::key::{KeyView, ServiceKey};

verus! {

/// A factory for one service. It is handed the instances of the binding's
/// dependencies, already resolved and in declared order, and builds the
/// service from them, or reports why it could not.
pub trait Provide<T> {
    fn provide(&self, deps: &Vec<Arc<T>>) -> Result<Arc<T>, String>;
}

/// One entry of the registry: a key, the keys its service depends on, and
/// the provider that builds it.
pub struct Binding<P> {
    pub key: ServiceKey,
    pub deps: Vec<ServiceKey>,
    pub provider: P,
}

impl<P> Binding<P> {
    pub fn new(key: ServiceKey, deps: Vec<ServiceKey>, provider: P) -> (r: Binding<P>)
        ensures
            r.key@ == key@,
            r.deps@ == deps@,
            r.provider == provider,
    {
        Binding { key, deps, provider }
    }

    /// The key and the dependency keys, as plain values.
    pub open spec fn shape(&self) -> (KeyView, Seq<KeyView>) {
        (self.key@, key_views(self.deps@))
    }
}

pub open spec fn key_views(ks: Seq<ServiceKey>) -> Seq<KeyView> {
    ks.map_values(|k: ServiceKey| k@)
}

/// Why a resolution failed.
#[derive(Debug)]
pub enum ResolveError {
    /// The key is bound to no provider.
    UnknownKey(ServiceKey),
    /// The keys from the resolution's root to a key met again while it was
    /// still being resolved.
    CycleDetected(Vec<ServiceKey>),
    /// The provider of the key failed, for the reason given.
    ProviderFailed(ServiceKey, String),
}


/// Why a container could not be built.
#[derive(Debug)]
pub enum BuildError {
    /// Two bindings share this key.
    DuplicateBinding(ServiceKey),
}

/// Registry of bindings and cache of the instances built so far.
pub struct Container<T, P> {
    registry: Vec<Binding<P>>,
    cache: Vec<Option<Arc<T>>>,
    /// Order in which the cached instances were built.
    stamps: Ghost<Seq<nat>>,
    next_stamp: Ghost<nat>,
    /// Every provider invocation so far: the binding's index, the instances
    /// handed to the provider, and whether it succeeded.
    log: Ghost<Seq<(int, Seq<Arc<T>>, bool)>>,
}

/// Relies on Arc::clone: the copy points to the same value.
#[verifier::external_body]
fn share<T>(a: &Arc<T>) -> (r: Arc<T>)
    ensures
        r == *a,
{
    Arc::clone(a)
}

pub open spec fn keys_unique(ks: Seq<KeyView>) -> bool {
    forall|i: int, j: int| 0 <= i < ks.len() && 0 <= j < ks.len() && i != j ==> ks[i] != ks[j]
}

/// `ks` is a chain of dependencies: each key depends on the next.
pub open spec fn is_dependency_walk(g: Seq<(KeyView, Seq<KeyView>)>, ks: Seq<KeyView>) -> bool {
    forall|k: int| 0 <= k < ks.len() - 1 ==> #[trigger] depends_on(g, ks[k], ks[k + 1])
}

/// In the graph `g`, the service under `a` depends on `b`.
pub open spec fn depends_on(g: Seq<(KeyView, Seq<KeyView>)>, a: KeyView, b: KeyView) -> bool {
    exists|i: int| 0 <= i < g.len() && g[i].0 == a && #[trigger] g[i].1.contains(b)
}

/// Following dependencies from `a` leads to `b` (or `a` is `b`).
pub open spec fn reaches(g: Seq<(KeyView, Seq<KeyView>)>, a: KeyView, b: KeyView) -> bool {
    exists|ks: Seq<KeyView>| ks.len() >= 1 && ks[0] == a && ks.last() == b && #[trigger] is_dependency_walk(g, ks)
}

/// `ks` reports a cycle met when resolving `root`: a chain of dependencies
/// from `root` whose last key stands earlier in it too.
pub open spec fn is_cycle_report(g: Seq<(KeyView, Seq<KeyView>)>, root: KeyView, ks: Seq<KeyView>) -> bool {
    &&& ks.len() >= 2
    &&& ks[0] == root
    &&& ks.drop_last().contains(ks.last())
    &&& is_dependency_walk(g, ks)
}

/// A path of distinct positions below `n`, extended by one more position
/// not on it, is at most `n` long.
proof fn lemma_path_fits(path: Seq<usize>, i: usize, n: nat)
    requires
        path.no_duplicates(),
        forall|k: int| 0 <= k < path.len() ==> (#[trigger] path[k]) < n,
        forall|k: int| 0 <= k < path.len() ==> path[k] != i,
        i < n,
    ensures
        path.len() + 1 <= n,
{
    let si = path.push(i).map_values(|x: usize| x as int);
    assert(si.no_duplicates()) by {
        assert forall|a: int, b: int| 0 <= a < si.len() && 0 <= b < si.len() && a != b implies si[a] != si[b] by {
            if b == path.len() {
                assert(path[a] != i);
            } else if a == path.len() {
                assert(path[b] != i);
            } else {
                assert(path[a] != path[b]);
            }
        }
    }
    si.unique_seq_to_set();
    let range = vstd::set_lib::set_int_range(0, n as int);
    vstd::set_lib::lemma_int_range(0, n as int);
    assert(si.to_set().subset_of(range)) by {
        assert forall|v: int| si.to_set().contains(v) implies range.contains(v) by {
            let w = choose|w: int| 0 <= w < si.len() && si[w] == v;
            if w < path.len() {
                assert(path[w] < n);
            }
        }
    }
    vstd::set_lib::lemma_len_subset(si.to_set(), range);
}

impl<T, P: Provide<T>> Container<T, P> {
    /// The registry as plain values: each binding's key and dependency keys.
    pub closed spec fn graph(&self) -> Seq<(KeyView, Seq<KeyView>)> {
        self.registry@.map_values(|b: Binding<P>| b.shape())
    }

    pub open spec fn keys(&self) -> Seq<KeyView> {
        self.graph().map_values(|e: (KeyView, Seq<KeyView>)| e.0)
    }

    pub open spec fn registered(&self, k: KeyView) -> bool {
        exists|i: int| 0 <= i < self.graph().len() && self.graph()[i].0 == k
    }

    pub open spec fn slot(&self, k: KeyView) -> int {
        choose|i: int| 0 <= i < self.graph().len() && self.graph()[i].0 == k
    }

    /// The cached instance of each binding, by position.
    pub closed spec fn instances(&self) -> Seq<Option<Arc<T>>> {
        self.cache@
    }

    /// The cached instance under `k`, if any.
    pub open spec fn instance(&self, k: KeyView) -> Option<Arc<T>> {
        if self.registered(k) {
            self.instances()[self.slot(k)]
        } else {
            None
        }
    }

    /// Every provider invocation so far: the binding's position, the
    /// instances handed to its provider, and whether it succeeded.
    pub closed spec fn invocations(&self) -> Seq<(int, Seq<Arc<T>>, bool)> {
        self.log@
    }

    pub closed spec fn wf(&self) -> bool {
        &&& self.cache@.len() == self.registry@.len()
        &&& self.stamps@.len() == self.registry@.len()
        &&& self.inv()
    }

    /// Keys are unique; the cached instances are closed under dependencies
    /// and were built after their dependencies; each binding's provider
    /// succeeded at most once, and only for cached bindings.
    #[verifier::opaque]
    closed spec fn inv(&self) -> bool {
        &&& keys_unique(self.keys())
        &&& forall|i: int| 0 <= i < self.cache@.len() && (#[trigger] self.cache@[i]).is_some()
            ==> self.stamps@[i] < self.next_stamp@
        &&& forall|i: int, d: int|
            0 <= i < self.cache@.len() && self.cache@[i].is_some() && 0 <= d < self.graph()[i].1.len()
            ==> self.registered(#[trigger] self.graph()[i].1[d])
        &&& forall|i: int, d: int, j: int|
            0 <= i < self.cache@.len() && self.cache@[i].is_some() && 0 <= d < self.graph()[i].1.len()
            && 0 <= j < self.cache@.len() && #[trigger] self.graph()[i].1[d] == #[trigger] self.keys()[j]
            ==> self.cache@[j].is_some() && self.stamps@[j] < self.stamps@[i]
        &&& forall|a: int| 0 <= a < self.log@.len() && (#[trigger] self.log@[a]).2
            ==> 0 <= self.log@[a].0 < self.cache@.len() && self.cache@[self.log@[a].0].is_some()
        &&& forall|a: int, b: int| 0 <= a < b < self.log@.len() && (#[trigger] self.log@[a]).2
            && (#[trigger] self.log@[b]).2 ==> self.log@[a].0 != self.log@[b].0
        &&& forall|a: int| 0 <= a < self.log@.len() ==> self.inputs_cached(#[trigger] self.log@[a])
    }

    /// The binding of invocation `e` exists, and what its provider was handed
    /// are the cached instances of its dependencies, in declared order.
    closed spec fn inputs_cached(&self, e: (int, Seq<Arc<T>>, bool)) -> bool {
        &&& 0 <= e.0 < self.registry@.len()
        &&& e.1.len() == self.graph()[e.0].1.len()
        &&& forall|d: int| 0 <= d < e.1.len() ==> self.registered(#[trigger] self.graph()[e.0].1[d])
        &&& forall|d: int, j: int| 0 <= d < e.1.len() && 0 <= j < self.cache@.len()
            && #[trigger] self.graph()[e.0].1[d] == #[trigger] self.keys()[j] ==> self.cache@[j] == Some(e.1[d])
    }

    /// What the provider of invocation `e` was handed: for each dependency
    /// key of its binding, in declared order, the instance now cached under
    /// that key.
    pub open spec fn handed_dependencies(&self, e: (int, Seq<Arc<T>>, bool)) -> bool {
        &&& 0 <= e.0 < self.graph().len()
        &&& e.1.len() == self.graph()[e.0].1.len()
        &&& forall|d: int| 0 <= d < e.1.len() ==> #[trigger] self.instance(self.graph()[e.0].1[d]) == Some(e.1[d])
    }

    /// The key of the outermost binding on `path`, or of `i` if `path` is
    /// empty.
    spec fn path_root(&self, path: Seq<usize>, i: int) -> KeyView {
        if path.len() > 0 {
            self.graph()[path[0] as int].0
        } else {
            self.graph()[i].0
        }
    }

    /// The positions on `path` are pairwise distinct, unresolved, and form,
    /// followed by `i`, a chain of dependencies.
    spec fn path_ok(&self, path: Seq<usize>, i: int) -> bool {
        &&& path.no_duplicates()
        &&& forall|k: int| 0 <= k < path.len() ==> (#[trigger] path[k]) < self.registry@.len()
        &&& forall|k: int| 0 <= k < path.len() ==> self.cache@[#[trigger] path[k] as int].is_none()
        &&& forall|k: int| 0 <= k < path.len() ==> self.graph()[#[trigger] path[k] as int].1.contains(
            self.graph()[if k + 1 < path.len() { path[k + 1] as int } else { i }].0)
    }

    /// Builds a container from its bindings; fails when two bindings share a
    /// key.
    pub fn new(bindings: Vec<Binding<P>>) -> (r: Result<Container<T, P>, BuildError>)
        ensures
            keys_unique(bindings@.map_values(|b: Binding<P>| b.key@)) <==> r is Ok,
            r matches Ok(c) ==> {
                &&& c.wf()
                &&& c.graph() == bindings@.map_values(|b: Binding<P>| b.shape())
                &&& forall|x: int| 0 <= x < c.instances().len() ==> (#[trigger] c.instances()[x]).is_none()
                &&& c.invocations().len() == 0
            },
            r matches Err(BuildError::DuplicateBinding(k)) ==> exists|a: int, b: int|
                0 <= a < b < bindings@.len() && (#[trigger] bindings@[a]).key@ == k@ && (#[trigger] bindings@[b]).key@ == k@,
    {
        let ghost ks = bindings@.map_values(|b: Binding<P>| b.key@);
        let n = bindings.len();
        let mut j: usize = 0;
        while j < n
            invariant
                n == bindings@.len(),
                j <= n,
                ks == bindings@.map_values(|b: Binding<P>| b.key@),
                keys_unique(ks.take(j as int)),
            decreases n - j,
        {
            let mut a: usize = 0;
            while a < j
                invariant
                    n == bindings@.len(),
                    a <= j < n,
                    ks == bindings@.map_values(|b: Binding<P>| b.key@),
                    keys_unique(ks.take(j as int)),
                    forall|x: int| 0 <= x < a ==> ks[x] != ks[j as int],
                decreases j - a,
            {
                if bindings[a].key.same_as(&bindings[j].key) {
                    let k = bindings[j].key.clone_key();
                    proof {
                        assert(bindings@[a as int].key@ == k@ && bindings@[j as int].key@ == k@);
                        assert(!keys_unique(ks)) by {
                            assert(ks[a as int] == ks[j as int]);
                        }
                    }
                    return Err(BuildError::DuplicateBinding(k));
                }
                a += 1;
            }
            proof {
                let t = ks.take(j as int + 1);
                assert forall|x: int, y: int| 0 <= x < t.len() && 0 <= y < t.len() && x != y implies t[x] != t[y] by {
                    if x < j && y < j {
                        assert(ks.take(j as int)[x] == t[x] && ks.take(j as int)[y] == t[y]);
                    }
                }
            }
            j += 1;
        }
        assert(ks.take(n as int) =~= ks);
        let mut cache: Vec<Option<Arc<T>>> = Vec::new();
        let mut c: usize = 0;
        while c < n
            invariant
                c <= n,
                cache@.len() == c,
                forall|x: int| 0 <= x < c ==> (#[trigger] cache@[x]).is_none(),
            decreases n - c,
        {
            cache.push(None);
            c += 1;
        }
        let r = Container {
            registry: bindings,
            cache,
            stamps: Ghost(Seq::new(n as nat, |x: int| 0nat)),
            next_stamp: Ghost(0),
            log: Ghost(Seq::empty()),
        };
        proof {
            assert(r.keys() =~= ks);
            reveal(Container::inv);
        }
        Ok(r)
    }

    /// Position of the binding under `key`, if there is one.
    fn index_of(&self, key: &ServiceKey) -> (r: Option<usize>)
        requires
            self.wf(),
        ensures
            r matches Some(i) ==> i < self.registry@.len() && self.graph()[i as int].0 == key@ && self.slot(key@) == i,
            r is None ==> !self.registered(key@),
    {
        proof {
            reveal(Container::inv);
        }
        let n = self.registry.len();
        let mut i: usize = 0;
        while i < n
            invariant
                self.wf(),
                keys_unique(self.keys()),
                n == self.registry@.len(),
                i <= n,
                forall|x: int| 0 <= x < i ==> self.graph()[x].0 != key@,
            decreases n - i,
        {
            if self.registry[i].key.same_as(key) {
                proof {
                    self.lemma_slot(i as int);
                }
                return Some(i);
            }
            i += 1;
        }
        None
    }

    /// The keys at the positions of `path`, then the key at `i`, which
    /// stands on `path` at `k`.
    fn cycle_report(&self, path: &Vec<usize>, i: usize, k: Ghost<int>) -> (r: Vec<ServiceKey>)
        requires
            self.wf(),
            i < self.registry@.len(),
            self.cache@[i as int].is_none(),
            self.path_ok(path@, i as int),
            0 <= k@ < path@.len(),
            path@[k@] == i,
        ensures
            ({
                let ks = key_views(r@);
                &&& ks.len() >= 2
                &&& ks.len() == path@.len() + 1
                &&& forall|m: int| 0 <= m < path@.len() ==> ks[m] == self.graph()[#[trigger] path@[m] as int].0
                &&& ks[path@.len() as int] == self.graph()[i as int].0
                &&& ks.drop_last().contains(ks.last())
                &&& is_dependency_walk(self.graph(), ks)
                &&& forall|m: int, x: int| 0 <= m < ks.len() && 0 <= x < self.cache@.len()
                    && #[trigger] ks[m] == #[trigger] self.graph()[x].0 ==> self.cache@[x].is_none()
            }),
    {
        proof {
            reveal(Container::inv);
        }
        let ghost g = self.graph();
        let mut report: Vec<ServiceKey> = Vec::new();
        let mut m: usize = 0;
        while m < path.len()
            invariant
                g == self.graph(),
                self.path_ok(path@, i as int),
                m <= path@.len(),
                report@.len() == m,
                forall|x: int| 0 <= x < m ==> (#[trigger] report@[x])@ == g[path@[x] as int].0,
            decreases path@.len() - m,
        {
            assert(self.registry@[path@[m as int] as int].key@ == g[path@[m as int] as int].0);
            report.push(self.registry[path[m]].key.clone_key());
            m += 1;
        }
        assert(self.registry@[i as int].key@ == g[i as int].0);
        report.push(self.registry[i].key.clone_key());
        proof {
            let ks = key_views(report@);
            let full = path@.push(i);
            assert forall|x: int| 0 <= x < ks.len() implies ks[x] == g[full[x] as int].0 by {}
            assert(ks.drop_last()[k@] == ks.last());
            assert forall|x: int| 0 <= x < ks.len() - 1 implies #[trigger] depends_on(g, ks[x], ks[x + 1]) by {
                assert(g[path@[x] as int].1.contains(ks[x + 1]));
            }
            assert forall|x2: int, y: int| 0 <= x2 < ks.len() && 0 <= y < self.cache@.len()
                && #[trigger] ks[x2] == #[trigger] g[y].0 implies self.cache@[y].is_none() by {
                assert(self.keys()[y] == g[y].0);
                assert(self.keys()[full[x2] as int] == g[full[x2] as int].0);
            }
        }
        report
    }

    /// Records that the provider at `i` was handed `args` and failed.
    fn record_failure(&mut self, i: usize, args: Ghost<Seq<Arc<T>>>)
        requires
            old(self).wf(),
            i < old(self).registry@.len(),
            old(self).inputs_cached((i as int, args@, false)),
        ensures
            final(self).wf(),
            final(self).registry == old(self).registry,
            final(self).cache@ == old(self).cache@,
            final(self).stamps@ == old(self).stamps@,
            final(self).next_stamp@ == old(self).next_stamp@,
            final(self).log@ == old(self).log@.push((i as int, args@, false)),
    {
        proof {
            let ghost s3 = *self;
            self.log@ = self.log@.push((i as int, args@, false));
            assert(self.inv()) by {
                reveal(Container::inv);
                assert forall|a: int| 0 <= a < self.log@.len() && (#[trigger] self.log@[a]).2
                    implies 0 <= self.log@[a].0 < self.cache@.len() && self.cache@[self.log@[a].0].is_some() by {
                    assert(s3.log@[a] == self.log@[a]);
                }
                assert forall|a: int, b: int| 0 <= a < b < self.log@.len() && (#[trigger] self.log@[a]).2
                    && (#[trigger] self.log@[b]).2 implies self.log@[a].0 != self.log@[b].0 by {
                    assert(s3.log@[a] == self.log@[a]);
                    assert(s3.log@[b] == self.log@[b]);
                }
                assert forall|a: int| 0 <= a < self.log@.len() implies self.inputs_cached(#[trigger] self.log@[a]) by {
                    if a < s3.log@.len() {
                        assert(s3.log@[a] == self.log@[a]);
                        assert(s3.inputs_cached(s3.log@[a]));
                    }
                }
            }
        }
    }

    /// Caches `inst` as the instance at `i`, built from `args`, the cached
    /// instances of its dependencies.
    fn store(&mut self, i: usize, inst: Arc<T>, args: Ghost<Seq<Arc<T>>>)
        requires
            old(self).wf(),
            i < old(self).registry@.len(),
            old(self).cache@[i as int].is_none(),
            old(self).inputs_cached((i as int, args@, true)),
            forall|dd: int, j: int| 0 <= dd < old(self).graph()[i as int].1.len() && 0 <= j < old(self).cache@.len()
                && #[trigger] old(self).graph()[i as int].1[dd] == #[trigger] old(self).keys()[j]
                ==> old(self).stamps@[j] < old(self).next_stamp@,
        ensures
            final(self).wf(),
            final(self).registry == old(self).registry,
            final(self).cache@ == old(self).cache@.update(i as int, Some(inst)),
            final(self).next_stamp@ == old(self).next_stamp@ + 1,
            forall|x: int| 0 <= x < old(self).stamps@.len() && x != i ==> final(self).stamps@[x] == old(self).stamps@[x],
            final(self).log@ == old(self).log@.push((i as int, args@, true)),
    {
        let ghost s2 = *self;
        self.cache.set(i, Some(inst));
        proof {
            reveal(Container::inv);
            self.stamps@ = self.stamps@.update(i as int, self.next_stamp@);
            self.next_stamp@ = self.next_stamp@ + 1;
            self.log@ = self.log@.push((i as int, args@, true));
            assert(self.graph() == s2.graph());
            assert(self.keys() == s2.keys());
            assert forall|x: int, dd: int, jj: int|
                0 <= x < self.cache@.len() && self.cache@[x].is_some() && 0 <= dd < self.graph()[x].1.len()
                && 0 <= jj < self.cache@.len() && #[trigger] self.graph()[x].1[dd] == #[trigger] self.keys()[jj]
                implies self.cache@[jj].is_some() && self.stamps@[jj] < self.stamps@[x] by {
                if x == i {
                    assert(s2.inputs_cached((i as int, args@, true)));
                    assert(s2.cache@[jj].is_some());
                } else {
                    assert(s2.cache@[x].is_some());
                    assert(s2.cache@[jj].is_some());
                }
            }
            assert forall|x: int, dd: int|
                0 <= x < self.cache@.len() && self.cache@[x].is_some() && 0 <= dd < self.graph()[x].1.len()
                implies self.registered(#[trigger] self.graph()[x].1[dd]) by {
                if x != i {
                    assert(s2.cache@[x].is_some());
                    assert(s2.registered(self.graph()[x].1[dd]));
                } else {
                    assert(s2.inputs_cached((i as int, args@, true)));
                    assert(s2.registered(self.graph()[x].1[dd]));
                }
            }
            assert forall|a: int| 0 <= a < self.log@.len() implies self.inputs_cached(#[trigger] self.log@[a]) by {
                let e = self.log@[a];
                if a < s2.log@.len() {
                    assert(s2.log@[a] == e);
                    assert(s2.inputs_cached(e));
                } else {
                    assert(s2.inputs_cached(e));
                }
                assert forall|d: int, j: int| 0 <= d < e.1.len() && 0 <= j < self.cache@.len()
                    && #[trigger] self.graph()[e.0].1[d] == #[trigger] self.keys()[j] implies self.cache@[j] == Some(e.1[d]) by {
                    assert(s2.cache@[j] == Some(e.1[d]));
                }
            }
            assert forall|a: int| 0 <= a < self.log@.len() && (#[trigger] self.log@[a]).2
                implies 0 <= self.log@[a].0 < self.cache@.len() && self.cache@[self.log@[a].0].is_some() by {
                if a < s2.log@.len() {
                    assert(s2.log@[a] == self.log@[a]);
                }
            }
            assert forall|a: int, b: int| 0 <= a < b < self.log@.len() && (#[trigger] self.log@[a]).2
                && (#[trigger] self.log@[b]).2 implies self.log@[a].0 != self.log@[b].0 by {
                assert(s2.log@[a] == self.log@[a]);
                if b < s2.log@.len() {
                    assert(s2.log@[b] == self.log@[b]);
                }
            }
        }
    }

    /// Position of the `d`-th dependency of the binding at `i`.
    fn dep_index(&self, i: usize, d: usize) -> (r: Result<usize, ResolveError>)
        requires
            self.wf(),
            i < self.registry@.len(),
            d < self.graph()[i as int].1.len(),
        ensures
            r matches Ok(j) ==> j < self.registry@.len() && self.graph()[j as int].0 == self.graph()[i as int].1[d as int],
            r matches Err(ResolveError::UnknownKey(k)) ==> k@ == self.graph()[i as int].1[d as int]
                && !self.registered(k@),
            r is Err ==> r matches Err(ResolveError::UnknownKey(_)),
    {
        assert(self.graph()[i as int].1[d as int] == self.registry@[i as int].deps@[d as int]@);
        match self.index_of(&self.registry[i].deps[d]) {
            Some(j) => Ok(j),
            None => Err(ResolveError::UnknownKey(self.registry[i].deps[d].clone_key())),
        }
    }

    proof fn lemma_path_reaches(&self, path: Seq<usize>, i: usize)
        requires
            self.path_ok(path, i as int),
            i < self.registry@.len(),
        ensures
            reaches(self.graph(), self.path_root(path, i as int), self.graph()[i as int].0),
    {
        let g = self.graph();
        let full = path.push(i);
        let ks = full.map_values(|x: usize| g[x as int].0);
        assert forall|x: int| 0 <= x < ks.len() - 1 implies #[trigger] depends_on(g, ks[x], ks[x + 1]) by {
            assert(full[x] == path[x]);
            assert(g[path[x] as int].1.contains(ks[x + 1]));
        }
        assert(ks[0] == self.path_root(path, i as int));
        assert(ks.last() == g[i as int].0);
        assert(is_dependency_walk(g, ks));
    }

    proof fn lemma_path_extend(&self, path0: Seq<usize>, i: usize, j: int, d: int)
        requires
            self.path_ok(path0, i as int),
            i < self.registry@.len(),
            self.cache@[i as int].is_none(),
            forall|m: int| 0 <= m < path0.len() ==> path0[m] != i,
            0 <= d < self.graph()[i as int].1.len(),
            0 <= j < self.registry@.len(),
            self.graph()[j].0 == self.graph()[i as int].1[d],
        ensures
            self.path_ok(path0.push(i), j),
    {
        let path = path0.push(i);
        assert(path.no_duplicates()) by {
            assert forall|a: int, b: int| 0 <= a < path.len() && 0 <= b < path.len() && a != b
                implies path[a] != path[b] by {
                if b == path0.len() {
                    assert(path0[a] != i);
                } else if a == path0.len() {
                    assert(path0[b] != i);
                } else {
                    assert(path0[a] != path0[b]);
                }
            }
        }
        assert forall|m: int| 0 <= m < path.len() implies (#[trigger] path[m]) < self.registry@.len() by {
            if m < path0.len() {
                assert(path0[m] < self.registry@.len());
            }
        }
        assert forall|m: int| 0 <= m < path.len() implies self.cache@[#[trigger] path[m] as int].is_none() by {
            if m < path0.len() {
                assert(self.cache@[path0[m] as int].is_none());
            }
        }
        assert forall|m: int| 0 <= m < path.len() implies self.graph()[#[trigger] path[m] as int].1.contains(
            self.graph()[if m + 1 < path.len() { path[m + 1] as int } else { j }].0) by {
            if m + 1 < path.len() {
                assert(path[m] == path0[m]);
            } else {
                assert(self.graph()[i as int].1[d] == self.graph()[j].0);
            }
        }
    }

    /// Resolves the binding at position `i`, with `path` the positions being
    /// resolved above it, outermost first.
    #[verifier::rlimit(100)]
    fn resolve_index(&mut self, i: usize, path: &mut Vec<usize>) -> (r: Result<Arc<T>, ResolveError>)
        requires
            old(self).wf(),
            i < old(self).registry@.len(),
            old(self).path_ok(old(path)@, i as int),
        ensures
            final(self).wf(),
            final(self).registry == old(self).registry,
            final(path)@ == old(path)@,
            final(self).next_stamp@ >= old(self).next_stamp@,
            forall|x: int| 0 <= x < old(self).cache@.len() && (#[trigger] old(self).cache@[x]).is_some()
                ==> final(self).cache@[x] == old(self).cache@[x] && final(self).stamps@[x] == old(self).stamps@[x],
            forall|k: int| 0 <= k < old(path)@.len() ==> final(self).cache@[#[trigger] old(path)@[k] as int].is_none(),
            old(self).log@.len() <= final(self).log@.len(),
            forall|a: int| 0 <= a < old(self).log@.len() ==> final(self).log@[a] == old(self).log@[a],
            old(self).cache@[i as int] matches Some(h) ==> r == Ok::<Arc<T>, ResolveError>(h) && *final(self) == *old(self),
            r matches Ok(h) ==> final(self).cache@[i as int] == Some(h),
            r is Ok && old(self).cache@[i as int].is_none() ==> final(self).log@.len() > old(self).log@.len()
                && final(self).log@.last().0 == i && final(self).log@.last().2,
            r is Err ==> final(self).cache@[i as int].is_none(),
            r matches Err(ResolveError::UnknownKey(k)) ==> !old(self).registered(k@)
                && exists|x: int| 0 <= x < old(self).graph().len()
                    && reaches(old(self).graph(), old(self).path_root(old(path)@, i as int), old(self).graph()[x].0)
                    && #[trigger] old(self).graph()[x].1.contains(k@),
            r matches Err(ResolveError::CycleDetected(p)) ==> {
                let ks = key_views(p@);
                &&& ks.len() >= 2
                &&& ks.len() >= old(path)@.len() + 1
                &&& forall|k: int| 0 <= k < old(path)@.len() ==> ks[k] == old(self).graph()[#[trigger] old(path)@[k] as int].0
                &&& ks[old(path)@.len() as int] == old(self).graph()[i as int].0
                &&& ks.drop_last().contains(ks.last())
                &&& is_dependency_walk(old(self).graph(), ks)
                &&& forall|m: int, x: int| 0 <= m < ks.len() && 0 <= x < final(self).cache@.len()
                    && #[trigger] ks[m] == #[trigger] old(self).graph()[x].0 ==> final(self).cache@[x].is_none()
            },
            r matches Err(ResolveError::ProviderFailed(k, c)) ==> {
                let e = final(self).log@.last();
                &&& final(self).log@.len() > old(self).log@.len()
                &&& !e.2
                &&& 0 <= e.0 < old(self).graph().len()
                &&& old(self).graph()[e.0].0 == k@
                &&& reaches(old(self).graph(), old(self).path_root(old(path)@, i as int), k@)
            },
        decreases old(self).registry@.len() - old(path)@.len(),
    {
        match &self.cache[i] {
            Some(h) => {
                return Ok(share(h));
            },
            None => {},
        }
        let ghost s0 = *self;
        let ghost path0 = path@;
        let ghost g = self.graph();
        let mut k: usize = 0;
        while k < path.len()
            invariant
                *self == s0,
                s0.wf(),
                i < s0.registry@.len(),
                s0.cache@[i as int].is_none(),
                s0.path_ok(path0, i as int),
                path@ == path0,
                k <= path@.len(),
                forall|m: int| 0 <= m < k ==> path@[m] != i,
            decreases path@.len() - k,
        {
            if path[k] == i {
                let report = self.cycle_report(path, i, Ghost(k as int));
                return Err(ResolveError::CycleDetected(report));
            }
            k += 1;
        }
        proof {
            lemma_path_fits(path0, i, self.registry@.len());
            s0.lemma_path_reaches(path0, i);
        }
        path.push(i);
        let mut args: Vec<Arc<T>> = Vec::new();
        let n = self.registry[i].deps.len();
        let mut d: usize = 0;
        while d < n
            invariant
                self.wf(),
                s0.wf(),
                s0 == *old(self),
                path0 == old(path)@,
                s0.cache@[i as int].is_none(),
                self.registry == s0.registry,
                g == s0.graph(),
                i < s0.registry@.len(),
                s0.path_ok(path0, i as int),
                n == g[i as int].1.len(),
                d <= n,
                path@ == path0.push(i),
                path@.len() < s0.registry@.len() + 1,
                forall|m: int| 0 <= m < path0.len() ==> path0[m] != i,
                self.next_stamp@ >= s0.next_stamp@,
                forall|x: int| 0 <= x < s0.cache@.len() && (#[trigger] s0.cache@[x]).is_some()
                    ==> self.cache@[x] == s0.cache@[x] && self.stamps@[x] == s0.stamps@[x],
                forall|m: int| 0 <= m < path@.len() ==> self.cache@[#[trigger] path@[m] as int].is_none(),
                s0.log@.len() <= self.log@.len(),
                forall|a: int| 0 <= a < s0.log@.len() ==> self.log@[a] == s0.log@[a],
                forall|dd: int| 0 <= dd < d ==> s0.registered(#[trigger] g[i as int].1[dd]),
                args@.len() == d,
                forall|dd: int, j: int| 0 <= dd < d && 0 <= j < self.cache@.len()
                    && #[trigger] g[i as int].1[dd] == #[trigger] self.keys()[j]
                    ==> self.cache@[j] == Some(args@[dd]) && self.stamps@[j] < self.next_stamp@,
                reaches(g, s0.path_root(path0, i as int), g[i as int].0),
            decreases n - d,
        {
            let j = match self.dep_index(i, d) {
                Ok(j) => j,
                Err(e) => {
                    path.pop();
                    proof {
                        assert(g[i as int].1.contains(g[i as int].1[d as int]));
                        assert forall|x: int| 0 <= x < path0.len() implies self.cache@[#[trigger] path0[x] as int].is_none() by {
                            assert(path0.push(i)[x] == path0[x]);
                        }
                    }
                    assert(path@ =~= path0);
                    return Err(e);
                },
            };
            proof {
                s0.lemma_path_extend(path0, i, j as int, d as int);
            }
            let ghost s1 = *self;
            let ghost s1_args = args@;
            match self.resolve_index(j, path) {
                Ok(h) => {
                    args.push(h);
                },
                Err(e) => {
                    path.pop();
                    proof {
                        assert forall|x: int| 0 <= x < path0.len() implies self.cache@[#[trigger] path0[x] as int].is_none() by {
                            assert(path0.push(i)[x] == path0[x]);
                        }
                        assert(s0.path_root(path0.push(i), j as int) == s0.path_root(path0, i as int)) by {
                            assert(path0.push(i)[0] == if path0.len() > 0 { path0[0] } else { i });
                        }
                        assert(s1.graph() == g);
                        if let ResolveError::CycleDetected(p) = &e {
                            let ks = key_views(p@);
                            assert forall|x: int| 0 <= x < path0.len() implies ks[x] == g[#[trigger] path0[x] as int].0 by {
                                assert(path0.push(i)[x] == path0[x]);
                            }
                            assert(ks[path0.len() as int] == g[i as int].0) by {
                                assert(path0.push(i)[path0.len() as int] == i);
                            }
                        }
                    }
                    assert(path@ =~= path0);
                    return Err(e);
                },
            }
            proof {
                assert(self.cache@[j as int].is_some());
                assert forall|dd: int, jj: int| 0 <= dd <= d && 0 <= jj < self.cache@.len()
                    && #[trigger] g[i as int].1[dd] == #[trigger] self.keys()[jj]
                    implies self.cache@[jj] == Some(args@[dd]) && self.stamps@[jj] < self.next_stamp@ by {
                    if dd == d {
                        reveal(Container::inv);
                        assert(self.keys()[j as int] == g[j as int].0);
                        assert(self.keys()[jj] == g[jj].0);
                    } else {
                        assert(s1.keys()[jj] == self.keys()[jj]);
                        assert(s1.cache@[jj].is_some());
                        assert(args@[dd] == s1_args[dd]);
                    }
                }
                assert forall|m: int| 0 <= m < path@.len() implies self.cache@[#[trigger] path@[m] as int].is_none() by {
                    assert(s1.cache@[path@[m] as int].is_none());
                }
                assert(s0.registered(g[i as int].1[d as int])) by {
                    assert(g[j as int].0 == g[i as int].1[d as int]);
                }
            }
            d += 1;
        }
        path.pop();
        proof {
            assert(path@ =~= path0);
        }
        let made = self.registry[i].provider.provide(&args);
        match made {
            Ok(inst) => {
                let out = share(&inst);
                self.store(i, inst, Ghost(args@));
                Ok(out)
            },
            Err(cause) => {
                self.record_failure(i, Ghost(args@));
                proof {
                    assert forall|m: int| 0 <= m < path0.len() implies self.cache@[#[trigger] path0[m] as int].is_none() by {
                        assert(path0.push(i)[m] == path0[m]);
                    }
                    assert(self.registry@[i as int].key@ == g[i as int].0);
                }
                Err(ResolveError::ProviderFailed(self.registry[i].key.clone_key(), cause))
            },
        }
    }

    /// Resolves the service under `key`: the cached instance if there is
    /// one; otherwise its dependencies are resolved in declared order, its
    /// provider builds it from them, and the result is cached. Nothing is
    /// cached for a failed resolution.
    pub fn resolve(&mut self, key: &ServiceKey) -> (r: Result<Arc<T>, ResolveError>)
        requires
            old(self).wf(),
        ensures
            final(self).wf(),
            final(self).graph() == old(self).graph(),
            !old(self).registered(key@) ==> (r matches Err(ResolveError::UnknownKey(k)) && k@ == key@)
                && *final(self) == *old(self),
            old(self).instance(key@) matches Some(h) ==> r == Ok::<Arc<T>, ResolveError>(h)
                && *final(self) == *old(self),
            r matches Ok(h) ==> final(self).instance(key@) == Some(h),
            r is Err ==> final(self).instance(key@).is_none(),
            forall|x: int| 0 <= x < old(self).instances().len() && (#[trigger] old(self).instances()[x]).is_some()
                ==> final(self).instances()[x] == old(self).instances()[x],
            old(self).invocations().len() <= final(self).invocations().len(),
            forall|a: int| 0 <= a < old(self).invocations().len()
                ==> final(self).invocations()[a] == old(self).invocations()[a],
            r is Ok && old(self).instance(key@).is_none() ==>
                final(self).invocations().len() > old(self).invocations().len()
                && final(self).invocations().last().0 == old(self).slot(key@)
                && final(self).invocations().last().2
                && final(self).handed_dependencies(final(self).invocations().last()),
            r matches Err(ResolveError::UnknownKey(k)) ==> !old(self).registered(k@)
                && (k@ == key@ || exists|x: int| 0 <= x < old(self).graph().len()
                    && reaches(old(self).graph(), key@, old(self).graph()[x].0)
                    && #[trigger] old(self).graph()[x].1.contains(k@)),
            r matches Err(ResolveError::CycleDetected(p)) ==> is_cycle_report(old(self).graph(), key@, key_views(p@))
                && forall|m: int| 0 <= m < p@.len() ==> final(self).instance(#[trigger] key_views(p@)[m]).is_none(),
            r matches Err(ResolveError::ProviderFailed(k, c)) ==> {
                let e = final(self).invocations().last();
                &&& old(self).registered(k@)
                &&& reaches(old(self).graph(), key@, k@)
                &&& final(self).invocations().len() > old(self).invocations().len()
                &&& e.0 == old(self).slot(k@)
                &&& !e.2
                &&& final(self).handed_dependencies(e)
                &&& forall|d: KeyView| #[trigger] old(self).graph()[old(self).slot(k@)].1.contains(d)
                    ==> final(self).instance(d).is_some()
            },
    {
        let i = match self.index_of(key) {
            Some(i) => i,
            None => {
                return Err(ResolveError::UnknownKey(key.clone_key()));
            },
        };
        let ghost s0 = *self;
        let ghost g = self.graph();
        let mut path: Vec<usize> = Vec::new();
        proof {
            assert(self.path_ok(path@, i as int));
        }
        let r = self.resolve_index(i, &mut path);
        proof {
            reveal(Container::inv);
            assert(self.graph() == s0.graph());
            if let Err(ResolveError::CycleDetected(p)) = &r {
                let ks = key_views(p@);
                assert forall|m: int| 0 <= m < p@.len() implies self.instance(#[trigger] key_views(p@)[m]).is_none() by {
                    if self.registered(ks[m]) {
                        let x = self.slot(ks[m]);
                        assert(ks[m] == self.graph()[x].0);
                    }
                }
            }
            if let Err(ResolveError::ProviderFailed(k, c)) = &r {
                let e = self.log@.last();
                s0.lemma_slot(e.0);
                assert(self.inputs_cached(self.log@[self.log@.len() - 1]));
                self.lemma_handed(e);
                assert forall|dk: KeyView| #[trigger] s0.graph()[s0.slot(k@)].1.contains(dk)
                    implies self.instance(dk).is_some() by {
                    let dd = choose|dd: int| 0 <= dd < g[e.0].1.len() && g[e.0].1[dd] == dk;
                    assert(self.instance(self.graph()[e.0].1[dd]) == Some(e.1[dd]));
                }
            }
            if r is Ok && s0.instance(key@).is_none() {
                s0.lemma_slot(i as int);
                assert(self.inputs_cached(self.log@[self.log@.len() - 1]));
                self.lemma_handed(self.log@.last());
            }
        }
        r
    }

    /// Whether an instance of the service under `key` is cached.
    pub fn is_resolved(&self, key: &ServiceKey) -> (r: bool)
        requires
            self.wf(),
        ensures
            r == self.instance(key@).is_some(),
    {
        match self.index_of(key) {
            Some(i) => self.cache[i].is_some(),
            None => false,
        }
    }

    /// Single construction: no binding's provider has succeeded twice in a
    /// container's life, and every success left its instance cached.
    pub proof fn lemma_single_construction(&self)
        requires
            self.wf(),
        ensures
            forall|a: int, b: int| 0 <= a < b < self.invocations().len()
                && (#[trigger] self.invocations()[a]).2 && (#[trigger] self.invocations()[b]).2
                ==> self.invocations()[a].0 != self.invocations()[b].0,
            forall|a: int| 0 <= a < self.invocations().len() && (#[trigger] self.invocations()[a]).2
                ==> 0 <= self.invocations()[a].0 < self.instances().len()
                && self.instances()[self.invocations()[a].0].is_some(),
    {
        reveal(Container::inv);
    }

    /// A resolved service's dependencies are all resolved too, so what a
    /// resolved service holds is what resolving its dependencies returns.
    pub proof fn lemma_dependencies_resolved(&self, a: KeyView, b: KeyView)
        requires
            self.wf(),
            self.instance(a).is_some(),
            depends_on(self.graph(), a, b),
        ensures
            self.registered(b),
            self.instance(b).is_some(),
    {
        reveal(Container::inv);
        let x = choose|x: int| 0 <= x < self.graph().len() && self.graph()[x].0 == a && #[trigger] self.graph()[x].1.contains(b);
        self.lemma_slot(x);
        let d = choose|d: int| 0 <= d < self.graph()[x].1.len() && self.graph()[x].1[d] == b;
        assert(self.registered(self.graph()[x].1[d]));
        let y = self.slot(b);
        assert(self.keys()[y] == b);
    }

    proof fn lemma_handed(&self, e: (int, Seq<Arc<T>>, bool))
        requires
            self.wf(),
            self.inputs_cached(e),
        ensures
            self.handed_dependencies(e),
    {
        reveal(Container::inv);
        assert forall|d: int| 0 <= d < e.1.len() implies #[trigger] self.instance(self.graph()[e.0].1[d]) == Some(e.1[d]) by {
            let k = self.graph()[e.0].1[d];
            assert(self.registered(k));
            let j = self.slot(k);
            assert(self.keys()[j] == k);
        }
    }

    /// Every provider was handed, for each dependency key of its binding in
    /// declared order, the instance cached under that key; those instances
    /// stay cached.
    pub proof fn lemma_handed_inputs(&self)
        requires
            self.wf(),
        ensures
            forall|a: int| 0 <= a < self.invocations().len() ==> self.handed_dependencies(#[trigger] self.invocations()[a]),
    {
        reveal(Container::inv);
        assert forall|a: int| 0 <= a < self.invocations().len() implies self.handed_dependencies(#[trigger] self.invocations()[a]) by {
            self.lemma_handed(self.log@[a]);
        }
    }

    proof fn lemma_walk_stamps(&self, ks: Seq<KeyView>, n: int)
        requires
            self.wf(),
            is_dependency_walk(self.graph(), ks),
            0 <= n < ks.len(),
            self.instance(ks[0]).is_some(),
        ensures
            self.registered(ks[n]),
            self.instance(ks[n]).is_some(),
            forall|m: int| 0 <= m < n ==> self.stamps@[self.slot(#[trigger] ks[m])] > self.stamps@[self.slot(ks[n])],
        decreases n,
    {
        if n > 0 {
            self.lemma_walk_stamps(ks, n - 1);
            let k = n - 1;
            assert(depends_on(self.graph(), ks[k], ks[k + 1]));
            assert(k + 1 == n);
            self.lemma_dependencies_resolved(ks[n - 1], ks[n]);
            reveal(Container::inv);
            let x = choose|x: int| 0 <= x < self.graph().len() && self.graph()[x].0 == ks[n - 1]
                && #[trigger] self.graph()[x].1.contains(ks[n]);
            self.lemma_slot(x);
            let d = choose|d: int| 0 <= d < self.graph()[x].1.len() && self.graph()[x].1[d] == ks[n];
            let j = self.slot(ks[n]);
            assert(self.keys()[j] == ks[n]);
            assert(self.stamps@[j] < self.stamps@[x]);
        } else {
            assert(self.registered(ks[0]));
        }
    }

    /// The resolved part of the dependency graph is acyclic: along a chain
    /// of dependencies that starts at a resolved service, no key comes
    /// back.
    pub proof fn lemma_resolved_acyclic(&self, ks: Seq<KeyView>)
        requires
            self.wf(),
            ks.len() >= 1,
            is_dependency_walk(self.graph(), ks),
            self.instance(ks[0]).is_some(),
        ensures
            !ks.drop_last().contains(ks.last()),
    {
        self.lemma_walk_stamps(ks, ks.len() - 1);
        if ks.drop_last().contains(ks.last()) {
            let m = choose|m: int| 0 <= m < ks.drop_last().len() && ks.drop_last()[m] == ks.last();
            assert(ks[m] == ks[ks.len() - 1]);
        }
    }

    proof fn lemma_slot(&self, i: int)
        requires
            keys_unique(self.keys()),
            0 <= i < self.graph().len(),
        ensures
            self.registered(self.graph()[i].0),
            self.slot(self.graph()[i].0) == i,
    {
        let k = self.graph()[i].0;
        assert(self.keys()[i] == k);
        let s = self.slot(k);
        assert(self.keys()[s] == k);
    }
}

} // verus!

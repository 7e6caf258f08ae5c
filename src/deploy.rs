//! Bookkeeping of running functions: their sandbox handles and their proxy routes.
use vstd::prelude::*;

use crate::func::{host_prefix, lemma_split_unique, Key, OwnedKey};
use crate::proxy::ProxyTable;

verus! {

/// Handle of a running sandbox.
pub trait Handle {
    /// Whether the sandboxed process is running.
    fn is_running(&self) -> bool;
}

/// View of a key: name and version.
pub type KeyView = (Seq<char>, Seq<char>);

/// Running functions: one sandbox handle per key, and a route from each one's host prefix to
/// its address.
pub struct Deployments<H> {
    handles: Vec<(OwnedKey, H)>,
    running: Ghost<Set<KeyView>>,
    proxies: ProxyTable,
}

impl<H: Handle> Deployments<H> {
    /// Keys with a handle.
    pub closed spec fn running(&self) -> Set<KeyView> {
        self.running@
    }

    /// Routes from host prefix to address.
    pub closed spec fn routes(&self) -> Map<Seq<char>, Seq<char>> {
        self.proxies@
    }

    /// Handles have distinct keys, which are exactly the running set.
    pub closed spec fn wf(&self) -> bool {
        &&& forall|i: int, j: int|
            #![trigger self.handles@[i], self.handles@[j]]
            0 <= i < self.handles@.len() && 0 <= j < self.handles@.len() && i != j ==> (
            self.handles@[i].0.name@, self.handles@[i].0.version@) != (
            self.handles@[j].0.name@, self.handles@[j].0.version@)
        &&& forall|i: int|
            0 <= i < self.handles@.len() ==> self.running@.contains(
                ((#[trigger] self.handles@[i]).0.name@, self.handles@[i].0.version@),
            )
        &&& forall|k: KeyView|
            self.running@.contains(k) ==> exists|i: int|
                0 <= i < self.handles@.len() && ((#[trigger] self.handles@[i]).0.name@,
                self.handles@[i].0.version@) == k
    }

    /// Nothing is running.
    pub fn new() -> (r: Self)
        ensures
            r.wf(),
            r.running() == Set::<KeyView>::empty(),
            r.routes() == Map::<Seq<char>, Seq<char>>::empty(),
    {
        Deployments { handles: Vec::new(), running: Ghost(Set::empty()), proxies: ProxyTable::new() }
    }

    fn find(&self, key: Key<'_>) -> (r: Option<usize>)
        requires
            self.wf(),
        ensures
            match r {
                Some(i) => i < self.handles@.len() && self.handles@[i as int].0.name@ == key.name@
                    && self.handles@[i as int].0.version@ == key.version@,
                None => !self.running().contains((key.name@, key.version@)),
            },
    {
        let name = key.name.to_owned();
        let version = key.version.to_owned();
        let mut i: usize = 0;
        while i < self.handles.len()
            invariant
                name@ == key.name@,
                version@ == key.version@,
                i <= self.handles@.len(),
                forall|j: int|
                    0 <= j < i ==> ((#[trigger] self.handles@[j]).0.name@,
                    self.handles@[j].0.version@) != (key.name@, key.version@),
            decreases self.handles@.len() - i,
        {
            if self.handles[i].0.name == name && self.handles[i].0.version == version {
                return Some(i);
            }
            i = i + 1;
        }
        None
    }

    /// Records a freshly spawned sandbox for `key`, reached at `authority`.
    ///
    /// If an instance of `key` is already running, nothing changes and the fresh handle is
    /// handed back for the caller to kill.
    pub fn start(&mut self, key: Key<'_>, authority: String, handle: H) -> (r: Result<(), H>)
        requires
            old(self).wf(),
        ensures
            final(self).wf(),
            r is Err <==> old(self).running().contains((key.name@, key.version@)),
            r matches Err(h) ==> h == handle && final(self).running() == old(self).running()
                && final(self).routes() == old(self).routes(),
            r is Ok ==> final(self).running() == old(self).running().insert(
                (key.name@, key.version@),
            ) && final(self).routes() == old(self).routes().insert(
                host_prefix(key.name@, key.version@),
                authority@,
            ),
    {
        if self.find(key).is_some() {
            return Err(handle);
        }
        let ghost k = (key.name@, key.version@);
        let ghost before = self.handles@;
        self.handles.push((key.into_owned(), handle));
        self.running = Ghost(self.running@.insert(k));
        self.proxies.insert(key.to_host_prefix(), authority);
        proof {
            let hs = self.handles@;
            assert(hs[before.len() as int].0.name@ == key.name@);
            assert forall|i: int| 0 <= i < hs.len() implies self.running@.contains(
                ((#[trigger] hs[i]).0.name@, hs[i].0.version@),
            ) by {
                if i < before.len() {
                    assert(hs[i] == before[i]);
                }
            }
            assert forall|q: KeyView| self.running@.contains(q) implies exists|i: int|
                0 <= i < hs.len() && ((#[trigger] hs[i]).0.name@, hs[i].0.version@) == q by {
                if q == k {
                    assert((hs[before.len() as int].0.name@, hs[before.len() as int].0.version@) == q);
                } else {
                    let w = choose|w: int|
                        0 <= w < before.len() && ((#[trigger] before[w]).0.name@,
                        before[w].0.version@) == q;
                    assert(hs[w] == before[w]);
                }
            }
            assert forall|i: int, j: int|
                #![trigger hs[i], hs[j]]
                0 <= i < hs.len() && 0 <= j < hs.len() && i != j implies (hs[i].0.name@,
                hs[i].0.version@) != (hs[j].0.name@, hs[j].0.version@) by {
                let m = before.len() as int;
                if i < m && j < m {
                    assert(hs[i] == before[i] && hs[j] == before[j]);
                } else if i < m {
                    assert(hs[i] == before[i]);
                    assert(old(self).running@.contains((hs[i].0.name@, hs[i].0.version@)));
                } else {
                    assert(hs[j] == before[j]);
                    assert(old(self).running@.contains((hs[j].0.name@, hs[j].0.version@)));
                }
            }
        }
        Ok(())
    }

    /// Forgets the sandbox of `key` and its route, and hands its handle back for the caller to
    /// kill; `None` when `key` is not running.
    pub fn stop(&mut self, key: Key<'_>) -> (r: Option<H>)
        requires
            old(self).wf(),
        ensures
            final(self).wf(),
            r is Some <==> old(self).running().contains((key.name@, key.version@)),
            r is None ==> final(self).running() == old(self).running() && final(self).routes()
                == old(self).routes(),
            r is Some ==> final(self).running() == old(self).running().remove(
                (key.name@, key.version@),
            ) && final(self).routes() == old(self).routes().remove(
                host_prefix(key.name@, key.version@),
            ),
    {
        let i = match self.find(key) {
            None => {
                return None;
            },
            Some(i) => i,
        };
        let ghost k = (key.name@, key.version@);
        let ghost before = self.handles@;
        let (_, h) = self.handles.remove(i);
        self.running = Ghost(self.running@.remove(k));
        self.proxies.remove(key.to_host_prefix().as_str());
        proof {
            let hs = self.handles@;
            assert forall|p: int| 0 <= p < hs.len() implies self.running@.contains(
                ((#[trigger] hs[p]).0.name@, hs[p].0.version@),
            ) by {
                let pp = if p < i { p } else { p + 1 };
                assert(hs[p] == before[pp]);
                assert(pp != i);
            }
            assert forall|q: KeyView| self.running@.contains(q) implies exists|p: int|
                0 <= p < hs.len() && ((#[trigger] hs[p]).0.name@, hs[p].0.version@) == q by {
                let w = choose|w: int|
                    0 <= w < before.len() && ((#[trigger] before[w]).0.name@, before[w].0.version@)
                        == q;
                if w < i {
                    assert(hs[w] == before[w]);
                } else {
                    assert(w != i);
                    assert(hs[w - 1] == before[w]);
                }
            }
            assert forall|p: int, q: int|
                #![trigger hs[p], hs[q]]
                0 <= p < hs.len() && 0 <= q < hs.len() && p != q implies (hs[p].0.name@,
                hs[p].0.version@) != (hs[q].0.name@, hs[q].0.version@) by {
                let pp = if p < i { p } else { p + 1 };
                let qq = if q < i { q } else { q + 1 };
                assert(hs[p] == before[pp] && hs[q] == before[qq]);
            }
        }
        Some(h)
    }

    /// Whether `key` has a handle whose sandbox reports itself running.
    pub fn is_running(&self, key: Key<'_>) -> (r: bool)
        requires
            self.wf(),
        ensures
            r ==> self.running().contains((key.name@, key.version@)),
    {
        match self.find(key) {
            Some(i) => {
                proof {
                    assert(self.running@.contains(
                        (self.handles@[i as int].0.name@, self.handles@[i as int].0.version@),
                    ));
                }
                self.handles[i].1.is_running()
            },
            None => false,
        }
    }

    /// Address of the running function with host prefix `prefix`.
    pub fn route(&self, prefix: &str) -> (r: Option<String>)
        requires
            self.wf(),
        ensures
            match r {
                Some(a) => self.routes().contains_key(prefix@) && self.routes()[prefix@] == a@,
                None => !self.routes().contains_key(prefix@),
            },
    {
        self.proxies.get(prefix)
    }
}

/// Keys whose versions hold no dot have distinct host prefixes.
pub proof fn lemma_host_prefix_injective(a: KeyView, b: KeyView)
    requires
        !a.1.contains('.'),
        !b.1.contains('.'),
        host_prefix(a.0, a.1) == host_prefix(b.0, b.1),
    ensures
        a == b,
{
    lemma_split_unique(a.1, a.0, b.1, b.0, '.');
}

/// Once a function has started, it stays running and routed through any start or stop of
/// another key (keys whose versions hold no dot, as valid keys are).
pub proof fn started_stays_running(
    running: Set<KeyView>,
    routes: Map<Seq<char>, Seq<char>>,
    k: KeyView,
    other: KeyView,
    authority: Seq<char>,
)
    requires
        running.contains(k),
        routes.contains_key(host_prefix(k.0, k.1)),
        other != k,
        !k.1.contains('.'),
        !other.1.contains('.'),
    ensures
        running.insert(other).contains(k),
        routes.insert(host_prefix(other.0, other.1), authority).contains_key(host_prefix(k.0, k.1)),
        running.remove(other).contains(k),
        routes.remove(host_prefix(other.0, other.1)).contains_key(host_prefix(k.0, k.1)),
{
    if host_prefix(other.0, other.1) == host_prefix(k.0, k.1) {
        lemma_host_prefix_injective(other, k);
    }
}

} // verus!

//! Bookkeeping of the solve service's engine pool: warmed engines are handed
//! out one per in-flight solve, each checkout backed by a permit, and every
//! granted permit is matched by an idle engine.

use vstd::prelude::*;

verus! {

/// Proof of a checkout; handing it back through [`EnginePool::checkin`]
/// returns the permit to the pool.
#[derive(Debug)]
pub struct PoolPermit {
    _private: (),
}

/// Idle engines and the permits that guard them.
#[derive(Debug)]
pub struct EnginePool<E> {
    idle: Vec<E>,
    permits: usize,
    out: usize,
}

impl<E> EnginePool<E> {
    /// Every available permit is backed by an idle engine.
    pub closed spec fn wf(&self) -> bool {
        self.permits == self.idle@.len()
    }

    /// Engines waiting in the pool.
    pub closed spec fn idle_count(&self) -> nat {
        self.idle@.len()
    }

    /// The idle engines, the most recently returned last.
    pub closed spec fn idle_engines(&self) -> Seq<E> {
        self.idle@
    }

    /// Engines currently checked out.
    pub closed spec fn out_count(&self) -> nat {
        self.out as nat
    }

    /// Permits available right now.
    pub closed spec fn available(&self) -> nat {
        self.permits as nat
    }

    /// Engines the pool holds, idle or checked out: one per install.
    pub closed spec fn engines(&self) -> nat {
        self.idle@.len() + self.out as nat
    }

    /// An empty pool: checkouts wait until engines are installed.
    pub fn new() -> (p: EnginePool<E>)
        ensures
            p.wf(),
            p.idle_engines() == Seq::<E>::empty(),
            p.idle_count() == 0,
            p.engines() == 0,
            p.out_count() == 0,
            p.available() == 0,
    {
        EnginePool { idle: Vec::new(), permits: 0, out: 0 }
    }

    /// Adds a warmed engine together with its permit.
    pub fn install(&mut self, engine: E)
        requires
            old(self).wf(),
        ensures
            final(self).wf(),
            final(self).idle_engines() == old(self).idle_engines().push(engine),
            final(self).idle_count() == old(self).idle_count() + 1,
            final(self).available() == old(self).available() + 1,
            final(self).engines() == old(self).engines() + 1,
            final(self).out_count() == old(self).out_count(),
    {
        self.idle.push(engine);
        self.permits = self.idle.len();
    }

    /// Takes a permit and an idle engine when a permit is free; `None` means
    /// the caller has to wait for a checkin.
    pub fn try_checkout(&mut self) -> (r: Option<(PoolPermit, E)>)
        requires
            old(self).wf(),
            old(self).out_count() < usize::MAX,
        ensures
            final(self).wf(),
            final(self).engines() == old(self).engines(),
            r is Some <==> old(self).available() > 0,
            r matches Some((_, e)) ==> e == old(self).idle_engines().last() && final(self).idle_engines()
                == old(self).idle_engines().drop_last(),
            r is Some ==> final(self).idle_count() == old(self).idle_count() - 1
                && final(self).out_count() == old(self).out_count() + 1,
            r is None ==> final(self).idle_engines() == old(self).idle_engines() && final(self).out_count()
                == old(self).out_count(),
    {
        if self.permits == 0 {
            return None;
        }
        self.permits = self.permits - 1;
        match self.idle.pop() {
            Some(engine) => {
                self.out = self.out + 1;
                Some((PoolPermit { _private: () }, engine))
            },
            None => {
                proof {
                    assert(false);
                }
                None
            },
        }
    }

    /// Returns an engine (the one taken, or a replacement) with its permit.
    pub fn checkin(&mut self, permit: PoolPermit, engine: E)
        requires
            old(self).wf(),
            old(self).out_count() > 0,
        ensures
            final(self).wf(),
            final(self).idle_engines() == old(self).idle_engines().push(engine),
            final(self).idle_count() == old(self).idle_count() + 1,
            final(self).available() == old(self).available() + 1,
            final(self).engines() == old(self).engines(),
            final(self).out_count() == old(self).out_count() - 1,
    {
        let PoolPermit { _private } = permit;
        self.idle.push(engine);
        self.permits = self.idle.len();
        self.out = self.out - 1;
    }

    /// Number of permits available right now.
    pub fn available_permits(&self) -> (n: usize)
        ensures
            n == self.available(),
    {
        self.permits
    }
}

/// Over any run of installs, checkouts and checkins, the permits free are
/// the installed engines not checked out, so a checkout succeeds exactly
/// while fewer engines are out than were installed.
pub proof fn lemma_checkout_capacity<E>(p: EnginePool<E>)
    requires
        p.wf(),
    ensures
        p.out_count() <= p.engines(),
        p.available() == p.engines() - p.out_count(),
        p.available() > 0 <==> p.out_count() < p.engines(),
{
}

/// A checkout that takes engine `last` from idle engines `idle`, followed by
/// a checkin of that same engine, leaves the idle engines as they were.
pub proof fn lemma_checkout_checkin_restores<E>(idle: Seq<E>, last: E)
    requires
        idle.len() > 0,
        last == idle.last(),
    ensures
        idle.drop_last().push(last) == idle,
{
    assert(idle.drop_last().push(last) =~= idle);
}

} // verus!

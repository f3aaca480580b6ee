use vstd::prelude::*;
use crate::alias::{AliasConflict, SystemState, conflicts_on, no_conflict, shape_records};
use crate::fetch::AccessRecord;
use crate::query::{EntityFetch, Query, World, fetched};

verus! {

/// How a system's callable returns.
#[derive(PartialEq, Eq, Structural, Clone, Copy, Debug)]
pub enum SystemKind {
    /// The callable returns once, synchronously.
    Normal,
    /// The callable hands back a deferred unit of work that an executor drives to completion.
    Async,
}

/// The accesses of the first `n` parameters, in order.
pub open spec fn param_requests(params: Seq<Query>, n: nat) -> Seq<AccessRecord>
    decreases n,
{
    if n == 0 || n > params.len() {
        Seq::empty()
    } else {
        param_requests(params, (n - 1) as nat) + shape_records(params[n - 1].fetch)
    }
}

/// The accesses of every parameter of a system: its validation scope.
pub open spec fn all_requests(params: Seq<Query>) -> Seq<AccessRecord> {
    param_requests(params, params.len())
}

/// What `run_once` decided.
pub enum RunOnce {
    /// Invoke the callable with these arguments, one per parameter.
    Invoke(Vec<Vec<EntityFetch>>),
    /// The previous invocation's deferred work has not completed: nothing was assembled.
    Pending,
}

/// A registered system: its parameters, validated once against each other,
/// its kind, and whether a deferred invocation is still outstanding.
pub struct System {
    params: Vec<Query>,
    kind: SystemKind,
    pending: bool,
}

impl System {
    /// The parameters, in declared order.
    pub closed spec fn params(&self) -> Seq<Query> {
        self.params@
    }

    /// Whether the callable returns at once or hands back deferred work.
    pub closed spec fn kind(&self) -> SystemKind {
        self.kind
    }

    /// A deferred invocation has been handed out and has not completed.
    pub closed spec fn pending(&self) -> bool {
        self.pending
    }

    /// The parameters passed alias validation; only async systems wait.
    pub open spec fn wf(&self) -> bool {
        &&& no_conflict(all_requests(self.params()))
        &&& (self.pending() ==> self.kind() == SystemKind::Async)
    }

    /// Registers a system: every parameter contributes its accesses to one
    /// validation scope, and a conflict refuses the system, naming the type.
    pub fn new(params: Vec<Query>, kind: SystemKind) -> (r: Result<System, AliasConflict>)
        ensures
            r is Ok <==> no_conflict(all_requests(params@)),
            r matches Err(e) ==> conflicts_on(all_requests(params@), e.id),
            r matches Ok(s) ==> s.params() == params@ && s.kind() == kind && !s.pending() && s.wf(),
    {
        let mut state = SystemState::new();
        let mut i: usize = 0;
        while i < params.len()
            invariant
                i <= params@.len(),
                state.records() == param_requests(params@, i as nat),
            decreases params@.len() - i,
        {
            params[i].init(&mut state);
            i = i + 1;
        }
        match state.validate() {
            Ok(()) => Ok(System { params, kind, pending: false }),
            Err(e) => Err(e),
        }
    }

    /// One invocation step. While a deferred invocation is outstanding nothing
    /// is assembled and the system is left as it was. Otherwise each parameter
    /// builds its views from `world`, in order; an async system then waits for
    /// `complete` before its next invocation.
    pub fn run_once(&mut self, world: &World) -> (r: RunOnce)
        requires
            old(self).wf(),
            world.wf(),
        ensures
            final(self).wf(),
            final(self).params() == old(self).params(),
            final(self).kind() == old(self).kind(),
            old(self).pending() ==> r is Pending && final(self).pending(),
            !old(self).pending() ==> r is Invoke,
            r matches RunOnce::Invoke(args) ==> {
                &&& no_conflict(all_requests(old(self).params()))
                &&& !old(self).pending()
                &&& final(self).pending() == (old(self).kind() == SystemKind::Async)
                &&& args@.len() == old(self).params().len()
                &&& forall|p: int|
                    0 <= p < args@.len() ==> (#[trigger] args@[p])@.map_values(
                        |e: EntityFetch| fetched(e),
                    ) == old(self).params()[p].results(world)
            },
    {
        if self.pending {
            return RunOnce::Pending;
        }
        let mut args: Vec<Vec<EntityFetch>> = Vec::new();
        let mut p: usize = 0;
        while p < self.params.len()
            invariant
                p <= self.params@.len(),
                world.wf(),
                args@.len() == p,
                forall|q: int|
                    0 <= q < p ==> (#[trigger] args@[q])@.map_values(|e: EntityFetch| fetched(e))
                        == self.params@[q].results(world),
            decreases self.params@.len() - p,
        {
            let fetched_rows = self.params[p].into_eiter(world);
            args.push(fetched_rows);
            p = p + 1;
        }
        if self.kind == SystemKind::Async {
            self.pending = true;
        }
        RunOnce::Invoke(args)
    }

    /// The deferred work of the last invocation has completed.
    pub fn complete(&mut self)
        requires
            old(self).wf(),
        ensures
            final(self).wf(),
            final(self).params() == old(self).params(),
            final(self).kind() == old(self).kind(),
            !final(self).pending(),
    {
        self.pending = false;
    }

    /// Whether a deferred invocation is outstanding.
    pub fn is_pending(&self) -> (r: bool)
        ensures
            r == self.pending(),
    {
        self.pending
    }
}

} // verus!

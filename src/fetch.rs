use vstd::prelude::*;

verus! {

/// How a requested component is borrowed.
#[derive(PartialEq, Eq, Structural, Clone, Copy, Debug)]
pub enum Access {
    Read,
    Write,
}

/// One requested access: a component type identity and the mode it is borrowed in.
#[derive(PartialEq, Eq, Structural, Clone, Copy, Debug)]
pub struct AccessRecord {
    pub id: u64,
    pub access: Access,
}

/// A requested data shape: one leaf per component type and access mode,
/// and composite nodes that group other shapes in declared order.
#[derive(Debug)]
pub enum Shape {
    Read(u64),
    Write(u64),
    Tuple(Vec<Shape>),
}

/// The accesses that the leaves of `s` ask for, in declared order.
pub open spec fn requests(s: Shape) -> Seq<AccessRecord>
    decreases s, 1nat, 0nat,
{
    match s {
        Shape::Read(id) => seq![AccessRecord { id, access: Access::Read }],
        Shape::Write(id) => seq![AccessRecord { id, access: Access::Write }],
        Shape::Tuple(cs) => requests_prefix(s, cs@.len()),
    }
}

/// The accesses asked for by the first `n` children of the composite shape `s`.
pub open spec fn requests_prefix(s: Shape, n: nat) -> Seq<AccessRecord>
    decreases s, 0nat, n,
{
    match s {
        Shape::Tuple(cs) => if n == 0 || n > cs@.len() {
            Seq::empty()
        } else {
            requests_prefix(s, (n - 1) as nat) + requests(cs@[n - 1])
        },
        _ => Seq::empty(),
    }
}

/// The type identities of a sequence of accesses.
pub open spec fn ids_of(rs: Seq<AccessRecord>) -> Seq<u64> {
    rs.map_values(|r: AccessRecord| r.id)
}

/// The component type identities that the leaves of `s` ask for, in declared order.
pub open spec fn leaves(s: Shape) -> Seq<u64> {
    ids_of(requests(s))
}

/// The type identities of a row's index: strictly increasing, hence sorted and distinct.
pub open spec fn sorted_distinct(ids: Seq<u64>) -> bool {
    forall|i: int, j: int| 0 <= i < j < ids.len() ==> ids[i] < ids[j]
}

/// A shape can be resolved against a row when every leaf type is present
/// and no two leaves claim the same type.
pub open spec fn resolvable(s: Shape, ids: Seq<u64>) -> bool {
    resolvable_seq(leaves(s), ids)
}

/// Every type identity of `ls` is in `ids`, and none is claimed twice.
pub open spec fn resolvable_seq(ls: Seq<u64>, ids: Seq<u64>) -> bool {
    &&& ls.no_duplicates()
    &&& forall|i: int| 0 <= i < ls.len() ==> ids.contains(#[trigger] ls[i])
}

/// A capability handed to a system: the slot of a row holding a component of
/// type `id`, to be borrowed in mode `access` for one invocation.
#[derive(PartialEq, Eq, Structural, Clone, Copy, Debug)]
pub struct ComponentView {
    pub slot: usize,
    pub id: u64,
    pub access: Access,
}

/// The view that a request yields from a row whose index is `ids`.
pub open spec fn view_for(r: AccessRecord, ids: Seq<u64>) -> ComponentView {
    ComponentView { slot: ids.index_of(r.id) as usize, id: r.id, access: r.access }
}

/// The views that a sequence of requests yields from a row whose index is `ids`.
pub open spec fn views_for(rs: Seq<AccessRecord>, ids: Seq<u64>) -> Seq<ComponentView> {
    rs.map_values(|r: AccessRecord| view_for(r, ids))
}

/// The mathematical form of a resolution plan.
pub ghost enum Plan {
    Node(Seq<Plan>),
    Slot(nat),
}

/// A resolution plan: a tree isomorphic to a shape whose leaves are slots of a row.
#[derive(Debug)]
pub enum MappingTable {
    Node(Vec<MappingTable>),
    Mapping(usize),
}

/// The plan that resolving `s` against a row with index `ids` yields.
pub open spec fn plan_of(s: Shape, ids: Seq<u64>) -> Plan
    decreases s, 1nat, 0nat,
{
    match s {
        Shape::Read(id) => Plan::Slot(ids.index_of(id) as nat),
        Shape::Write(id) => Plan::Slot(ids.index_of(id) as nat),
        Shape::Tuple(cs) => Plan::Node(plans_prefix(s, ids, cs@.len())),
    }
}

/// The plans of the first `n` children of the composite shape `s`.
pub open spec fn plans_prefix(s: Shape, ids: Seq<u64>, n: nat) -> Seq<Plan>
    decreases s, 0nat, n,
{
    match s {
        Shape::Tuple(cs) => if n == 0 || n > cs@.len() {
            Seq::empty()
        } else {
            plans_prefix(s, ids, (n - 1) as nat).push(plan_of(cs@[n - 1], ids))
        },
        _ => Seq::empty(),
    }
}

/// The mathematical form of a mapping table.
pub open spec fn plan_view(t: MappingTable) -> Plan
    decreases t, 1nat, 0nat,
{
    match t {
        MappingTable::Mapping(slot) => Plan::Slot(slot as nat),
        MappingTable::Node(ts) => Plan::Node(views_prefix(t, ts@.len())),
    }
}

/// The views of the first `n` children of the node `t`.
pub open spec fn views_prefix(t: MappingTable, n: nat) -> Seq<Plan>
    decreases t, 0nat, n,
{
    match t {
        MappingTable::Node(ts) => if n == 0 || n > ts@.len() {
            Seq::empty()
        } else {
            views_prefix(t, (n - 1) as nat).push(plan_view(ts@[n - 1]))
        },
        _ => Seq::empty(),
    }
}

impl View for MappingTable {
    type V = Plan;

    open spec fn view(&self) -> Plan {
        plan_view(*self)
    }
}

impl MappingTable {
    /// The children of a composite plan, or `None` for a leaf.
    pub fn as_node(&self) -> (r: Option<&Vec<MappingTable>>)
        ensures
            r matches Some(v) <==> self is Node,
            r matches Some(v) ==> *self == MappingTable::Node(*v),
    {
        if let MappingTable::Node(v) = self {
            Some(v)
        } else {
            None
        }
    }

    /// The slot of a leaf plan, or `None` for a composite one.
    pub fn as_mapping(&self) -> (r: Option<&usize>)
        ensures
            r matches Some(v) <==> self is Mapping,
            r matches Some(v) ==> *self == MappingTable::Mapping(*v),
    {
        if let MappingTable::Mapping(v) = self {
            Some(v)
        } else {
            None
        }
    }
}

proof fn lemma_ids_of_concat(a: Seq<AccessRecord>, b: Seq<AccessRecord>)
    ensures
        ids_of(a + b) == ids_of(a) + ids_of(b),
{
    assert(ids_of(a + b) =~= ids_of(a) + ids_of(b));
}

/// Removing one entry of a strictly increasing sequence keeps it strictly
/// increasing and drops exactly that value.
proof fn lemma_remove_sorted(s: Seq<u64>, p: int)
    requires
        sorted_distinct(s),
        0 <= p < s.len(),
    ensures
        sorted_distinct(s.remove(p)),
        forall|x: u64| s.remove(p).contains(x) <==> (s.contains(x) && x != s[p]),
{
    let t = s.remove(p);
    assert forall|x: u64| t.contains(x) <==> (s.contains(x) && x != s[p]) by {
        if t.contains(x) {
            let k = choose|k: int| 0 <= k < t.len() && t[k] == x;
            if k < p {
                assert(s[k] == x);
            } else {
                assert(s[k + 1] == x);
            }
        }
        if s.contains(x) && x != s[p] {
            let k = choose|k: int| 0 <= k < s.len() && s[k] == x;
            if k < p {
                assert(t[k] == x);
            } else {
                assert(t[k - 1] == x);
            }
        }
    }
}

/// In a strictly increasing sequence, the entry found at `p` is the one `index_of` names.
proof fn lemma_index_of_sorted(s: Seq<u64>, p: int)
    requires
        sorted_distinct(s),
        0 <= p < s.len(),
    ensures
        s.index_of(s[p]) == p,
{
    assert(s.contains(s[p]));
}

/// Resolving a first part against `a0` and then a second part against what is left
/// succeeds exactly when the two parts together resolve against `a0`.
proof fn lemma_resolve_concat(a: Seq<u64>, b: Seq<u64>, a0: Seq<u64>, a1: Seq<u64>)
    requires
        a.no_duplicates(),
        forall|k: int| 0 <= k < a.len() ==> a0.contains(#[trigger] a[k]),
        forall|x: u64| a1.contains(x) <==> (a0.contains(x) && !a.contains(x)),
    ensures
        (b.no_duplicates() && forall|k: int| 0 <= k < b.len() ==> a1.contains(#[trigger] b[k]))
            <==> ((a + b).no_duplicates() && forall|k: int|
            0 <= k < (a + b).len() ==> a0.contains(#[trigger] (a + b)[k])),
{
    let ab = a + b;
    if b.no_duplicates() && forall|k: int| 0 <= k < b.len() ==> a1.contains(#[trigger] b[k]) {
        assert forall|i: int, j: int| 0 <= i < a.len() && 0 <= j < b.len() implies a[i] != b[j] by {
            assert(a1.contains(b[j]));
            assert(a.contains(a[i]));
        }
        vstd::seq_lib::lemma_no_dup_in_concat(a, b);
        assert forall|k: int| 0 <= k < ab.len() implies a0.contains(#[trigger] ab[k]) by {
            if k >= a.len() {
                assert(ab[k] == b[k - a.len()]);
                assert(a1.contains(b[k - a.len()]));
            } else {
                assert(ab[k] == a[k]);
            }
        }
    }
    if ab.no_duplicates() && forall|k: int| 0 <= k < ab.len() ==> a0.contains(#[trigger] ab[k]) {
        assert forall|i: int, j: int| 0 <= i < b.len() && 0 <= j < b.len() && i != j implies b[i] != b[j] by {
            assert(ab[i + a.len()] == b[i]);
            assert(ab[j + a.len()] == b[j]);
        }
        assert forall|k: int| 0 <= k < b.len() implies a1.contains(#[trigger] b[k]) by {
            assert(ab[k + a.len()] == b[k]);
            assert(a0.contains(ab[k + a.len()]));
            if a.contains(b[k]) {
                let m = choose|m: int| 0 <= m < a.len() && a[m] == b[k];
                assert(ab[m] == b[k]);
            }
        }
    }
}

/// When the leaves of the first `n` children cannot resolve, neither can the whole shape.
proof fn lemma_prefix_blocks(s: Shape, n: nat, a0: Seq<u64>)
    requires
        s is Tuple,
        n <= s->Tuple_0@.len(),
        !resolvable_seq(ids_of(requests_prefix(s, n)), a0),
    ensures
        !resolvable(s, a0),
    decreases s->Tuple_0@.len() - n,
{
    let m = s->Tuple_0@.len();
    if n < m {
        let p = ids_of(requests_prefix(s, n));
        let q = ids_of(requests(s->Tuple_0@[n as int]));
        lemma_ids_of_concat(requests_prefix(s, n), requests(s->Tuple_0@[n as int]));
        assert(requests_prefix(s, (n + 1) as nat) == requests_prefix(s, n) + requests(s->Tuple_0@[n as int]));
        let pq = p + q;
        if !p.no_duplicates() {
            let (i, j) = choose|i: int, j: int| 0 <= i < p.len() && 0 <= j < p.len() && i != j && p[i] == p[j];
            assert(pq[i] == pq[j]);
        } else {
            let k = choose|k: int| 0 <= k < p.len() && !a0.contains(#[trigger] p[k]);
            assert(pq[k] == p[k]);
        }
        lemma_prefix_blocks(s, (n + 1) as nat, a0);
    }
}

/// Each child of a resolvable composite shape is resolvable on its own.
proof fn lemma_prefix_resolvable(s: Shape, n: nat, ids: Seq<u64>)
    requires
        s is Tuple,
        n <= s->Tuple_0@.len(),
        resolvable(s, ids),
    ensures
        resolvable_seq(ids_of(requests_prefix(s, n)), ids),
        forall|j: int| n <= j < s->Tuple_0@.len() ==> resolvable(#[trigger] s->Tuple_0@[j], ids),
    decreases s->Tuple_0@.len() - n,
{
    let m = s->Tuple_0@.len();
    if n == m {
        assert(requests(s) == requests_prefix(s, n));
    } else {
        lemma_prefix_resolvable(s, (n + 1) as nat, ids);
        let c = s->Tuple_0@[n as int];
        lemma_ids_of_concat(requests_prefix(s, n), requests(c));
        assert(requests_prefix(s, (n + 1) as nat) == requests_prefix(s, n) + requests(c));
        let p = ids_of(requests_prefix(s, n));
        let q = leaves(c);
        let pq = p + q;
        assert forall|i: int, j: int| 0 <= i < p.len() && 0 <= j < p.len() && i != j implies p[i] != p[j] by {
            assert(pq[i] == p[i] && pq[j] == p[j]);
        }
        assert forall|k: int| 0 <= k < p.len() implies ids.contains(#[trigger] p[k]) by {
            assert(pq[k] == p[k]);
        }
        assert forall|i: int, j: int| 0 <= i < q.len() && 0 <= j < q.len() && i != j implies q[i] != q[j] by {
            assert(pq[i + p.len()] == q[i] && pq[j + p.len()] == q[j]);
        }
        assert forall|k: int| 0 <= k < q.len() implies ids.contains(#[trigger] q[k]) by {
            assert(pq[k + p.len()] == q[k]);
        }
        assert(resolvable(c, ids));
    }
}

proof fn lemma_views_prefix(t: MappingTable, n: nat)
    requires
        t is Node,
        n <= t->Node_0@.len(),
    ensures
        views_prefix(t, n).len() == n,
        forall|j: int| 0 <= j < n ==> #[trigger] views_prefix(t, n)[j] == plan_view(t->Node_0@[j]),
    decreases n,
{
    if n > 0 {
        lemma_views_prefix(t, (n - 1) as nat);
    }
}

proof fn lemma_plans_prefix(s: Shape, ids: Seq<u64>, n: nat)
    requires
        s is Tuple,
        n <= s->Tuple_0@.len(),
    ensures
        plans_prefix(s, ids, n).len() == n,
        forall|j: int| 0 <= j < n ==> #[trigger] plans_prefix(s, ids, n)[j] == plan_of(s->Tuple_0@[j], ids),
    decreases n,
{
    if n > 0 {
        lemma_plans_prefix(s, ids, (n - 1) as nat);
    }
}

impl Shape {
    /// Resolves this shape against the working set `available` of a row whose
    /// index is `ids`, consuming each matched type identity so that no sibling
    /// leaf can claim it again. On success the plan's leaves are slots of `ids`.
    pub fn contain(&self, ids: &Vec<u64>, available: &mut Vec<u64>) -> (r: Option<MappingTable>)
        requires
            sorted_distinct(ids@),
            sorted_distinct(old(available)@),
            forall|x: u64| old(available)@.contains(x) ==> ids@.contains(x),
        ensures
            sorted_distinct(final(available)@),
            forall|x: u64| final(available)@.contains(x) ==> old(available)@.contains(x),
            r is Some <==> resolvable(*self, old(available)@),
            r matches Some(t) ==> t@ == plan_of(*self, ids@),
            r is Some ==> forall|x: u64|
                final(available)@.contains(x) <==> (old(available)@.contains(x) && !leaves(
                    *self,
                ).contains(x)),
        decreases self,
    {
        match self {
            Shape::Read(id) | Shape::Write(id) => {
                let id = *id;
                assert(leaves(*self) =~= seq![id]);
                assert(leaves(*self)[0] == id);
                match search(available, id) {
                    None => {
                        assert(!resolvable(*self, old(available)@));
                        None
                    },
                    Some(p) => {
                        proof {
                            lemma_remove_sorted(available@, p as int);
                        }
                        available.remove(p);
                        assert(ids@.contains(id));
                        match search(ids, id) {
                            None => None,
                            Some(q) => {
                                proof {
                                    lemma_index_of_sorted(ids@, q as int);
                                }
                                assert(seq![id].no_duplicates());
                                Some(MappingTable::Mapping(q))
                            },
                        }
                    },
                }
            },
            Shape::Tuple(cs) => {
                let ghost s = *self;
                let ghost a0 = available@;
                let mut plans: Vec<MappingTable> = Vec::new();
                let mut i: usize = 0;
                assert(ids_of(requests_prefix(s, 0)) =~= Seq::<u64>::empty());
                while i < cs.len()
                    invariant
                        s == Shape::Tuple(*cs),
                        s == *self,
                        a0 == old(available)@,
                        0 <= i <= cs@.len(),
                        sorted_distinct(ids@),
                        sorted_distinct(available@),
                        forall|x: u64| available@.contains(x) ==> a0.contains(x),
                        forall|x: u64| a0.contains(x) ==> ids@.contains(x),
                        resolvable_seq(ids_of(requests_prefix(s, i as nat)), a0),
                        forall|x: u64|
                            available@.contains(x) <==> (a0.contains(x) && !ids_of(
                                requests_prefix(s, i as nat),
                            ).contains(x)),
                        plans@.len() == i,
                        forall|j: int| 0 <= j < i ==> #[trigger] plans@[j]@ == plan_of(cs@[j], ids@),
                    decreases cs@.len() - i,
                {
                    let ghost a1 = available@;
                    let ghost pre = ids_of(requests_prefix(s, i as nat));
                    proof {
                        assert(decreases_to!(s => s->Tuple_0));
                        assert(decreases_to!(s->Tuple_0 => s->Tuple_0[i as int]));
                        assert(decreases_to!(*self => cs@[i as int]));
                        assert forall|x: u64| available@.contains(x) implies ids@.contains(x) by {
                            assert(a0.contains(x));
                        }
                        lemma_ids_of_concat(requests_prefix(s, i as nat), requests(cs@[i as int]));
                        assert(requests_prefix(s, (i + 1) as nat) == requests_prefix(s, i as nat)
                            + requests(cs@[i as int]));
                        lemma_resolve_concat(pre, leaves(cs@[i as int]), a0, a1);
                    }
                    match cs[i].contain(ids, available) {
                        None => {
                            assert(!resolvable_seq(ids_of(requests_prefix(s, (i + 1) as nat)), a0));
                            proof {
                                lemma_prefix_blocks(s, (i + 1) as nat, a0);
                            }
                            return None;
                        },
                        Some(t) => {
                            plans.push(t);
                            proof {
                                let post = ids_of(requests_prefix(s, (i + 1) as nat));
                                let lc = leaves(cs@[i as int]);
                                assert forall|x: u64| post.contains(x) <==> (pre.contains(x) || lc.contains(x)) by {
                                    if post.contains(x) {
                                        let k = choose|k: int| 0 <= k < post.len() && post[k] == x;
                                        if k < pre.len() {
                                            assert(pre[k] == x);
                                        } else {
                                            assert(lc[k - pre.len()] == x);
                                        }
                                    }
                                    if pre.contains(x) {
                                        let k = choose|k: int| 0 <= k < pre.len() && pre[k] == x;
                                        assert(post[k] == x);
                                    }
                                    if lc.contains(x) {
                                        let k = choose|k: int| 0 <= k < lc.len() && lc[k] == x;
                                        assert(post[k + pre.len()] == x);
                                    }
                                }
                            }
                        },
                    }
                    i = i + 1;
                }
                let ghost t = MappingTable::Node(plans);
                proof {
                    lemma_views_prefix(t, plans@.len() as nat);
                    lemma_plans_prefix(s, ids@, cs@.len() as nat);
                    assert forall|j: int| 0 <= j < plans@.len() implies views_prefix(t, plans@.len() as nat)[j]
                        == plans_prefix(s, ids@, cs@.len() as nat)[j] by {
                        assert(plans@[j]@ == plan_of(cs@[j], ids@));
                    }
                    assert(views_prefix(t, plans@.len() as nat) =~= plans_prefix(s, ids@, cs@.len() as nat));
                }
                Some(MappingTable::Node(plans))
            },
        }
    }
}

impl Shape {
    /// Appends to `out` the views of this shape's leaves, in declared order,
    /// reading each slot from `plan`, a plan built for a row whose index is `ids`.
    /// A plan that does not fit the row is an invariant violation, excluded here.
    pub fn build(&self, plan: &MappingTable, ids: &Vec<u64>, out: &mut Vec<ComponentView>)
        requires
            sorted_distinct(ids@),
            resolvable(*self, ids@),
            plan@ == plan_of(*self, ids@),
        ensures
            final(out)@ == old(out)@ + views_for(requests(*self), ids@),
        decreases self,
    {
        match self {
            Shape::Read(id) | Shape::Write(id) => {
                let id = *id;
                let ghost r = requests(*self)[0];
                assert(leaves(*self)[0] == id);
                assert(ids@.contains(id));
                let slot = match plan {
                    MappingTable::Mapping(slot) => *slot,
                    MappingTable::Node(_) => 0,
                };
                let access = match self {
                    Shape::Write(_) => Access::Write,
                    _ => Access::Read,
                };
                out.push(ComponentView { slot, id, access });
                assert(views_for(requests(*self), ids@) =~= seq![view_for(r, ids@)]);
            },
            Shape::Tuple(cs) => {
                let ghost s = *self;
                let ghost out0 = out@;
                let ghost n = cs@.len() as nat;
                let children = match plan {
                    MappingTable::Node(v) => v,
                    MappingTable::Mapping(_) => {
                        return;
                    },
                };
                proof {
                    lemma_views_prefix(*plan, children@.len() as nat);
                    lemma_plans_prefix(s, ids@, n);
                    assert(views_prefix(*plan, children@.len() as nat).len() == n);
                    lemma_prefix_resolvable(s, 0, ids@);
                    assert(plan_view(*plan) == Plan::Node(views_prefix(*plan, children@.len() as nat)));
                    assert forall|j: int| 0 <= j < n implies #[trigger] plan_view(children@[j]) == plan_of(cs@[j], ids@) by {
                        assert(views_prefix(*plan, children@.len() as nat)[j] == plans_prefix(s, ids@, n)[j]);
                    }
                }
                let mut i: usize = 0;
                assert(views_for(requests_prefix(s, 0), ids@) =~= Seq::<ComponentView>::empty());
                while i < cs.len()
                    invariant
                        s == Shape::Tuple(*cs),
                        s == *self,
                        n == cs@.len(),
                        children@.len() == n,
                        0 <= i <= n,
                        sorted_distinct(ids@),
                        forall|j: int| 0 <= j < n ==> resolvable(#[trigger] cs@[j], ids@),
                        forall|j: int| 0 <= j < n ==> #[trigger] plan_view(children@[j]) == plan_of(cs@[j], ids@),
                        out@ == out0 + views_for(requests_prefix(s, i as nat), ids@),
                    decreases n - i,
                {
                    proof {
                        assert(decreases_to!(s => s->Tuple_0));
                        assert(decreases_to!(s->Tuple_0 => s->Tuple_0[i as int]));
                        assert(requests_prefix(s, (i + 1) as nat) == requests_prefix(s, i as nat)
                            + requests(cs@[i as int]));
                        assert(views_for(requests_prefix(s, (i + 1) as nat), ids@) =~= views_for(
                            requests_prefix(s, i as nat), ids@) + views_for(requests(cs@[i as int]), ids@));
                    }
                    cs[i].build(&children[i], ids, out);
                    i = i + 1;
                    assert(out@ =~= out0 + views_for(requests_prefix(s, i as nat), ids@));
                }
            },
        }
    }
}

impl Shape {
    /// Appends to `out` the accesses of this shape's leaves, in declared order.
    pub fn collect_requests(&self, out: &mut Vec<AccessRecord>)
        ensures
            final(out)@ == old(out)@ + requests(*self),
        decreases self,
    {
        match self {
            Shape::Read(id) => {
                out.push(AccessRecord { id: *id, access: Access::Read });
                assert(final(out)@ =~= old(out)@ + requests(*self));
            },
            Shape::Write(id) => {
                out.push(AccessRecord { id: *id, access: Access::Write });
                assert(final(out)@ =~= old(out)@ + requests(*self));
            },
            Shape::Tuple(cs) => {
                let ghost s = *self;
                let ghost out0 = out@;
                let mut i: usize = 0;
                assert(requests_prefix(s, 0) =~= Seq::<AccessRecord>::empty());
                assert(out@ =~= out0 + requests_prefix(s, 0));
                while i < cs.len()
                    invariant
                        s == Shape::Tuple(*cs),
                        s == *self,
                        0 <= i <= cs@.len(),
                        out@ == out0 + requests_prefix(s, i as nat),
                    decreases cs@.len() - i,
                {
                    proof {
                        assert(decreases_to!(s => s->Tuple_0));
                        assert(decreases_to!(s->Tuple_0 => s->Tuple_0[i as int]));
                        assert(requests_prefix(s, (i + 1) as nat) == requests_prefix(s, i as nat)
                            + requests(cs@[i as int]));
                    }
                    cs[i].collect_requests(out);
                    i = i + 1;
                    assert(out@ =~= out0 + requests_prefix(s, i as nat));
                }
            },
        }
    }
}

/// Resolves `shape` against a row whose index is `ids`. The result is `Some`
/// exactly when every leaf type is present in the row and no two leaves claim
/// the same type; its slots then depend on the row's index alone.
pub fn resolve(shape: &Shape, ids: &Vec<u64>) -> (r: Option<MappingTable>)
    requires
        sorted_distinct(ids@),
    ensures
        r is Some <==> resolvable(*shape, ids@),
        r matches Some(t) ==> t@ == plan_of(*shape, ids@),
{
    let mut available: Vec<u64> = Vec::new();
    let mut i: usize = 0;
    while i < ids.len()
        invariant
            i <= ids@.len(),
            available@ == ids@.subrange(0, i as int),
        decreases ids@.len() - i,
    {
        available.push(ids[i]);
        i = i + 1;
        assert(available@ =~= ids@.subrange(0, i as int));
    }
    assert(available@ =~= ids@);
    shape.contain(ids, &mut available)
}

/// Two strictly increasing sequences with the same members are equal.
proof fn lemma_sorted_unique(a: Seq<u64>, b: Seq<u64>)
    requires
        sorted_distinct(a),
        sorted_distinct(b),
        forall|x: u64| a.contains(x) <==> b.contains(x),
    ensures
        a == b,
    decreases a.len(),
{
    if a.len() == 0 {
        if b.len() > 0 {
            assert(b.contains(b[0]));
        }
        assert(a =~= b);
    } else {
        assert(a.contains(a[0]));
        assert(b.len() > 0);
        assert(b.contains(b[0]));
        let ka = choose|k: int| 0 <= k < a.len() && a[k] == b[0];
        let kb = choose|k: int| 0 <= k < b.len() && b[k] == a[0];
        assert(a[0] <= a[ka]);
        assert(b[0] <= b[kb]);
        assert(a[0] == b[0]);
        let ta = a.drop_first();
        let tb = b.drop_first();
        assert forall|x: u64| ta.contains(x) <==> tb.contains(x) by {
            if ta.contains(x) {
                let k = choose|k: int| 0 <= k < ta.len() && ta[k] == x;
                assert(a[k + 1] == x && a.contains(x));
                let m = choose|m: int| 0 <= m < b.len() && b[m] == x;
                assert(m != 0);
                assert(tb[m - 1] == x);
            }
            if tb.contains(x) {
                let k = choose|k: int| 0 <= k < tb.len() && tb[k] == x;
                assert(b[k + 1] == x && b.contains(x));
                let m = choose|m: int| 0 <= m < a.len() && a[m] == x;
                assert(m != 0);
                assert(ta[m - 1] == x);
            }
        }
        lemma_sorted_unique(ta, tb);
        assert(a =~= seq![a[0]] + ta);
        assert(b =~= seq![b[0]] + tb);
    }
}

/// Resolution depends on a row's set of type identities alone: two rows whose
/// indexes hold the same identities are resolvable by the same shapes, and
/// yield the same plan for each.
pub proof fn lemma_plan_depends_on_identities(shape: Shape, ids1: Seq<u64>, ids2: Seq<u64>)
    requires
        sorted_distinct(ids1),
        sorted_distinct(ids2),
        forall|x: u64| ids1.contains(x) <==> ids2.contains(x),
    ensures
        resolvable(shape, ids1) == resolvable(shape, ids2),
        plan_of(shape, ids1) == plan_of(shape, ids2),
{
    lemma_sorted_unique(ids1, ids2);
}

/// Building from the plan that resolution gives yields one view per leaf, in
/// declared order, each over a slot whose type identity is exactly the one the
/// leaf asked for, in the mode the leaf asked for.
pub proof fn lemma_round_trip(shape: Shape, ids: Seq<u64>)
    requires
        sorted_distinct(ids),
        ids.len() <= usize::MAX,
        resolvable(shape, ids),
    ensures
        views_for(requests(shape), ids).len() == leaves(shape).len(),
        forall|k: int|
            0 <= k < leaves(shape).len() ==> {
                let v = #[trigger] views_for(requests(shape), ids)[k];
                &&& v.slot < ids.len()
                &&& ids[v.slot as int] == leaves(shape)[k]
                &&& v.id == leaves(shape)[k]
                &&& v.access == requests(shape)[k].access
            },
{
    assert forall|k: int| 0 <= k < leaves(shape).len() implies {
        let v = #[trigger] views_for(requests(shape), ids)[k];
        &&& v.slot < ids.len()
        &&& ids[v.slot as int] == leaves(shape)[k]
        &&& v.id == leaves(shape)[k]
        &&& v.access == requests(shape)[k].access
    } by {
        let id = leaves(shape)[k];
        assert(id == requests(shape)[k].id);
        assert(ids.contains(id));
        assert(ids[ids.index_of(id)] == id);
        assert(views_for(requests(shape), ids)[k] == view_for(requests(shape)[k], ids));
    }
}

/// Finds `id` in a strictly increasing sequence by binary search.
pub(crate) fn search(ids: &Vec<u64>, id: u64) -> (r: Option<usize>)
    requires
        sorted_distinct(ids@),
    ensures
        r matches Some(p) ==> p < ids@.len() && ids@[p as int] == id,
        r is None ==> !ids@.contains(id),
{
    let mut lo: usize = 0;
    let mut hi: usize = ids.len();
    while lo < hi
        invariant
            lo <= hi <= ids@.len(),
            sorted_distinct(ids@),
            forall|k: int| 0 <= k < lo ==> ids@[k] < id,
            forall|k: int| hi <= k < ids@.len() ==> ids@[k] > id,
        decreases hi - lo,
    {
        let mid = lo + (hi - lo) / 2;
        if ids[mid] == id {
            return Some(mid);
        } else if ids[mid] < id {
            lo = mid + 1;
        } else {
            hi = mid;
        }
    }
    None
}

} // verus!

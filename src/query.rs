use vstd::prelude::*;
use crate::alias::{SystemState, shape_records};
use crate::fetch::{
    ComponentView, Shape, requests, resolvable, resolve, search, sorted_distinct, views_for,
};

verus! {

/// The rows of a world, each given by the sorted index of its component type identities.
pub struct World {
    rows: Vec<Vec<u64>>,
}

impl World {
    /// The index of each row, in order.
    pub closed spec fn rows(&self) -> Seq<Seq<u64>> {
        self.rows@.map_values(|r: Vec<u64>| r@)
    }

    /// Every row's index is strictly increasing.
    pub open spec fn wf(&self) -> bool {
        forall|k: int| 0 <= k < self.rows().len() ==> sorted_distinct(#[trigger] self.rows()[k])
    }

    /// A world without rows.
    pub fn new() -> (r: World)
        ensures
            r.rows() == Seq::<Seq<u64>>::empty(),
            r.wf(),
    {
        let r = World { rows: Vec::new() };
        assert(r.rows() =~= Seq::<Seq<u64>>::empty());
        r
    }

    /// The number of rows.
    pub fn len(&self) -> (r: usize)
        ensures
            r == self.rows().len(),
    {
        self.rows.len()
    }

    /// Adds a row whose index is `ids`. An index that is not strictly
    /// increasing is refused, and the world is then left as it was.
    pub fn add_row(&mut self, ids: Vec<u64>) -> (r: bool)
        requires
            old(self).wf(),
        ensures
            final(self).wf(),
            r == sorted_distinct(ids@),
            r ==> final(self).rows() == old(self).rows().push(ids@),
            !r ==> final(self).rows() == old(self).rows(),
    {
        let mut i: usize = 1;
        while i < ids.len()
            invariant
                1 <= i,
                *self == *old(self),
                self.wf(),
                forall|a: int, b: int| 0 <= a < b < i && b < ids@.len() ==> ids@[a] < ids@[b],
            decreases ids@.len() - i,
        {
            if ids[i - 1] >= ids[i] {
                return false;
            }
            i = i + 1;
        }
        self.rows.push(ids);
        assert(self.rows() =~= old(self).rows().push(ids@));
        true
    }
}

/// A row filter: every type of `with` must be present, no type of `without` may be.
pub struct Filter {
    with: Vec<u64>,
    without: Vec<u64>,
}

/// The filter `f` lets through a row whose index is `ids`.
pub open spec fn passes(with: Seq<u64>, without: Seq<u64>, ids: Seq<u64>) -> bool {
    &&& forall|k: int| 0 <= k < with.len() ==> ids.contains(#[trigger] with[k])
    &&& forall|k: int| 0 <= k < without.len() ==> !ids.contains(#[trigger] without[k])
}

impl Filter {
    /// The type identities a row must hold.
    pub closed spec fn with_ids(&self) -> Seq<u64> {
        self.with@
    }

    /// The type identities a row must not hold.
    pub closed spec fn without_ids(&self) -> Seq<u64> {
        self.without@
    }

    /// A filter that lets every row through.
    pub fn new() -> (r: Filter)
        ensures
            r.with_ids() == Seq::<u64>::empty(),
            r.without_ids() == Seq::<u64>::empty(),
    {
        Filter { with: Vec::new(), without: Vec::new() }
    }

    /// Also asks that type `id` be present.
    pub fn with(self, id: u64) -> (r: Filter)
        ensures
            r.with_ids() == self.with_ids().push(id),
            r.without_ids() == self.without_ids(),
    {
        let mut f = self;
        f.with.push(id);
        f
    }

    /// Also asks that type `id` be absent.
    pub fn without(self, id: u64) -> (r: Filter)
        ensures
            r.with_ids() == self.with_ids(),
            r.without_ids() == self.without_ids().push(id),
    {
        let mut f = self;
        f.without.push(id);
        f
    }

    /// Whether a row whose index is `ids` is eligible.
    pub fn accepts(&self, ids: &Vec<u64>) -> (r: bool)
        requires
            sorted_distinct(ids@),
        ensures
            r == passes(self.with_ids(), self.without_ids(), ids@),
    {
        let mut i: usize = 0;
        while i < self.with.len()
            invariant
                sorted_distinct(ids@),
                i <= self.with@.len(),
                forall|k: int| 0 <= k < i ==> ids@.contains(#[trigger] self.with@[k]),
            decreases self.with@.len() - i,
        {
            if search(ids, self.with[i]).is_none() {
                return false;
            }
            i = i + 1;
        }
        let mut j: usize = 0;
        while j < self.without.len()
            invariant
                sorted_distinct(ids@),
                j <= self.without@.len(),
                forall|k: int| 0 <= k < self.with@.len() ==> ids@.contains(#[trigger] self.with@[k]),
                forall|k: int| 0 <= k < j ==> !ids@.contains(#[trigger] self.without@[k]),
            decreases self.without@.len() - j,
        {
            if let Some(p) = search(ids, self.without[j]) {
                assert(ids@.contains(self.without@[j as int]));
                return false;
            }
            j = j + 1;
        }
        true
    }
}

/// The views fetched from one row.
pub struct EntityFetch {
    pub row: usize,
    pub views: Vec<ComponentView>,
}

/// The mathematical form of one row's fetch: its row number and its views.
pub open spec fn fetched(e: EntityFetch) -> (int, Seq<ComponentView>) {
    (e.row as int, e.views@)
}

/// What a query over `shape` and a filter yields from the first `n` rows:
/// for each eligible row that the shape resolves against, in order, the row
/// number and the views of the shape's leaves.
pub open spec fn query_rows(
    shape: Shape,
    with: Seq<u64>,
    without: Seq<u64>,
    rows: Seq<Seq<u64>>,
    n: nat,
) -> Seq<(int, Seq<ComponentView>)>
    decreases n,
{
    if n == 0 || n > rows.len() {
        Seq::empty()
    } else {
        let k = n - 1;
        let before = query_rows(shape, with, without, rows, k as nat);
        if passes(with, without, rows[k]) && resolvable(shape, rows[k]) {
            before.push((k, views_for(requests(shape), rows[k])))
        } else {
            before
        }
    }
}

/// A requested shape bound to a row filter.
pub struct Query {
    pub fetch: Shape,
    pub filter: Filter,
}

impl Query {
    /// A query for `fetch` over the rows that `filter` lets through.
    pub fn new(fetch: Shape, filter: Filter) -> (r: Query)
        ensures
            r.fetch == fetch,
            r.filter == filter,
    {
        Query { fetch, filter }
    }

    /// What this query yields from `world`.
    pub open spec fn results(&self, world: &World) -> Seq<(int, Seq<ComponentView>)> {
        query_rows(
            self.fetch,
            self.filter.with_ids(),
            self.filter.without_ids(),
            world.rows(),
            world.rows().len(),
        )
    }

    /// Walks the rows of `world` in order and, for each eligible row that the
    /// shape resolves against, builds the views of the shape's leaves.
    pub fn into_eiter(&self, world: &World) -> (r: Vec<EntityFetch>)
        requires
            world.wf(),
        ensures
            r@.map_values(|e: EntityFetch| fetched(e)) == self.results(world),
    {
        let mut out: Vec<EntityFetch> = Vec::new();
        let n = world.rows.len();
        let mut k: usize = 0;
        while k < n
            invariant
                world.wf(),
                n == world.rows().len(),
                k <= n,
                out@.map_values(|e: EntityFetch| fetched(e)) == query_rows(
                    self.fetch,
                    self.filter.with_ids(),
                    self.filter.without_ids(),
                    world.rows(),
                    k as nat,
                ),
            decreases n - k,
        {
            let row = &world.rows[k];
            assert(row@ == world.rows()[k as int]);
            assert(sorted_distinct(row@));
            let ghost before = out@;
            if self.filter.accepts(row) {
                if let Some(plan) = resolve(&self.fetch, row) {
                    let mut views: Vec<ComponentView> = Vec::new();
                    self.fetch.build(&plan, row, &mut views);
                    assert(views@ =~= views_for(requests(self.fetch), row@));
                    out.push(EntityFetch { row: k, views });
                    assert(out@.map_values(|e: EntityFetch| fetched(e)) =~= before.map_values(
                        |e: EntityFetch| fetched(e),
                    ).push(fetched(EntityFetch { row: k, views })));
                }
            }
            k = k + 1;
        }
        out
    }

    /// Adds this query's accesses to the validation scope of a system.
    pub fn init(&self, state: &mut SystemState)
        ensures
            final(state).records() == old(state).records() + shape_records(self.fetch),
    {
        state.add_shape(&self.fetch);
    }
}

} // verus!

use vstd::prelude::*;
use crate::fetch::{Access, AccessRecord, Shape, requests};

verus! {

/// Two parameters of one system ask for incompatible access to the component type `id`.
#[derive(PartialEq, Eq, Structural, Clone, Copy, Debug)]
pub struct AliasConflict {
    pub id: u64,
}

/// Records `i` and `j` are distinct entries for the same type, one of them exclusive.
pub open spec fn clash(rs: Seq<AccessRecord>, i: int, j: int) -> bool {
    &&& 0 <= i < rs.len()
    &&& 0 <= j < rs.len()
    &&& i != j
    &&& rs[i].id == rs[j].id
    &&& (rs[i].access == Access::Write || rs[j].access == Access::Write)
}

/// No type identity with a `Write` record has any other record in `rs`.
pub open spec fn no_conflict(rs: Seq<AccessRecord>) -> bool {
    forall|i: int, j: int| !#[trigger] clash(rs, i, j)
}

/// Some `Write` record for `id` shares the scope with another record for `id`.
pub open spec fn conflicts_on(rs: Seq<AccessRecord>, id: u64) -> bool {
    exists|i: int, j: int| #[trigger] clash(rs, i, j) && rs[i].id == id
}

/// `m` holds at most one record per type identity.
pub open spec fn ids_unique(m: Seq<AccessRecord>) -> bool {
    forall|a: int, b: int| 0 <= a < b < m.len() ==> m[a].id != m[b].id
}

/// Folds the request `r` into `m`: a type already named keeps one record,
/// made exclusive if `r` is; a new type is appended.
pub open spec fn absorb(m: Seq<AccessRecord>, r: AccessRecord) -> Seq<AccessRecord> {
    if exists|k: int| 0 <= k < m.len() && m[k].id == r.id {
        let k = choose|k: int| 0 <= k < m.len() && m[k].id == r.id;
        if r.access == Access::Write {
            m.update(k, r)
        } else {
            m
        }
    } else {
        m.push(r)
    }
}

/// The records one parameter contributes: one per type identity its leaves
/// name, in order of first mention, exclusive when any of those leaves is.
pub open spec fn merged(rs: Seq<AccessRecord>) -> Seq<AccessRecord>
    decreases rs.len(),
{
    if rs.len() == 0 {
        Seq::empty()
    } else {
        absorb(merged(rs.drop_last()), rs.last())
    }
}

/// The records the parameter shape `s` contributes to a validation scope.
pub open spec fn shape_records(s: Shape) -> Seq<AccessRecord> {
    merged(requests(s))
}

/// The accesses accumulated over one validation scope: every parameter of one system.
pub struct SystemState {
    records: Vec<AccessRecord>,
}

impl SystemState {
    /// The records accumulated so far, in the order they were added.
    pub closed spec fn records(&self) -> Seq<AccessRecord> {
        self.records@
    }

    /// An empty scope.
    pub fn new() -> (r: SystemState)
        ensures
            r.records() == Seq::<AccessRecord>::empty(),
    {
        SystemState { records: Vec::new() }
    }

    /// Adds one access to the scope.
    pub fn record(&mut self, id: u64, access: Access)
        ensures
            final(self).records() == old(self).records().push(AccessRecord { id, access }),
    {
        self.records.push(AccessRecord { id, access });
    }

    /// Adds the records of one parameter whose shape is `shape`: one per type
    /// identity it names. Double claims inside one shape are the resolver's to
    /// refuse; the scope compares parameters with each other.
    pub fn add_shape(&mut self, shape: &Shape)
        ensures
            final(self).records() == old(self).records() + shape_records(*shape),
    {
        let mut reqs: Vec<AccessRecord> = Vec::new();
        shape.collect_requests(&mut reqs);
        assert(reqs@ =~= requests(*shape));
        let mut m: Vec<AccessRecord> = Vec::new();
        let mut i: usize = 0;
        assert(reqs@.subrange(0, 0) =~= Seq::<AccessRecord>::empty());
        while i < reqs.len()
            invariant
                i <= reqs@.len(),
                m@ == merged(reqs@.subrange(0, i as int)),
                ids_unique(m@),
            decreases reqs@.len() - i,
        {
            let r = reqs[i];
            let ghost sub = reqs@.subrange(0, i as int + 1);
            assert(sub.drop_last() =~= reqs@.subrange(0, i as int));
            assert(sub.last() == r);
            let mut k: usize = 0;
            while k < m.len() && m[k].id != r.id
                invariant
                    k <= m@.len(),
                    forall|a: int| 0 <= a < k ==> m@[a].id != r.id,
                decreases m@.len() - k,
            {
                k = k + 1;
            }
            if k < m.len() {
                assert(m@[k as int].id == r.id);
                let ghost c = choose|c: int| 0 <= c < m@.len() && m@[c].id == r.id;
                assert(c == k);
                if r.access == Access::Write {
                    m.set(k, r);
                }
            } else {
                assert(!exists|c: int| 0 <= c < m@.len() && m@[c].id == r.id);
                m.push(r);
            }
            i = i + 1;
        }
        assert(reqs@.subrange(0, i as int) =~= reqs@);
        let ghost r0 = self.records@;
        let mut j: usize = 0;
        while j < m.len()
            invariant
                j <= m@.len(),
                self.records@ == r0 + m@.subrange(0, j as int),
            decreases m@.len() - j,
        {
            self.records.push(m[j]);
            j = j + 1;
            assert(self.records@ =~= r0 + m@.subrange(0, j as int));
        }
        assert(m@.subrange(0, j as int) =~= m@);
    }

    /// Accepts the scope when no type identity with an exclusive record has any
    /// other record; otherwise names a type on which two records clash.
    pub fn validate(&self) -> (r: Result<(), AliasConflict>)
        ensures
            r is Ok <==> no_conflict(self.records()),
            r matches Err(e) ==> conflicts_on(self.records(), e.id),
    {
        let rs = &self.records;
        let n = rs.len();
        let mut i: usize = 0;
        while i < n
            invariant
                n == rs@.len(),
                rs@ == self.records(),
                i <= n,
                forall|a: int, b: int| 0 <= a < i ==> !#[trigger] clash(rs@, a, b),
            decreases n - i,
        {
            let mut j: usize = 0;
            while j < n
                invariant
                    n == rs@.len(),
                    rs@ == self.records(),
                    i < n,
                    j <= n,
                    forall|a: int, b: int| 0 <= a < i ==> !#[trigger] clash(rs@, a, b),
                    forall|b: int| 0 <= b < j ==> !#[trigger] clash(rs@, i as int, b),
                decreases n - j,
            {
                if i != j && rs[i].id == rs[j].id && (rs[i].access == Access::Write
                    || rs[j].access == Access::Write) {
                    assert(clash(self.records(), i as int, j as int));
                    assert(!no_conflict(self.records()));
                    return Err(AliasConflict { id: rs[i].id });
                }
                j = j + 1;
            }
            i = i + 1;
        }
        assert forall|a: int, b: int| !#[trigger] clash(rs@, a, b) by {
            if 0 <= a < n {
            } 
        }
        Ok(())
    }
}

} // verus!

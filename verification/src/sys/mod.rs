pub mod kqueue;

use vstd::prelude::*;

verus! {

/// Interest mask over the two readiness kinds an fd can be watched for:
/// bit 0 is READ, bit 1 is WRITE.
#[derive(Clone, Copy, Debug, PartialEq, Eq, Structural)]
pub struct Filter(u8);

impl Filter {
    /// The raw mask.
    pub closed spec fn bits(self) -> u8 {
        self.0
    }

    /// The filter with the given raw mask.
    pub closed spec fn from_bits(b: u8) -> Filter {
        Filter(b)
    }

    pub open spec fn wf(self) -> bool {
        self.bits() <= 3
    }

    pub open spec fn reads(self) -> bool {
        self.bits() & 1 == 1
    }

    pub open spec fn writes(self) -> bool {
        self.bits() & 2 == 2
    }

    pub open spec fn spec_contains(self, other: Filter) -> bool {
        self.bits() & other.bits() != 0
    }

    pub open spec fn spec_is_empty(self) -> bool {
        self.bits() == 0
    }

    pub open spec fn spec_union(self, other: Filter) -> Filter {
        Filter::from_bits(self.bits() | other.bits())
    }

    pub open spec fn spec_intersection(self, other: Filter) -> Filter {
        Filter::from_bits(self.bits() & other.bits())
    }

    pub open spec fn spec_difference(self, other: Filter) -> Filter {
        Filter::from_bits(self.bits() & !other.bits())
    }

    pub open spec fn spec_complement(self) -> Filter {
        Filter::from_bits(!self.bits() & 3)
    }

    pub broadcast proof fn lemma_bits_of_from_bits(b: u8)
        ensures
            #[trigger] Filter::from_bits(b).bits() == b,
    {
    }

    /// A complement holds the read and write bits only.
    pub broadcast proof fn lemma_complement_wf(a: Filter)
        ensures
            #[trigger] a.spec_complement().wf(),
    {
        let x = a.bits();
        assert((!x & 3) <= 3) by (bit_vector);
    }

    /// Intersecting with a well-formed filter gives a well-formed one.
    pub broadcast proof fn lemma_intersection_wf(a: Filter, b: Filter)
        requires
            b.wf(),
        ensures
            #[trigger] a.spec_intersection(b).wf(),
    {
        let x = a.bits();
        let y = b.bits();
        assert(y <= 3 ==> (x & y) <= 3) by (bit_vector);
    }

    /// Taking away from a well-formed filter gives a well-formed one.
    pub broadcast proof fn lemma_difference_wf(a: Filter, b: Filter)
        requires
            a.wf(),
        ensures
            #[trigger] a.spec_difference(b).wf(),
    {
        let x = a.bits();
        let y = b.bits();
        assert(x <= 3 ==> (x & !y) <= 3) by (bit_vector);
    }

    /// The union of well-formed filters is well-formed.
    pub broadcast proof fn lemma_union_wf(a: Filter, b: Filter)
        requires
            a.wf(),
            b.wf(),
        ensures
            #[trigger] a.spec_union(b).wf(),
    {
        let x = a.bits();
        let y = b.bits();
        assert(x <= 3 && y <= 3 ==> (x | y) <= 3) by (bit_vector);
    }

    /// Two filters are equal exactly when their masks are.
    pub proof fn lemma_eq_by_bits(f: Filter, g: Filter)
        requires
            f.bits() == g.bits(),
        ensures
            f == g,
    {
    }

    /// No interest (`NONE`).
    pub fn empty() -> (f: Filter)
        ensures
            f == Filter::from_bits(0),
    {
        Filter(0)
    }

    /// Interest in readability (`READ`).
    pub fn read() -> (f: Filter)
        ensures
            f == Filter::from_bits(1),
    {
        Filter(1)
    }

    /// Interest in writability (`WRITE`).
    pub fn write() -> (f: Filter)
        ensures
            f == Filter::from_bits(2),
    {
        Filter(2)
    }

    /// Interest in both (`BOTH`).
    pub fn all() -> (f: Filter)
        ensures
            f == Filter::from_bits(3),
    {
        Filter(3)
    }

    /// Whether the two masks share a bit. Note that this is overlap, not
    /// inclusion: `all().contains(read())` and `read().contains(all())` both
    /// hold, and nothing contains the empty filter.
    pub fn contains(self, other: Self) -> (r: bool)
        ensures
            r == self.spec_contains(other),
    {
        (self.0 & other.0) != 0
    }

    pub fn is_empty(self) -> (r: bool)
        ensures
            r == self.spec_is_empty(),
    {
        self.0 == 0
    }

    pub fn intersection(self, other: Self) -> (r: Filter)
        ensures
            r == self.spec_intersection(other),
    {
        Filter(self.0 & other.0)
    }

    pub fn union(self, other: Self) -> (r: Filter)
        ensures
            r == self.spec_union(other),
    {
        Filter(self.0 | other.0)
    }

    /// The interests, among READ and WRITE, that this filter lacks.
    pub fn complement(self) -> (r: Filter)
        ensures
            r == self.spec_complement(),
    {
        Filter(!self.0 & 3)
    }

    /// Adds the interests of `other`.
    pub fn insert(&mut self, other: Self)
        ensures
            *final(self) == old(self).spec_union(other),
    {
        self.0 = self.0 | other.0;
    }

    /// Drops the interests of `other`.
    pub fn remove(&mut self, other: Self)
        ensures
            *final(self) == old(self).spec_difference(other),
    {
        self.0 = self.0 & !other.0;
    }
}

/// `contains` is overlap, so it is symmetric, and a filter overlaps itself
/// exactly when it is not empty.
pub proof fn law_contains_symmetric(a: Filter, b: Filter)
    ensures
        a.spec_contains(b) == b.spec_contains(a),
        a.spec_contains(a) == !a.spec_is_empty(),
{
    let x = a.bits();
    let y = b.bits();
    assert(x & y == y & x) by (bit_vector);
    assert((x & x != 0) == (x != 0)) by (bit_vector);
}

/// For a filter made of READ and WRITE, emptiness and overlap are decided
/// by the two interests.
pub proof fn law_filter_interests(a: Filter, b: Filter)
    requires
        a.wf(),
        b.wf(),
    ensures
        a.spec_is_empty() == (!a.reads() && !a.writes()),
        a.spec_contains(b) == ((a.reads() && b.reads()) || (a.writes() && b.writes())),
{
    let x = a.bits();
    let y = b.bits();
    assert(x <= 3 ==> ((x == 0) == (x & 1 != 1 && x & 2 != 2))) by (bit_vector);
    assert(x <= 3 && y <= 3 ==> ((x & y != 0) == ((x & 1 == 1 && y & 1 == 1) || (x & 2 == 2 && y
        & 2 == 2)))) by (bit_vector);
}

/// After `insert(b)` the filter overlaps every non-empty part of `b`;
/// after `remove(b)` it overlaps nothing of `b`; and what `intersection`
/// with a complement leaves never overlaps the complemented filter.
pub proof fn law_insert_remove(a: Filter, b: Filter)
    ensures
        !b.spec_is_empty() ==> a.spec_union(b).spec_contains(b),
        !a.spec_difference(b).spec_contains(b),
        !a.spec_intersection(b.spec_complement()).spec_contains(b),
{
    broadcast use Filter::lemma_bits_of_from_bits;

    let x = a.bits();
    let y = b.bits();
    assert(y != 0 ==> (x | y) & y != 0) by (bit_vector);
    assert((x & !y) & y == 0) by (bit_vector);
    assert((x & (!y & 3)) & y == 0) by (bit_vector);
}

/// The four filters made by the constructors are the only well-formed ones,
/// and they are closed under the operations.
pub proof fn law_filter_ops_wf(a: Filter, b: Filter)
    requires
        a.wf(),
        b.wf(),
    ensures
        a.spec_union(b).wf(),
        a.spec_intersection(b).wf(),
        a.spec_difference(b).wf(),
        a.spec_complement().wf(),
        a.spec_union(b).reads() == (a.reads() || b.reads()),
        a.spec_union(b).writes() == (a.writes() || b.writes()),
        a.spec_intersection(b).reads() == (a.reads() && b.reads()),
        a.spec_intersection(b).writes() == (a.writes() && b.writes()),
        a.spec_difference(b).reads() == (a.reads() && !b.reads()),
        a.spec_difference(b).writes() == (a.writes() && !b.writes()),
        a.spec_complement().reads() == !a.reads(),
        a.spec_complement().writes() == !a.writes(),
{
    broadcast use Filter::lemma_bits_of_from_bits;

    let x = a.bits();
    let y = b.bits();
    assert(x <= 3 && y <= 3 ==> (x | y) <= 3 && (x & y) <= 3 && (x & !y) <= 3 && (!x & 3) <= 3)
        by (bit_vector);
    assert(((x | y) & 1 == 1) == (x & 1 == 1 || y & 1 == 1)) by (bit_vector);
    assert(((x | y) & 2 == 2) == (x & 2 == 2 || y & 2 == 2)) by (bit_vector);
    assert(((x & y) & 1 == 1) == (x & 1 == 1 && y & 1 == 1)) by (bit_vector);
    assert(((x & y) & 2 == 2) == (x & 2 == 2 && y & 2 == 2)) by (bit_vector);
    assert(((x & !y) & 1 == 1) == (x & 1 == 1 && y & 1 != 1)) by (bit_vector);
    assert(((x & !y) & 2 == 2) == (x & 2 == 2 && y & 2 != 2)) by (bit_vector);
    assert(((!x & 3) & 1 == 1) == (x & 1 != 1)) by (bit_vector);
    assert(((!x & 3) & 2 == 2) == (x & 2 != 2)) by (bit_vector);
}

/// Well-formed filters with the same interests are equal.
pub proof fn law_filter_extensional(a: Filter, b: Filter)
    requires
        a.wf(),
        b.wf(),
        a.reads() == b.reads(),
        a.writes() == b.writes(),
    ensures
        a == b,
{
    let x = a.bits();
    let y = b.bits();
    assert(x <= 3 && y <= 3 && (x & 1 == 1) == (y & 1 == 1) && (x & 2 == 2) == (y & 2 == 2) ==> x
        == y) by (bit_vector);
    Filter::lemma_eq_by_bits(a, b);
}

/// A readiness event reported for one fd.
#[derive(Clone, Copy, Debug, PartialEq, Eq, Structural)]
pub struct Event {
    pub fd: i32,
    pub filter: Filter,
}

} // verus!

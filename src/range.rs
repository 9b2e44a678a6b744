use vstd::prelude::*;
use std::cmp::Ordering;

verus! {

/// Half-open membership of `p` in a range from `lo` to an optional upper bound:
/// `lo <= p`, and `p < hi` when there is one.
pub open spec fn within(p: int, lo: int, hi: Option<i64>) -> bool {
    lo <= p && match hi {
        Some(h) => p < h,
        None => true,
    }
}

/// Strict order on upper bounds, where a missing bound lies above every finite one.
pub open spec fn bound_lt(a: Option<i64>, b: Option<i64>) -> bool {
    match (a, b) {
        (Some(x), Some(y)) => x < y,
        (Some(_), None) => true,
        _ => false,
    }
}

/// The tighter (lower) of two upper bounds.
pub open spec fn min_bound(a: Option<i64>, b: Option<i64>) -> Option<i64> {
    if bound_lt(a, b) {
        a
    } else {
        b
    }
}

pub open spec fn max_start(a: i64, b: i64) -> i64 {
    if a >= b {
        a
    } else {
        b
    }
}

/// Two ranges overlap when the start of either lies inside the other.
pub open spec fn overlap_of(lo1: i64, hi1: Option<i64>, lo2: i64, hi2: Option<i64>) -> bool {
    within(lo2 as int, lo1 as int, hi1) || within(lo1 as int, lo2 as int, hi2)
}

/// The bounds of the intersection: the later start and the earlier end, or
/// nothing when that start is not strictly below that end.
pub open spec fn meet_of(lo1: i64, hi1: Option<i64>, lo2: i64, hi2: Option<i64>) -> Option<(i64, Option<i64>)> {
    let lo = max_start(lo1, lo2);
    let hi = min_bound(hi1, hi2);
    if bound_lt(Some(lo), hi) {
        Some((lo, hi))
    } else {
        None
    }
}

pub open spec fn point_of(o: Option<&i64>) -> Option<i64> {
    match o {
        Some(t) => Some(*t),
        None => None,
    }
}

/// Compares two optional points, where a missing point lies above every present one.
pub fn option_cmp(first: Option<&i64>, second: Option<&i64>) -> (r: Ordering)
    ensures
        (r == Ordering::Less) == bound_lt(point_of(first), point_of(second)),
        (r == Ordering::Greater) == bound_lt(point_of(second), point_of(first)),
{
    match first {
        Some(t) => match second {
            Some(o) => {
                if *t < *o {
                    Ordering::Less
                } else if *t > *o {
                    Ordering::Greater
                } else {
                    Ordering::Equal
                }
            },
            None => Ordering::Less,
        },
        None => match second {
            Some(_) => Ordering::Greater,
            None => Ordering::Equal,
        },
    }
}

/// A range of instants (seconds), half-open: its start is in it, its end is not.
pub trait Range: Sized {
    spec fn lo(&self) -> i64;

    spec fn hi(&self) -> Option<i64>;

    /// Which upper bounds a range of this kind can be built with.
    spec fn admits(end: Option<i64>) -> bool;

    proof fn lemma_admits(&self)
        ensures
            Self::admits(self.hi()),
    ;

    fn start(&self) -> (r: i64)
        ensures
            r == self.lo(),
    ;

    fn end(&self) -> (r: Option<i64>)
        ensures
            r == self.hi(),
    ;

    fn new_range(start: &i64, end: &Option<i64>) -> (r: Self)
        requires
            Self::admits(*end),
        ensures
            r.lo() == *start,
            r.hi() == *end,
    ;

    fn contains(&self, ot: Option<&i64>) -> (r: bool)
        ensures
            r == match ot {
                Some(t) => within(*t as int, self.lo() as int, self.hi()),
                None => false,
            },
    {
        match ot {
            Some(t) => match self.end() {
                Some(et) => *t < et && *t >= self.start(),
                None => *t >= self.start(),
            },
            None => false,
        }
    }

    fn overlaps(&self, r2: &Self) -> (r: bool)
        ensures
            r == overlap_of(self.lo(), self.hi(), r2.lo(), r2.hi()),
    {
        let s2 = r2.start();
        let s1 = self.start();
        self.contains(Some(&s2)) || r2.contains(Some(&s1))
    }
}

/// The intersection of two ranges of one kind: the later start and the earlier
/// end, or nothing when that start is not strictly below that end.
pub fn intersection_of<R: Range>(a: &R, b: &R) -> (r: Option<R>)
    ensures
        match meet_of(a.lo(), a.hi(), b.lo(), b.hi()) {
            Some((lo, hi)) => r is Some && r->Some_0.lo() == lo && r->Some_0.hi() == hi,
            None => r is None,
        },
{
    let s1 = a.start();
    let s2 = b.start();
    let e1 = a.end();
    let e2 = b.end();
    let lower_bound = if s1 >= s2 {
        s1
    } else {
        s2
    };
    let upper_bound = match option_cmp(e1.as_ref(), e2.as_ref()) {
        Ordering::Less => e1,
        _ => e2,
    };
    match option_cmp(Some(&lower_bound), upper_bound.as_ref()) {
        Ordering::Less => {
            proof {
                a.lemma_admits();
                b.lemma_admits();
            }
            Some(R::new_range(&lower_bound, &upper_bound))
        },
        _ => None,
    }
}

/// A range with both ends: it holds `p` exactly when `start <= p < end`.
#[derive(Clone, Copy, Debug, PartialEq, Eq)]
pub struct ClosedRange<T> {
    pub start: T,
    pub end: T,
}

impl Range for ClosedRange<i64> {
    open spec fn lo(&self) -> i64 {
        self.start
    }

    open spec fn hi(&self) -> Option<i64> {
        Some(self.end)
    }

    open spec fn admits(e: Option<i64>) -> bool {
        e is Some
    }

    proof fn lemma_admits(&self) {
    }

    fn start(&self) -> (r: i64) {
        self.start
    }

    fn end(&self) -> (r: Option<i64>) {
        Some(self.end)
    }

    /// Prefer `new_closed_range`.
    fn new_range(start: &i64, end: &Option<i64>) -> (r: ClosedRange<i64>) {
        ClosedRange { start: *start, end: end.unwrap() }
    }
}

impl ClosedRange<i64> {
    pub fn intersection(&self, other: &Self) -> (r: Option<Self>)
        ensures
            match meet_of(self.lo(), self.hi(), other.lo(), other.hi()) {
                Some((lo, hi)) => r is Some && r->Some_0.lo() == lo && r->Some_0.hi() == hi,
                None => r is None,
            },
    {
        intersection_of(self, other)
    }

    pub fn new_closed_range(start: &i64, end: &i64) -> (r: ClosedRange<i64>)
        ensures
            r == (ClosedRange { start: *start, end: *end }),
    {
        ClosedRange::<i64>::new_range(start, &Some(*end))
    }
}

/// A range whose end may be missing, in which case it runs on without bound.
#[derive(Clone, Copy, Debug, PartialEq, Eq)]
pub struct OpenRange<T> {
    pub start: T,
    pub end: Option<T>,
}

impl Range for OpenRange<i64> {
    open spec fn lo(&self) -> i64 {
        self.start
    }

    open spec fn hi(&self) -> Option<i64> {
        self.end
    }

    open spec fn admits(e: Option<i64>) -> bool {
        true
    }

    proof fn lemma_admits(&self) {
    }

    fn start(&self) -> (r: i64) {
        self.start
    }

    fn end(&self) -> (r: Option<i64>) {
        self.end
    }

    fn new_range(start: &i64, end: &Option<i64>) -> (r: OpenRange<i64>) {
        OpenRange { start: *start, end: *end }
    }
}

impl OpenRange<i64> {
    pub fn intersection(&self, other: &Self) -> (r: Option<Self>)
        ensures
            match meet_of(self.lo(), self.hi(), other.lo(), other.hi()) {
                Some((lo, hi)) => r is Some && r->Some_0.lo() == lo && r->Some_0.hi() == hi,
                None => r is None,
            },
    {
        intersection_of(self, other)
    }

    pub fn new_open_range(start: &i64, end: &Option<i64>) -> (r: OpenRange<i64>)
        ensures
            r == (OpenRange { start: *start, end: *end }),
    {
        OpenRange::<i64>::new_range(start, end)
    }
}

/// A closed range holds a point exactly when `start <= p < end`.
pub proof fn lemma_closed_contains(r: ClosedRange<i64>, p: i64)
    ensures
        within(p as int, r.lo() as int, r.hi()) == (r.start <= p && p < r.end),
{
}

/// Overlap is symmetric.
pub proof fn lemma_overlaps_symmetric<R: Range>(a: R, b: R)
    ensures
        overlap_of(a.lo(), a.hi(), b.lo(), b.hi()) == overlap_of(b.lo(), b.hi(), a.lo(), a.hi()),
{
}

/// For overlapping ranges, the intersection does not depend on the order of the
/// arguments, and each of its points lies in both ranges.
pub proof fn lemma_intersection_commutes<R: Range>(a: R, b: R)
    requires
        overlap_of(a.lo(), a.hi(), b.lo(), b.hi()),
    ensures
        meet_of(a.lo(), a.hi(), b.lo(), b.hi()) == meet_of(b.lo(), b.hi(), a.lo(), a.hi()),
        match meet_of(a.lo(), a.hi(), b.lo(), b.hi()) {
            Some((lo, hi)) => forall|p: int|
                within(p, lo as int, hi) ==> within(p, a.lo() as int, a.hi()) && within(
                    p,
                    b.lo() as int,
                    b.hi(),
                ),
            None => true,
        },
{
}

/// Two closed ranges have equal intersections both ways round.
pub proof fn lemma_closed_intersection_values(a: ClosedRange<i64>, b: ClosedRange<i64>, r1: ClosedRange<i64>, r2: ClosedRange<i64>)
    requires
        meet_of(a.lo(), a.hi(), b.lo(), b.hi()) == Some((r1.lo(), r1.hi())),
        meet_of(b.lo(), b.hi(), a.lo(), a.hi()) == Some((r2.lo(), r2.hi())),
    ensures
        r1 == r2,
{
}

} // verus!

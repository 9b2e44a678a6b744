use vstd::prelude::*;
use crate::range::{ClosedRange, OpenRange, Range, overlap_of, meet_of};
use crate::time::{TimeOfDayDuration, TIME_LIMIT, valid_offset};
use crate::users::{User, copy_users};

verus! {

/// A concrete coverage window, `[start, end)` in UTC seconds, with the people on duty.
#[derive(Debug, Clone, PartialEq, Eq)]
pub struct Entry {
    pub range: ClosedRange<i64>,
    pub providers: Vec<User>,
}

/// `p` lies in the half-open range.
pub open spec fn holds(r: ClosedRange<i64>, p: int) -> bool {
    r.start <= p && p < r.end
}

pub open spec fn nonempty(e: Entry) -> bool {
    e.range.start < e.range.end
}

/// The two ranges share no point.
pub open spec fn apart(a: ClosedRange<i64>, b: ClosedRange<i64>) -> bool {
    a.end <= b.start || b.end <= a.start
}

pub open spec fn length_of(r: ClosedRange<i64>) -> int {
    r.end - r.start
}

/// Every entry is non-empty and no two entries overlap.
pub open spec fn well_formed(s: Seq<Entry>) -> bool {
    &&& forall|i: int| 0 <= i < s.len() ==> nonempty(#[trigger] s[i])
    &&& forall|i: int, j: int|
        0 <= i < s.len() && 0 <= j < s.len() && i != j ==> apart(#[trigger] s[i].range, #[trigger] s[j].range)
}

/// Some entry of `s` holds `p`.
pub open spec fn covered(s: Seq<Entry>, p: int) -> bool {
    exists|i: int| 0 <= i < s.len() && holds(#[trigger] s[i].range, p)
}

/// The providers on duty at `p`: the provider lists of all entries holding `p`,
/// concatenated from the last entry to the first.
pub open spec fn coverage(s: Seq<Entry>, p: int) -> Seq<User>
    decreases s.len(),
{
    if s.len() == 0 {
        seq![]
    } else {
        let e = s.last();
        (if holds(e.range, p) {
            e.providers@
        } else {
            seq![]
        }) + coverage(s.drop_last(), p)
    }
}

/// Two non-empty ranges overlap exactly when they share a point.
proof fn lemma_overlap_apart(a: ClosedRange<i64>, b: ClosedRange<i64>)
    requires
        a.start < a.end,
        b.start < b.end,
    ensures
        overlap_of(a.lo(), a.hi(), b.lo(), b.hi()) == !apart(a, b),
{
}

proof fn lemma_coverage_none(s: Seq<Entry>, p: int)
    requires
        !covered(s, p),
    ensures
        coverage(s, p) == Seq::<User>::empty(),
    decreases s.len(),
{
    if s.len() > 0 {
        let t = s.drop_last();
        assert forall|i: int| 0 <= i < t.len() implies !holds(#[trigger] t[i].range, p) by {
            assert(t[i] == s[i]);
        }
        lemma_coverage_none(t, p);
        assert(!holds(s[s.len() - 1].range, p));
        assert(coverage(s, p) =~= Seq::<User>::empty());
    }
}

/// In a well-formed list, the providers at a point are those of the one entry holding it.
proof fn lemma_coverage_one(s: Seq<Entry>, i: int, p: int)
    requires
        well_formed(s),
        0 <= i < s.len(),
        holds(s[i].range, p),
    ensures
        coverage(s, p) == s[i].providers@,
    decreases s.len(),
{
    let t = s.drop_last();
    let n = s.len() - 1;
    if i == n {
        assert forall|j: int| 0 <= j < t.len() implies !holds(#[trigger] t[j].range, p) by {
            assert(t[j] == s[j]);
            assert(apart(s[j].range, s[n].range));
        }
        lemma_coverage_none(t, p);
        assert(coverage(s, p) =~= s[i].providers@);
    } else {
        assert(apart(s[i].range, s[n].range));
        assert(!holds(s[n].range, p));
        assert(well_formed(t)) by {
            assert forall|j: int| 0 <= j < t.len() implies nonempty(#[trigger] t[j]) by {
                assert(t[j] == s[j]);
            }
            assert forall|j: int, k: int| 0 <= j < t.len() && 0 <= k < t.len() && j != k implies apart(
                #[trigger] t[j].range,
                #[trigger] t[k].range,
            ) by {
                assert(t[j] == s[j]);
                assert(t[k] == s[k]);
            }
        }
        assert(t[i] == s[i]);
        lemma_coverage_one(t, i, p);
        assert(coverage(s, p) =~= coverage(t, p));
    }
}

proof fn lemma_covered_concat(s: Seq<Entry>, t: Seq<Entry>, p: int)
    ensures
        covered(s + t, p) == (covered(s, p) || covered(t, p)),
{
    let u = s + t;
    if covered(u, p) {
        let i = choose|i: int| 0 <= i < u.len() && holds(#[trigger] u[i].range, p);
        if i < s.len() {
            assert(u[i] == s[i]);
        } else {
            assert(u[i] == t[i - s.len()]);
        }
    }
    if covered(s, p) {
        let i = choose|i: int| 0 <= i < s.len() && holds(#[trigger] s[i].range, p);
        assert(u[i] == s[i]);
    }
    if covered(t, p) {
        let i = choose|i: int| 0 <= i < t.len() && holds(#[trigger] t[i].range, p);
        assert(u[i + s.len()] == t[i]);
    }
}

/// `inner` lies within `outer`.
pub open spec fn inside(inner: ClosedRange<i64>, outer: ClosedRange<i64>) -> bool {
    outer.start <= inner.start && inner.end <= outer.end
}

proof fn lemma_covered_remove(s: Seq<Entry>, o: int, p: int)
    requires
        0 <= o < s.len(),
    ensures
        covered(s, p) == (covered(s.remove(o), p) || holds(s[o].range, p)),
{
    let t = s.remove(o);
    if covered(s, p) {
        let i = choose|i: int| 0 <= i < s.len() && holds(#[trigger] s[i].range, p);
        if i < o {
            assert(t[i] == s[i]);
        } else if i > o {
            assert(t[i - 1] == s[i]);
        }
    }
    if covered(t, p) {
        let i = choose|i: int| 0 <= i < t.len() && holds(#[trigger] t[i].range, p);
        if i < o {
            assert(t[i] == s[i]);
        } else {
            assert(t[i] == s[i + 1]);
        }
    }
}

proof fn lemma_well_formed_remove(s: Seq<Entry>, o: int)
    requires
        well_formed(s),
        0 <= o < s.len(),
    ensures
        well_formed(s.remove(o)),
        forall|i: int| 0 <= i < s.remove(o).len() ==> apart(#[trigger] s.remove(o)[i].range, s[o].range),
{
    let t = s.remove(o);
    assert forall|i: int| 0 <= i < t.len() implies #[trigger] t[i] == s[if i < o { i } else { i + 1 }] by {
    }
    assert forall|i: int, j: int| 0 <= i < t.len() && 0 <= j < t.len() && i != j implies apart(
        #[trigger] t[i].range,
        #[trigger] t[j].range,
    ) by {
        assert(t[i] == s[if i < o { i } else { i + 1 }]);
        assert(t[j] == s[if j < o { j } else { j + 1 }]);
    }
}

/// Two well-formed lists whose entries are pairwise apart form a well-formed list.
proof fn lemma_well_formed_concat(s: Seq<Entry>, t: Seq<Entry>)
    requires
        well_formed(s),
        well_formed(t),
        forall|i: int, j: int| 0 <= i < s.len() && 0 <= j < t.len() ==> apart(#[trigger] s[i].range, #[trigger] t[j].range),
    ensures
        well_formed(s + t),
{
    let u = s + t;
    assert forall|i: int| 0 <= i < u.len() implies nonempty(#[trigger] u[i]) by {
        if i < s.len() {
            assert(u[i] == s[i]);
        } else {
            assert(u[i] == t[i - s.len()]);
        }
    }
    assert forall|i: int, j: int| 0 <= i < u.len() && 0 <= j < u.len() && i != j implies apart(
        #[trigger] u[i].range,
        #[trigger] u[j].range,
    ) by {
        if i < s.len() {
            assert(u[i] == s[i]);
        } else {
            assert(u[i] == t[i - s.len()]);
        }
        if j < s.len() {
            assert(u[j] == s[j]);
        } else {
            assert(u[j] == t[j - s.len()]);
        }
        if i < s.len() && j >= s.len() {
            assert(apart(s[i].range, t[j - s.len()].range));
        }
        if j < s.len() && i >= s.len() {
            assert(apart(s[j].range, t[i - s.len()].range));
        }
    }
}

/// Concatenates two provider lists.
fn concat_users(a: &Vec<User>, b: &Vec<User>) -> (r: Vec<User>)
    ensures
        r@ == a@ + b@,
{
    let mut r = copy_users(a);
    let mut i: usize = 0;
    while i < b.len()
        invariant
            i <= b.len(),
            r@ == a@ + b@.subrange(0, i as int),
        decreases b.len() - i,
    {
        r.push(b[i].copy());
        i = i + 1;
        assert(r@ =~= a@ + b@.subrange(0, i as int));
    }
    assert(b@.subrange(0, b.len() as int) =~= b@);
    r
}

/// The index of the first entry of `list` whose range overlaps `r`.
fn first_overlap(list: &Vec<Entry>, r: &ClosedRange<i64>) -> (res: Option<usize>)
    ensures
        match res {
            Some(i) => i < list@.len() && overlap_of(list@[i as int].range.lo(), list@[i as int].range.hi(), r.lo(), r.hi())
                && forall|j: int| 0 <= j < i ==> !overlap_of(#[trigger] list@[j].range.lo(), list@[j].range.hi(), r.lo(), r.hi()),
            None => forall|j: int| 0 <= j < list@.len() ==> !overlap_of(#[trigger] list@[j].range.lo(), list@[j].range.hi(), r.lo(), r.hi()),
        },
{
    let mut i: usize = 0;
    while i < list.len()
        invariant
            i <= list@.len(),
            forall|j: int| 0 <= j < i ==> !overlap_of(#[trigger] list@[j].range.lo(), list@[j].range.hi(), r.lo(), r.hi()),
        decreases list.len() - i,
    {
        if list[i].range.overlaps(r) {
            return Some(i);
        }
        i = i + 1;
    }
    None
}

proof fn lemma_covered_push(s: Seq<Entry>, x: Entry, p: int)
    ensures
        covered(s.push(x), p) == (covered(s, p) || holds(x.range, p)),
{
    assert(s.push(x) =~= s + seq![x]);
    lemma_covered_concat(s, seq![x], p);
    if holds(x.range, p) {
        assert(holds(seq![x][0].range, p));
    }
}

/// An entry seen as its range and its providers.
pub type EntryView = (ClosedRange<i64>, Seq<User>);

/// A list of entries seen as ranges with providers.
pub open spec fn view_seq(s: Seq<Entry>) -> Seq<EntryView> {
    s.map_values(|e: Entry| entry_view(e))
}

/// `y` lies within the range of some entry of `s`.
pub open spec fn within_some(y: ClosedRange<i64>, s: Seq<Entry>) -> bool {
    exists|z: int| 0 <= z < s.len() && inside(y, #[trigger] s[z].range)
}

pub open spec fn all_within(s: Seq<Entry>, t: Seq<Entry>) -> bool {
    forall|k: int| 0 <= k < s.len() ==> within_some(#[trigger] s[k].range, t)
}

pub open spec fn all_apart(s: Seq<Entry>, r: ClosedRange<i64>) -> bool {
    forall|k: int| 0 <= k < s.len() ==> apart(#[trigger] s[k].range, r)
}

/// The index of the first range of `l` that shares a point with `r`, or
/// `l.len()` when there is none.
pub open spec fn first_meeting(l: Seq<EntryView>, r: ClosedRange<i64>) -> int
    decreases l.len(),
{
    if l.len() == 0 {
        0
    } else {
        let k = first_meeting(l.drop_last(), r);
        if k < l.len() - 1 {
            k
        } else if !apart(l.last().0, r) {
            l.len() - 1
        } else {
            l.len() as int
        }
    }
}

/// Merges `x` into `l`. When no entry of `l` meets `x`, `x` is appended.
/// Otherwise the first entry `a` that meets it is taken out, and the union
/// of the two is cut at the four boundaries: the leading part (of whichever
/// starts first), the common part (providers of `x`, then of `a`), and the
/// trailing part (of whichever ends last), in that order. A part of `a` is
/// appended; a part of `x` is merged in the same way.
#[verifier::opaque]
pub open spec fn merged(l: Seq<EntryView>, x: EntryView) -> Seq<EntryView>
    decreases (if x.0.start < x.0.end { x.0.end - x.0.start } else { 0 }),
{
    let o = first_meeting(l, x.0);
    if !(x.0.start < x.0.end) || !(0 <= o < l.len()) || apart(l[o].0, x.0) {
        l.push(x)
    } else {
        let a = l[o];
        let xs = x.0.start;
        let xe = x.0.end;
        let as_ = a.0.start;
        let ae = a.0.end;
        let l1 = l.remove(o);
        let l2 = if xs < as_ {
            merged(l1, (ClosedRange { start: xs, end: as_ }, x.1))
        } else if as_ < xs {
            l1.push((ClosedRange { start: as_, end: xs }, a.1))
        } else {
            l1
        };
        let l3 = l2.push(
            (ClosedRange { start: if xs < as_ { as_ } else { xs }, end: if xe < ae { xe } else { ae } }, x.1 + a.1),
        );
        if ae < xe {
            merged(l3, (ClosedRange { start: ae, end: xe }, x.1))
        } else if xe < ae {
            l3.push((ClosedRange { start: xe, end: ae }, a.1))
        } else {
            l3
        }
    }
}

/// Folds every entry of `s`, in order, into an empty list.
pub open spec fn fold_merge(s: Seq<EntryView>) -> Seq<EntryView>
    decreases s.len(),
{
    if s.len() == 0 {
        seq![]
    } else {
        merged(fold_merge(s.drop_last()), s.last())
    }
}

proof fn lemma_first_meeting(v: Seq<EntryView>, r: ClosedRange<i64>, o: int)
    requires
        0 <= o <= v.len(),
        forall|j: int| 0 <= j < o ==> apart(#[trigger] v[j].0, r),
        o < v.len() ==> !apart(v[o].0, r),
    ensures
        first_meeting(v, r) == o,
    decreases v.len(),
{
    if v.len() > 0 {
        let w = v.drop_last();
        assert forall|j: int| 0 <= j < (if o < v.len() - 1 { o } else { w.len() as int }) implies apart(#[trigger] w[j].0, r) by {
            assert(w[j] == v[j]);
        }
        if o < v.len() - 1 {
            assert(w[o] == v[o]);
            lemma_first_meeting(w, r, o);
        } else {
            lemma_first_meeting(w, r, w.len() as int);
        }
    }
}

proof fn lemma_within_trans(s: Seq<Entry>, t: Seq<Entry>, u: Seq<Entry>)
    requires
        all_within(s, t),
        all_within(t, u),
    ensures
        all_within(s, u),
{
    assert forall|k: int| 0 <= k < s.len() implies within_some(#[trigger] s[k].range, u) by {
        assert(within_some(s[k].range, t));
        let z = choose|z: int| 0 <= z < t.len() && inside(s[k].range, #[trigger] t[z].range);
        assert(within_some(t[z].range, u));
        let w = choose|w: int| 0 <= w < u.len() && inside(t[z].range, #[trigger] u[w].range);
        assert(inside(s[k].range, u[w].range));
    }
}

proof fn lemma_within_apart(s: Seq<Entry>, t: Seq<Entry>, r: ClosedRange<i64>)
    requires
        all_within(s, t),
        all_apart(t, r),
    ensures
        all_apart(s, r),
{
    assert forall|k: int| 0 <= k < s.len() implies apart(#[trigger] s[k].range, r) by {
        assert(within_some(s[k].range, t));
        let z = choose|z: int| 0 <= z < t.len() && inside(s[k].range, #[trigger] t[z].range);
        assert(apart(t[z].range, r));
    }
}

/// Every entry of `s` lies within an entry of `s` followed by more entries.
proof fn lemma_within_self(s: Seq<Entry>, t: Seq<Entry>)
    ensures
        all_within(s, s + t),
{
    assert forall|k: int| 0 <= k < s.len() implies within_some(#[trigger] s[k].range, s + t) by {
        assert((s + t)[k] == s[k]);
    }
}

proof fn lemma_push_well_formed(s: Seq<Entry>, q: Entry)
    requires
        well_formed(s),
        nonempty(q),
        all_apart(s, q.range),
    ensures
        well_formed(s.push(q)),
{
    assert(s.push(q) =~= s + seq![q]);
    lemma_well_formed_concat(s, seq![q]);
}

proof fn lemma_coverage_remove(s: Seq<Entry>, o: int, p: int)
    requires
        well_formed(s),
        0 <= o < s.len(),
    ensures
        coverage(s.remove(o), p) == (if holds(s[o].range, p) {
            Seq::<User>::empty()
        } else {
            coverage(s, p)
        }),
        covered(s, p) == (covered(s.remove(o), p) || holds(s[o].range, p)),
{
    let t = s.remove(o);
    lemma_well_formed_remove(s, o);
    lemma_covered_remove(s, o, p);
    if covered(t, p) {
        let i = choose|i: int| 0 <= i < t.len() && holds(#[trigger] t[i].range, p);
        let k = if i < o { i } else { i + 1 };
        assert(t[i] == s[k]);
        lemma_coverage_one(t, i, p);
        lemma_coverage_one(s, k, p);
        assert(apart(s[k].range, s[o].range));
    } else {
        lemma_coverage_none(t, p);
        if !holds(s[o].range, p) {
            lemma_coverage_none(s, p);
        }
    }
}

/// The leading part of the union of `x` and the entry `a` it meets.
pub open spec fn lead_view(x: EntryView, a: EntryView) -> Seq<EntryView> {
    if x.0.start < a.0.start {
        seq![(ClosedRange { start: x.0.start, end: a.0.start }, x.1)]
    } else if a.0.start < x.0.start {
        seq![(ClosedRange { start: a.0.start, end: x.0.start }, a.1)]
    } else {
        seq![]
    }
}

/// The common part of `x` and the entry `a` it meets.
pub open spec fn common_view(x: EntryView, a: EntryView) -> EntryView {
    (ClosedRange {
        start: if x.0.start < a.0.start { a.0.start } else { x.0.start },
        end: if x.0.end < a.0.end { x.0.end } else { a.0.end },
    }, x.1 + a.1)
}

proof fn lemma_merged_none(l: Seq<EntryView>, x: EntryView)
    requires
        first_meeting(l, x.0) == l.len(),
    ensures
        merged(l, x) == l.push(x),
{
    reveal(merged);
}

/// One step of `merged`: `l2` is `l` without `a` after the leading part,
/// `l3` adds the common part, and the trailing part follows.
proof fn lemma_merged_step(l: Seq<EntryView>, x: EntryView, o: int, l2: Seq<EntryView>)
    requires
        x.0.start < x.0.end,
        first_meeting(l, x.0) == o,
        0 <= o < l.len(),
        !apart(l[o].0, x.0),
        l2 == (if x.0.start < l[o].0.start {
            merged(l.remove(o), lead_view(x, l[o])[0])
        } else {
            l.remove(o) + lead_view(x, l[o])
        }),
    ensures
        merged(l, x) == (if l[o].0.end < x.0.end {
            merged(l2.push(common_view(x, l[o])), (ClosedRange { start: l[o].0.end, end: x.0.end }, x.1))
        } else if x.0.end < l[o].0.end {
            l2.push(common_view(x, l[o])).push((ClosedRange { start: x.0.end, end: l[o].0.end }, l[o].1))
        } else {
            l2.push(common_view(x, l[o]))
        }),
{
    reveal(merged);
    let l1 = l.remove(o);
    if !(x.0.start < l[o].0.start) {
        if l[o].0.start < x.0.start {
            assert(l1 + lead_view(x, l[o]) =~= l1.push(lead_view(x, l[o])[0]));
        } else {
            assert(l1 + lead_view(x, l[o]) =~= l1);
        }
    }
}

/// What each point gets after one split step.
proof fn lemma_split_cover(
    l: Seq<Entry>,
    e: Entry,
    o: int,
    leads: Seq<Entry>,
    l2: Seq<Entry>,
    mid: Entry,
    tails: Seq<Entry>,
    r: Seq<Entry>,
)
    requires
        well_formed(l),
        0 <= o < l.len(),
        nonempty(e),
        !apart(l[o].range, e.range),
        view_seq(leads) == lead_view(entry_view(e), entry_view(l[o])),
        forall|p: int| coverage(l2, p) == coverage(l.remove(o) + leads, p) && covered(l2, p) == covered(l.remove(o) + leads, p),
        entry_view(mid) == common_view(entry_view(e), entry_view(l[o])),
        tails.len() <= 1,
        tails.len() == 1 <==> l[o].range.end != e.range.end,
        l[o].range.end < e.range.end ==> tails[0].range == (ClosedRange { start: l[o].range.end, end: e.range.end }) && tails[0].providers@ == e.providers@,
        e.range.end < l[o].range.end ==> tails[0].range == (ClosedRange { start: e.range.end, end: l[o].range.end }) && tails[0].providers@ == l[o].providers@,
        forall|p: int| coverage(r, p) == coverage(l2.push(mid) + tails, p) && covered(r, p) == covered(l2.push(mid) + tails, p),
    ensures
        forall|p: int| coverage(r, p) == coverage(l.push(e), p) && covered(r, p) == covered(l.push(e), p),
{
    let a = l[o];
    let l1 = l.remove(o);
    let l3 = l2.push(mid);
    assert(view_seq(leads).len() == leads.len());
    if leads.len() == 1 {
        assert(view_seq(leads)[0] == entry_view(leads[0]));
        assert(l1 + leads =~= l1.push(leads[0]));
    } else {
        assert(leads.len() == 0);
        assert(l1 + leads =~= l1);
    }
    if tails.len() == 1 {
        assert(l3 + tails =~= l3.push(tails[0]));
    } else {
        assert(l3 + tails =~= l3);
    }
    assert(mid.range == common_view(entry_view(e), entry_view(a)).0);
    assert(mid.providers@ == e.providers@ + a.providers@);
    assert forall|p: int| coverage(r, p) == coverage(l.push(e), p) && covered(r, p) == covered(l.push(e), p) by {
        lemma_coverage_remove(l, o, p);
        lemma_covered_push(l, e, p);
        lemma_coverage_push(l, e, p);
        lemma_covered_push(l2, mid, p);
        lemma_coverage_push(l2, mid, p);
        if holds(a.range, p) {
            lemma_coverage_one(l, o, p);
        }
        let c1 = coverage(l1, p);
        let lead_part = if leads.len() == 1 && holds(leads[0].range, p) { leads[0].providers@ } else { Seq::<User>::empty() };
        if leads.len() == 1 {
            lemma_covered_push(l1, leads[0], p);
            lemma_coverage_push(l1, leads[0], p);
        }
        assert(coverage(l2, p) == lead_part + c1);
        assert(covered(l2, p) == (covered(l1, p) || (leads.len() == 1 && holds(leads[0].range, p))));
        let mid_part = if holds(mid.range, p) { mid.providers@ } else { Seq::<User>::empty() };
        assert(coverage(l3, p) == mid_part + (lead_part + c1));
        let tail_part = if tails.len() == 1 && holds(tails[0].range, p) { tails[0].providers@ } else { Seq::<User>::empty() };
        if tails.len() == 1 {
            lemma_covered_push(l3, tails[0], p);
            lemma_coverage_push(l3, tails[0], p);
        }
        assert(coverage(r, p) == tail_part + (mid_part + (lead_part + c1)));
        assert(covered(r, p) == (covered(l1, p) || (leads.len() == 1 && holds(leads[0].range, p)) || holds(mid.range, p)
            || (tails.len() == 1 && holds(tails[0].range, p))));
        if holds(e.range, p) && holds(a.range, p) {
            assert(coverage(r, p) =~= e.providers@ + a.providers@);
        } else if holds(e.range, p) {
            assert(coverage(r, p) =~= e.providers@ + coverage(l, p));
        } else if holds(a.range, p) {
            assert(coverage(r, p) =~= a.providers@);
            assert(coverage(l.push(e), p) =~= a.providers@);
        } else {
            assert(coverage(r, p) =~= coverage(l, p));
        }
    }
}

/// Merges one entry into a list of non-overlapping entries by the rule of
/// `merged`: the result is exactly that list, so an entry that meets nothing
/// is appended, entries that do not meet the new one stay as they are, and
/// every result entry lies within one of the inputs. The result covers the
/// same points as the inputs, with the new entry's providers first.
#[verifier::rlimit(100)]
pub fn merge_into(entries: Vec<Entry>, entry: Entry) -> (r: Vec<Entry>)
    requires
        well_formed(entries@),
        nonempty(entry),
    ensures
        view_seq(r@) == merged(view_seq(entries@), entry_view(entry)),
        well_formed(r@),
        forall|p: int| covered(r@, p) == covered(entries@.push(entry), p),
        forall|p: int| #[trigger] coverage(r@, p) == coverage(entries@.push(entry), p),
        all_within(r@, entries@.push(entry)),
        forall|i: int| 0 <= i < entries@.len() && apart(#[trigger] entries@[i].range, entry.range) ==> r@.contains(entries@[i]),
        all_apart(entries@, entry.range) ==> r@ == entries@.push(entry),
    decreases length_of(entry.range),
{
    let ghost l = entries@;
    let ghost e = entry;
    let ghost v = view_seq(l);
    let ghost le = l.push(e);
    let mut list = entries;
    proof {
        assert(le =~= l + seq![e]);
        lemma_within_self(l, seq![e]);
        assert(le[l.len() as int] == e);
    }
    match first_overlap(&list, &entry.range) {
        None => {
            proof {
                assert forall|j: int| 0 <= j < l.len() implies apart(#[trigger] l[j].range, e.range) by {
                    lemma_overlap_apart(l[j].range, e.range);
                }
                lemma_first_meeting(v, e.range, v.len() as int);
                lemma_merged_none(v, entry_view(e));
                lemma_push_well_formed(l, e);
                assert(view_seq(le) =~= v.push(entry_view(e)));
                assert forall|i: int| 0 <= i < l.len() && apart(#[trigger] l[i].range, e.range) implies le.contains(l[i]) by {
                    assert(le[i] == l[i]);
                }
                assert(all_within(le, le)) by {
                    assert forall|k: int| 0 <= k < le.len() implies within_some(#[trigger] le[k].range, le) by {
                        assert(inside(le[k].range, le[k].range));
                    }
                }
            }
            list.push(entry);
            list
        },
        Some(o) => {
            let ghost a = l[o as int];
            proof {
                lemma_overlap_apart(a.range, e.range);
                assert forall|j: int| 0 <= j < o implies apart(#[trigger] v[j].0, e.range) by {
                    lemma_overlap_apart(l[j].range, e.range);
                }
                lemma_first_meeting(v, e.range, o as int);
                lemma_well_formed_remove(l, o as int);
                assert(le[o as int] == a);
            }
            let a_entry = list.remove(o);
            let ghost l1 = list@;
            proof {
                assert(view_seq(l1) =~= v.remove(o as int));
                assert forall|i: int| 0 <= i < l1.len() implies #[trigger] l1[i] == l[if i < o { i } else { i + 1 }] by {}
                assert(all_within(l1, le)) by {
                    assert forall|i: int| 0 <= i < l1.len() implies within_some(#[trigger] l1[i].range, le) by {
                        let k = if i < o { i } else { i + 1 };
                        assert(le[k] == l[k]);
                        assert(inside(l1[i].range, le[k].range));
                    }
                }
            }
            let xs = entry.range.start;
            let xe = entry.range.end;
            let as_ = a_entry.range.start;
            let ae = a_entry.range.end;
            let b1 = if xs < as_ { as_ } else { xs };
            let b2 = if xe < ae { xe } else { ae };
            let ghost mut leads: Seq<Entry> = seq![];
            if xs < as_ {
                let lead = Entry { range: ClosedRange { start: xs, end: as_ }, providers: copy_users(&entry.providers) };
                proof {
                    leads = seq![lead];
                    assert(l1.push(lead) =~= l1 + leads);
                }
                list = merge_into(list, lead);
                proof {
                    assert forall|i: int| 0 <= i < l1.len() && apart(#[trigger] l1[i].range, e.range) implies list@.contains(l1[i]) by {
                        assert(apart(l1[i].range, lead.range));
                    }
                }
            } else if as_ < xs {
                let lead = Entry { range: ClosedRange { start: as_, end: xs }, providers: copy_users(&a_entry.providers) };
                proof {
                    leads = seq![lead];
                    assert(l1.push(lead) =~= l1 + leads);
                    lemma_push_well_formed(l1, lead);
                    lemma_within_self(l1 + leads, seq![]);
                    assert(l1 + leads + seq![] =~= l1 + leads);
                    assert forall|i: int| 0 <= i < l1.len() && apart(#[trigger] l1[i].range, e.range) implies (l1 + leads).contains(l1[i]) by {
                        assert((l1 + leads)[i] == l1[i]);
                    }
                }
                list.push(lead);
            } else {
                proof {
                    assert(l1 + leads =~= l1);
                    lemma_within_self(l1, seq![]);
                    assert(l1 + seq![] =~= l1);
                    assert forall|i: int| 0 <= i < l1.len() && apart(#[trigger] l1[i].range, e.range) implies l1.contains(l1[i]) by {}
                }
            }
            let ghost src2 = l1 + leads;
            let ghost l2 = list@;
            proof {
                assert(view_seq(leads) =~= lead_view(entry_view(e), entry_view(a)));
                assert(view_seq(l2) == (if xs < as_ {
                    merged(v.remove(o as int), lead_view(entry_view(e), entry_view(a))[0])
                } else {
                    v.remove(o as int) + lead_view(entry_view(e), entry_view(a))
                })) by {
                    if xs < as_ {
                        assert(entry_view(leads[0]) == lead_view(entry_view(e), entry_view(a))[0]);
                    } else {
                        assert(view_seq(l1 + leads) =~= view_seq(l1) + view_seq(leads));
                    }
                }
                assert(all_within(src2, le)) by {
                    assert forall|k: int| 0 <= k < src2.len() implies within_some(#[trigger] src2[k].range, le) by {
                        if k < l1.len() {
                            assert(src2[k] == l1[k]);
                        } else {
                            assert(src2[k] == leads[0]);
                        }
                    }
                }
                assert(all_apart(src2, ClosedRange { start: b1, end: ae })) by {
                    assert forall|k: int| 0 <= k < src2.len() implies apart(#[trigger] src2[k].range, ClosedRange { start: b1, end: ae }) by {
                        if k < l1.len() {
                            assert(src2[k] == l1[k]);
                            assert(apart(l1[k].range, a.range));
                        } else {
                            assert(src2[k] == leads[0]);
                        }
                    }
                }
                lemma_within_apart(l2, src2, ClosedRange { start: b1, end: ae });
                lemma_within_trans(l2, src2, le);
            }
            let mid = Entry { range: ClosedRange { start: b1, end: b2 }, providers: concat_users(&entry.providers, &a_entry.providers) };
            proof {
                lemma_push_well_formed(l2, mid);
            }
            list.push(mid);
            let ghost l3 = list@;
            proof {
                assert(view_seq(l3) =~= view_seq(l2).push(entry_view(mid)));
                assert(all_within(l3, le)) by {
                    assert forall|k: int| 0 <= k < l3.len() implies within_some(#[trigger] l3[k].range, le) by {
                        if k < l2.len() {
                            assert(l3[k] == l2[k]);
                        } else {
                            assert(inside(mid.range, le[l.len() as int].range));
                        }
                    }
                }
                assert(all_apart(l3, ClosedRange { start: b2, end: ae })) by {
                    assert forall|k: int| 0 <= k < l3.len() implies apart(#[trigger] l3[k].range, ClosedRange { start: b2, end: ae }) by {
                        if k < l2.len() {
                            assert(l3[k] == l2[k]);
                            assert(apart(l2[k].range, ClosedRange { start: b1, end: ae }));
                        }
                    }
                }
            }
            let ghost mut tails: Seq<Entry> = seq![];
            if ae < xe {
                let tail = Entry { range: ClosedRange { start: ae, end: xe }, providers: copy_users(&entry.providers) };
                proof {
                    tails = seq![tail];
                    assert(l3.push(tail) =~= l3 + tails);
                    assert(inside(tail.range, le[l.len() as int].range));
                }
                list = merge_into(list, tail);
                proof {
                    assert forall|i: int| 0 <= i < l3.len() && apart(#[trigger] l3[i].range, e.range) implies list@.contains(l3[i]) by {
                        assert(apart(l3[i].range, tail.range));
                    }
                }
            } else if xe < ae {
                let tail = Entry { range: ClosedRange { start: xe, end: ae }, providers: copy_users(&a_entry.providers) };
                proof {
                    tails = seq![tail];
                    assert(l3.push(tail) =~= l3 + tails);
                    lemma_push_well_formed(l3, tail);
                    lemma_within_self(l3 + tails, seq![]);
                    assert(l3 + tails + seq![] =~= l3 + tails);
                    assert forall|i: int| 0 <= i < l3.len() && apart(#[trigger] l3[i].range, e.range) implies (l3 + tails).contains(l3[i]) by {
                        assert((l3 + tails)[i] == l3[i]);
                    }
                    assert(inside(tail.range, le[o as int].range));
                }
                list.push(tail);
            } else {
                proof {
                    assert(l3 + tails =~= l3);
                    lemma_within_self(l3, seq![]);
                    assert(l3 + seq![] =~= l3);
                    assert forall|i: int| 0 <= i < l3.len() && apart(#[trigger] l3[i].range, e.range) implies l3.contains(l3[i]) by {}
                }
            }
            proof {
                let r = list@;
                let src4 = l3 + tails;
                assert(all_within(src4, le)) by {
                    assert forall|k: int| 0 <= k < src4.len() implies within_some(#[trigger] src4[k].range, le) by {
                        if k < l3.len() {
                            assert(src4[k] == l3[k]);
                        } else {
                            assert(src4[k] == tails[0]);
                        }
                    }
                }
                lemma_within_trans(r, src4, le);
                assert forall|i: int| 0 <= i < l.len() && apart(#[trigger] l[i].range, e.range) implies r.contains(l[i]) by {
                    let k = if i < o { i } else { i - 1 };
                    assert(l1[k] == l[i]);
                    assert(l2.contains(l1[k]));
                    let m = choose|m: int| 0 <= m < l2.len() && l2[m] == l1[k];
                    assert(l3[m] == l2[m]);
                    assert(l3.contains(l[i]));
                }
                assert(!apart(l[o as int].range, e.range));
                lemma_split_cover(l, e, o as int, leads, l2, mid, tails, r);
                lemma_merged_step(v, entry_view(e), o as int, view_seq(l2));
                assert(view_seq(r) == merged(v, entry_view(e))) by {
                    if ae < xe {
                        assert(entry_view(tails[0]) == (ClosedRange { start: ae, end: xe }, e.providers@));
                    } else if xe < ae {
                        assert(view_seq(r) =~= view_seq(l3).push(entry_view(tails[0])));
                    }
                }
            }
            list
        },
    }
}

/// The entries of all lists, list after list.
pub open spec fn flat(s: Seq<Vec<Entry>>) -> Seq<Entry>
    decreases s.len(),
{
    if s.len() == 0 {
        seq![]
    } else {
        flat(s.drop_last()) + s.last()@
    }
}

proof fn lemma_coverage_push(s: Seq<Entry>, x: Entry, p: int)
    ensures
        coverage(s.push(x), p) == (if holds(x.range, p) {
            x.providers@
        } else {
            seq![]
        }) + coverage(s, p),
{
    assert(s.push(x).drop_last() =~= s);
}

proof fn lemma_flat_split(s: Seq<Vec<Entry>>, i: int)
    requires
        0 <= i <= s.len(),
    ensures
        flat(s) == flat(s.subrange(0, i)) + flat(s.subrange(i, s.len() as int)),
    decreases s.len(),
{
    if i < s.len() {
        let d = s.drop_last();
        lemma_flat_split(d, i);
        assert(s.subrange(0, i) =~= d.subrange(0, i));
        let t = s.subrange(i, s.len() as int);
        assert(t.drop_last() =~= d.subrange(i, d.len() as int));
        assert(t.last() == s.last());
        assert(flat(s) =~= flat(s.subrange(0, i)) + flat(t));
    } else {
        assert(s.subrange(0, i) =~= s);
        assert(flat(s.subrange(i, s.len() as int)) =~= Seq::<Entry>::empty());
        assert(flat(s) =~= flat(s.subrange(0, i)) + flat(s.subrange(i, s.len() as int)));
    }
}

proof fn lemma_within_push(s: Seq<Entry>, t: Seq<Entry>, x: Entry)
    requires
        all_within(s, t),
    ensures
        all_within(s.push(x), t.push(x)),
{
    let u = t.push(x);
    assert forall|k: int| 0 <= k < s.push(x).len() implies within_some(#[trigger] s.push(x)[k].range, u) by {
        if k < s.len() {
            assert(s.push(x)[k] == s[k]);
            let z = choose|z: int| 0 <= z < t.len() && inside(s[k].range, #[trigger] t[z].range);
            assert(u[z] == t[z]);
        } else {
            assert(u[t.len() as int] == x);
        }
    }
}

/// Folds every entry of every list, in order, into one list of
/// non-overlapping entries with `merge_into`. The result is exactly the fold
/// of `merged`; inputs that do not overlap come back unchanged and in order;
/// each result entry lies within an input entry. It covers exactly the
/// points of the inputs, and at each point its providers are those of all
/// input entries there, the latest input first.
#[verifier::spinoff_prover]
#[verifier::rlimit(100)]
pub fn merge_entries(entries: Vec<Vec<Entry>>) -> (r: Vec<Entry>)
    requires
        forall|i: int, j: int| 0 <= i < entries@.len() && 0 <= j < entries@[i]@.len() ==> nonempty(#[trigger] entries@[i]@[j]),
    ensures
        well_formed(r@),
        forall|p: int| covered(r@, p) == covered(flat(entries@), p),
        forall|p: int| #[trigger] coverage(r@, p) == coverage(flat(entries@), p),
        view_seq(r@) == fold_merge(view_seq(flat(entries@))),
        all_within(r@, flat(entries@)),
        well_formed(flat(entries@)) ==> r@ == flat(entries@),
{
    let ghost orig = entries@;
    let mut new_entries: Vec<Entry> = Vec::new();
    let mut rest = entries;
    let ghost mut i: int = 0;
    proof {
        assert(orig.subrange(0, 0) =~= Seq::<Vec<Entry>>::empty());
        assert(orig.subrange(0, orig.len() as int) =~= orig);
    }
    while rest.len() > 0
        invariant
            0 <= i <= orig.len(),
            rest@ == orig.subrange(i, orig.len() as int),
            forall|a: int, b: int| 0 <= a < orig.len() && 0 <= b < orig[a]@.len() ==> nonempty(#[trigger] orig[a]@[b]),
            well_formed(new_entries@),
            forall|p: int| covered(new_entries@, p) == covered(flat(orig.subrange(0, i)), p),
            forall|p: int| #[trigger] coverage(new_entries@, p) == coverage(flat(orig.subrange(0, i)), p),
            view_seq(new_entries@) == fold_merge(view_seq(flat(orig.subrange(0, i)))),
            all_within(new_entries@, flat(orig.subrange(0, i))),
            well_formed(flat(orig)) ==> new_entries@ == flat(orig.subrange(0, i)),
        decreases rest.len(),
    {
        let ghost base = flat(orig.subrange(0, i));
        assert(rest@[0] == orig[i]);
        let mut list = rest.remove(0);
        let ghost lv = list@;
        let ghost tail_lists = flat(orig.subrange(i + 1, orig.len() as int));
        let ghost mut j: int = 0;
        proof {
            lemma_flat_split(orig, i + 1);
            let next = orig.subrange(0, i + 1);
            assert(next.drop_last() =~= orig.subrange(0, i));
            assert(next.last() == orig[i]);
            assert(flat(orig) == base + lv + tail_lists);
            assert(lv.subrange(0, 0) =~= Seq::<Entry>::empty());
            assert(base + lv.subrange(0, 0) =~= base);
            assert(list@ =~= lv.subrange(0, lv.len() as int));
        }
        while list.len() > 0
            invariant
                0 <= i < orig.len(),
                lv == orig[i]@,
                0 <= j <= lv.len(),
                list@ == lv.subrange(j, lv.len() as int),
                forall|b: int| 0 <= b < lv.len() ==> nonempty(#[trigger] lv[b]),
                well_formed(new_entries@),
                forall|p: int| covered(new_entries@, p) == covered(base + lv.subrange(0, j), p),
                forall|p: int| #[trigger] coverage(new_entries@, p) == coverage(base + lv.subrange(0, j), p),
                flat(orig) == base + lv + tail_lists,
                view_seq(new_entries@) == fold_merge(view_seq(base + lv.subrange(0, j))),
                all_within(new_entries@, base + lv.subrange(0, j)),
                well_formed(flat(orig)) ==> new_entries@ == base + lv.subrange(0, j),
            decreases list.len(),
        {
            assert(list@[0] == lv[j]);
            let entry = list.remove(0);
            let ghost prev = new_entries@;
            let ghost seen = base + lv.subrange(0, j);
            assert(seen.push(entry) =~= base + lv.subrange(0, j + 1));
            proof {
                if well_formed(flat(orig)) {
                    let f = flat(orig);
                    let n = seen.len() as int;
                    assert(f[n] == entry);
                    assert forall|k: int| 0 <= k < n implies apart(#[trigger] prev[k].range, entry.range) by {
                        assert(f[k] == seen[k]);
                    }
                }
            }
            new_entries = merge_into(new_entries, entry);
            proof {
                assert(view_seq(seen.push(entry)) =~= view_seq(seen).push(entry_view(entry)));
                assert(view_seq(seen).push(entry_view(entry)).drop_last() =~= view_seq(seen));
                lemma_within_push(prev, seen, entry);
                lemma_within_trans(new_entries@, prev.push(entry), seen.push(entry));
                assert forall|p: int| covered(new_entries@, p) == covered(seen.push(entry), p) by {
                    lemma_covered_push(prev, entry, p);
                    lemma_covered_push(seen, entry, p);
                }
                assert forall|p: int| #[trigger] coverage(new_entries@, p) == coverage(seen.push(entry), p) by {
                    lemma_coverage_push(prev, entry, p);
                    lemma_coverage_push(seen, entry, p);
                }
                j = j + 1;
                assert(list@ =~= lv.subrange(j, lv.len() as int));
            }
        }
        proof {
            let next = orig.subrange(0, i + 1);
            assert(next.drop_last() =~= orig.subrange(0, i));
            assert(lv.subrange(0, j) =~= lv);
            assert(flat(next) == base + lv);
            assert(base + lv.subrange(0, j) =~= base + lv);
            i = i + 1;
            assert(rest@ =~= orig.subrange(i, orig.len() as int));
        }
    }
    new_entries
}

/// A recurring duty rule: `providers` are on call for each window of
/// `restriction` that falls within `interval` (local time).
#[derive(Debug, Clone)]
pub struct ScheduleSlot {
    pub interval: OpenRange<i64>,
    pub restriction: TimeOfDayDuration,
    pub providers: Vec<User>,
}

/// A window cut back so that it ends no later than `bound` when it holds `bound`.
pub open spec fn clip_end(r: ClosedRange<i64>, bound: i64) -> ClosedRange<i64> {
    if r.start <= bound && bound < r.end {
        ClosedRange { start: r.start, end: bound }
    } else {
        r
    }
}

/// The windows cut back at `bound`, leaving out those that hold no point.
pub open spec fn entry_ranges(ws: Seq<ClosedRange<i64>>, bound: i64) -> Seq<ClosedRange<i64>>
    decreases ws.len(),
{
    if ws.len() == 0 {
        seq![]
    } else {
        let prev = entry_ranges(ws.drop_last(), bound);
        let r = clip_end(ws.last(), bound);
        if r.start < r.end {
            prev.push(r)
        } else {
            prev
        }
    }
}

/// An entry seen as its range and its providers.
pub open spec fn entry_view(e: Entry) -> (ClosedRange<i64>, Seq<User>) {
    (e.range, e.providers@)
}

impl ScheduleSlot {
    pub fn new_schedule_slot(interval: OpenRange<i64>, restriction: TimeOfDayDuration, providers: Vec<User>) -> (r: ScheduleSlot)
        ensures
            r.interval == interval,
            r.restriction == restriction,
            r.providers@ == providers@,
    {
        ScheduleSlot { interval, restriction, providers }
    }

    /// The ranges of the entries of a slot valid over `[start, end)` (local
    /// times): the windows of its rule from `start` on that start before the
    /// instant of `end` (`end - offset`), cut back at that instant.
    pub open spec fn ranges(self, start: i64, end: i64, offset: int) -> Seq<ClosedRange<i64>> {
        let bound = (end - offset) as i64;
        entry_ranges(self.restriction.windows(start as int, offset, bound as int), bound)
    }

    /// The entries of this slot, which must have an end: each window of its
    /// rule that starts before the end (local time, so the instant
    /// `end - offset`), cut back at that instant, with the slot's providers.
    pub fn to_iter(&self, offset: i32) -> (r: Vec<Entry>)
        requires
            self.interval.end is Some,
            self.restriction.valid(),
            valid_offset(offset as int),
            -TIME_LIMIT <= self.interval.start <= TIME_LIMIT,
            -TIME_LIMIT <= self.interval.end->Some_0 <= TIME_LIMIT,
        ensures
            r@.map_values(|e: Entry| entry_view(e)) == self.ranges(self.interval.start, self.interval.end->Some_0, offset as int).map_values(
                |x: ClosedRange<i64>| (x, self.providers@),
            ),
            forall|i: int| 0 <= i < r@.len() ==> nonempty(#[trigger] r@[i]),
    {
        let zoned_end = match self.interval.end {
            Some(e) => e - offset as i64,
            None => 0,
        };
        let ws = self.restriction.to_iter(self.interval.start, offset, zoned_end);
        let mut out: Vec<Entry> = Vec::new();
        let mut i: usize = 0;
        while i < ws.len()
            invariant
                i <= ws@.len(),
                out@.map_values(|e: Entry| entry_view(e)) == entry_ranges(ws@.subrange(0, i as int), zoned_end).map_values(
                    |x: ClosedRange<i64>| (x, self.providers@),
                ),
                forall|k: int| 0 <= k < out@.len() ==> nonempty(#[trigger] out@[k]),
            decreases ws.len() - i,
        {
            let w = ws[i];
            let range = if w.start <= zoned_end && zoned_end < w.end {
                ClosedRange { start: w.start, end: zoned_end }
            } else {
                w
            };
            let ghost before = out@;
            if range.start < range.end {
                out.push(Entry { range, providers: copy_users(&self.providers) });
            }
            proof {
                let sub = ws@.subrange(0, i + 1);
                assert(sub.drop_last() =~= ws@.subrange(0, i as int));
                assert(sub.last() == w);
                if range.start < range.end {
                    assert(out@.map_values(|e: Entry| entry_view(e)) =~= before.map_values(|e: Entry| entry_view(e)).push((range, self.providers@)));
                    assert(entry_ranges(sub, zoned_end).map_values(|x: ClosedRange<i64>| (x, self.providers@))
                        =~= entry_ranges(ws@.subrange(0, i as int), zoned_end).map_values(|x: ClosedRange<i64>| (x, self.providers@)).push((range, self.providers@)));
                }
            }
            i = i + 1;
        }
        proof {
            assert(ws@.subrange(0, ws@.len() as int) =~= ws@);
        }
        out
    }
}

/// The valid part of slot `s` within `[start, end)`, when there is one.
pub open spec fn slot_window(s: ScheduleSlot, start: i64, end: i64) -> Option<(i64, Option<i64>)> {
    meet_of(s.interval.start, s.interval.end, start, Some(end))
}

/// The entries (as ranges with providers) that the slots contribute to a
/// schedule over `[start, end)`, slot after slot.
pub open spec fn schedule_plan(slots: Seq<ScheduleSlot>, start: i64, end: i64, offset: int) -> Seq<(ClosedRange<i64>, Seq<User>)>
    decreases slots.len(),
{
    if slots.len() == 0 {
        seq![]
    } else {
        let s = slots.last();
        schedule_plan(slots.drop_last(), start, end, offset) + match slot_window(s, start, end) {
            Some((lo, Some(hi))) => s.ranges(lo, hi, offset).map_values(|x: ClosedRange<i64>| (x, s.providers@)),
            _ => seq![],
        }
    }
}

/// Some planned entry holds `p`.
pub open spec fn plan_covered(plan: Seq<(ClosedRange<i64>, Seq<User>)>, p: int) -> bool {
    exists|i: int| 0 <= i < plan.len() && holds(#[trigger] plan[i].0, p)
}

/// The providers of all planned entries holding `p`, the last entry first.
pub open spec fn plan_coverage(plan: Seq<(ClosedRange<i64>, Seq<User>)>, p: int) -> Seq<User>
    decreases plan.len(),
{
    if plan.len() == 0 {
        seq![]
    } else {
        let e = plan.last();
        (if holds(e.0, p) {
            e.1
        } else {
            seq![]
        }) + plan_coverage(plan.drop_last(), p)
    }
}

proof fn lemma_plan_matches(s: Seq<Entry>, p: int)
    ensures
        covered(s, p) == plan_covered(s.map_values(|e: Entry| entry_view(e)), p),
        coverage(s, p) == plan_coverage(s.map_values(|e: Entry| entry_view(e)), p),
    decreases s.len(),
{
    let m = s.map_values(|e: Entry| entry_view(e));
    if covered(s, p) {
        let i = choose|i: int| 0 <= i < s.len() && holds(#[trigger] s[i].range, p);
        assert(m[i].0 == s[i].range);
    }
    if plan_covered(m, p) {
        let i = choose|i: int| 0 <= i < m.len() && holds(#[trigger] m[i].0, p);
        assert(m[i].0 == s[i].range);
    }
    if s.len() > 0 {
        lemma_plan_matches(s.drop_last(), p);
        assert(s.drop_last().map_values(|e: Entry| entry_view(e)) =~= m.drop_last());
    }
}

/// A merged, non-overlapping coverage schedule for one routing key.
#[derive(Debug, Clone)]
pub struct Schedule {
    pub group_id: String,
    pub entries: Vec<Entry>,
}

/// Builds the schedule over `[start, end)` (local times, `offset` seconds
/// east of UTC) from `slots`: each slot is limited to that window,
/// expanded into entries, and all entries are merged in slot order. The
/// entries are exactly those of folding the planned entries with `merged`;
/// they cover exactly the planned entries, and at each point their
/// providers are those of all planned entries there, the latest first.
pub fn generate_schedule(slots: Vec<ScheduleSlot>, start: i64, end: i64, offset: i32, group_id: String) -> (r: Schedule)
    requires
        forall|i: int| 0 <= i < slots@.len() ==> (#[trigger] slots@[i]).restriction.valid(),
        valid_offset(offset as int),
        -TIME_LIMIT <= start <= TIME_LIMIT,
        -TIME_LIMIT <= end <= TIME_LIMIT,
    ensures
        r.group_id == group_id,
        well_formed(r.entries@),
        forall|p: int| covered(r.entries@, p) == plan_covered(schedule_plan(slots@, start, end, offset as int), p),
        forall|p: int| #[trigger] coverage(r.entries@, p) == plan_coverage(schedule_plan(slots@, start, end, offset as int), p),
        view_seq(r.entries@) == fold_merge(schedule_plan(slots@, start, end, offset as int)),
{
    let schedule_range = OpenRange::new_open_range(&start, &Some(end));
    let mut lists: Vec<Vec<Entry>> = Vec::new();
    let mut i: usize = 0;
    while i < slots.len()
        invariant
            i <= slots@.len(),
            schedule_range == (OpenRange { start, end: Some(end) }),
            forall|k: int| 0 <= k < slots@.len() ==> (#[trigger] slots@[k]).restriction.valid(),
            valid_offset(offset as int),
            -TIME_LIMIT <= start <= TIME_LIMIT,
            -TIME_LIMIT <= end <= TIME_LIMIT,
            flat(lists@).map_values(|e: Entry| entry_view(e)) == schedule_plan(slots@.subrange(0, i as int), start, end, offset as int),
            forall|a: int, b: int| 0 <= a < lists@.len() && 0 <= b < lists@[a]@.len() ==> nonempty(#[trigger] lists@[a]@[b]),
        decreases slots.len() - i,
    {
        let slot = &slots[i];
        let ghost before = lists@;
        let ghost sub = slots@.subrange(0, i + 1);
        proof {
            assert(sub.drop_last() =~= slots@.subrange(0, i as int));
            assert(sub.last() == slots@[i as int]);
        }
        match slot.interval.intersection(&schedule_range) {
            Some(iv) => {
                let clipped = ScheduleSlot {
                    interval: iv,
                    restriction: slot.restriction,
                    providers: copy_users(&slot.providers),
                };
                let list = clipped.to_iter(offset);
                let ghost lv = list@;
                lists.push(list);
                proof {
                    assert(lists@.drop_last() =~= before);
                    assert(flat(lists@) == flat(before) + lv);
                    assert(flat(lists@).map_values(|e: Entry| entry_view(e)) =~= flat(before).map_values(|e: Entry| entry_view(e)) + lv.map_values(|e: Entry| entry_view(e)));
                    assert(clipped.ranges(iv.start, iv.end->Some_0, offset as int) == slot.ranges(iv.start, iv.end->Some_0, offset as int));
                    assert(lv.map_values(|e: Entry| entry_view(e)) =~= slot.ranges(iv.start, iv.end->Some_0, offset as int).map_values(|x: ClosedRange<i64>| (x, slot.providers@)));
                    assert forall|a: int, b: int| 0 <= a < lists@.len() && 0 <= b < lists@[a]@.len() implies nonempty(#[trigger] lists@[a]@[b]) by {
                        if a < before.len() {
                            assert(lists@[a] == before[a]);
                        }
                    }
                }
            },
            None => {
                proof {
                    assert(schedule_plan(sub, start, end, offset as int) =~= schedule_plan(slots@.subrange(0, i as int), start, end, offset as int));
                }
            },
        }
        i = i + 1;
    }
    proof {
        assert(slots@.subrange(0, slots@.len() as int) =~= slots@);
    }
    let ghost all = lists@;
    let entries = merge_entries(lists);
    proof {
        assert(view_seq(flat(all)) == schedule_plan(slots@, start, end, offset as int));
        assert forall|p: int| covered(entries@, p) == plan_covered(schedule_plan(slots@, start, end, offset as int), p) by {
            lemma_plan_matches(flat(all), p);
        }
        assert forall|p: int| #[trigger] coverage(entries@, p) == plan_coverage(schedule_plan(slots@, start, end, offset as int), p) by {
            lemma_plan_matches(flat(all), p);
        }
    }
    Schedule { group_id, entries }
}

impl Schedule {
    /// The providers of the first entry holding `date_time` (UTC seconds), or
    /// none when no entry holds it.
    pub fn get_providers(&self, date_time: i64) -> (r: Option<Vec<User>>)
        ensures
            match r {
                Some(v) => exists|i: int| 0 <= i < self.entries@.len() && #[trigger] holds(self.entries@[i].range, date_time as int)
                    && v@ == self.entries@[i].providers@
                    && forall|j: int| 0 <= j < i ==> !holds(#[trigger] self.entries@[j].range, date_time as int),
                None => !covered(self.entries@, date_time as int),
            },
            well_formed(self.entries@) ==> match r {
                Some(v) => v@ == coverage(self.entries@, date_time as int),
                None => coverage(self.entries@, date_time as int) == Seq::<User>::empty(),
            },
    {
        let mut i: usize = 0;
        while i < self.entries.len()
            invariant
                i <= self.entries@.len(),
                forall|j: int| 0 <= j < i ==> !holds(#[trigger] self.entries@[j].range, date_time as int),
            decreases self.entries.len() - i,
        {
            if self.entries[i].range.contains(Some(&date_time)) {
                let v = copy_users(&self.entries[i].providers);
                proof {
                    assert(holds(self.entries@[i as int].range, date_time as int));
                    if well_formed(self.entries@) {
                        lemma_coverage_one(self.entries@, i as int, date_time as int);
                    }
                }
                return Some(v);
            }
            i = i + 1;
        }
        proof {
            lemma_coverage_none(self.entries@, date_time as int);
        }
        None
    }
}

} // verus!

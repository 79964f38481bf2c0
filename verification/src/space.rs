use vstd::prelude::*;
use vstd::multiset::Multiset;
use vstd::seq_lib::lemma_multiset_commutative;
use crate::{in_world, norm_sq, Vec2};
use crate::math::floor_div;

verus! {

broadcast use vstd::seq_lib::group_to_multiset_ensures, vstd::multiset::group_multiset_axioms;

/// One participant of the spatial index: an entity handle with the position it
/// had when the index was built.
#[derive(Clone, Copy, PartialEq, Eq, Structural, Debug)]
pub struct Element {
    pub entity: usize,
    pub pos: Vec2,
}

/// The coordinate of `e` on the split axis.
pub open spec fn axis_val(e: Element, by_x: bool) -> int {
    if by_x {
        e.pos.x as int
    } else {
        e.pos.y as int
    }
}

/// The side of the pivot an element falls on: `true` means it moves to the
/// new bucket.
pub open spec fn el_cond(e: Element, by_x: bool, pivot: int) -> bool {
    axis_val(e, by_x) > pivot
}

/// Every element's position lies in the world box.
pub open spec fn elems_in_world(s: Seq<Element>) -> bool {
    forall|i: int| 0 <= i < s.len() ==> in_world(#[trigger] s[i].pos)
}

/// All elements share one position: a coincident cluster.
pub open spec fn coincident(s: Seq<Element>) -> bool {
    forall|i: int, j: int|
        0 <= i < s.len() && 0 <= j < s.len() ==> #[trigger] s[i].pos == #[trigger] s[j].pos
}

/// Sum of the coordinates on one axis.
pub open spec fn sum_axis(s: Seq<Element>, by_x: bool) -> int
    decreases s.len(),
{
    if s.len() == 0 {
        0
    } else {
        sum_axis(s.drop_last(), by_x) + axis_val(s.last(), by_x)
    }
}

/// The centroid coordinate on one axis: the floored mean.
pub open spec fn mean_axis(s: Seq<Element>, by_x: bool) -> int {
    floor_div(sum_axis(s, by_x), s.len() as int)
}

/// If every coordinate on the axis lies in `[lo, hi]`, the sum lies in
/// `[lo * len, hi * len]`.
pub proof fn lemma_sum_axis_bounds(s: Seq<Element>, by_x: bool, lo: int, hi: int)
    requires
        forall|i: int| 0 <= i < s.len() ==> lo <= #[trigger] axis_val(s[i], by_x) <= hi,
    ensures
        lo * s.len() <= sum_axis(s, by_x) <= hi * s.len(),
    decreases s.len(),
{
    if s.len() == 0 {
        assert(lo * 0 == 0) by (nonlinear_arith);
        assert(hi * 0 == 0) by (nonlinear_arith);
    } else {
        let t = s.drop_last();
        assert(forall|i: int| 0 <= i < t.len() ==> lo <= #[trigger] axis_val(t[i], by_x) <= hi) by {
            assert(forall|i: int| 0 <= i < t.len() ==> t[i] == s[i]);
        }
        lemma_sum_axis_bounds(t, by_x, lo, hi);
        assert(lo <= axis_val(s.last(), by_x) <= hi);
        assert(lo * s.len() == lo * t.len() + lo && hi * s.len() == hi * t.len() + hi)
            by (nonlinear_arith)
            requires
                s.len() == t.len() + 1,
        ;
    }
}

/// If moreover some coordinate is at most `hi - 1`, the sum is at most
/// `hi * len - 1`.
pub proof fn lemma_sum_axis_strict(s: Seq<Element>, by_x: bool, hi: int, k: int)
    requires
        forall|i: int| 0 <= i < s.len() ==> #[trigger] axis_val(s[i], by_x) <= hi,
        0 <= k < s.len(),
        axis_val(s[k], by_x) <= hi - 1,
    ensures
        sum_axis(s, by_x) <= hi * s.len() - 1,
    decreases s.len(),
{
    let t = s.drop_last();
    assert(forall|i: int| 0 <= i < t.len() ==> #[trigger] axis_val(t[i], by_x) <= hi) by {
        assert(forall|i: int| 0 <= i < t.len() ==> t[i] == s[i]);
    }
    if k == s.len() - 1 {
        lemma_sum_axis_bounds(t, by_x, -0x8000_0000_0000_0000, hi);
        assert(sum_axis(s, by_x) <= hi * t.len() + hi - 1);
    } else {
        lemma_sum_axis_strict(t, by_x, hi, k);
        assert(axis_val(s.last(), by_x) <= hi);
    }
    assert(hi * s.len() == hi * (s.len() - 1) + hi) by (nonlinear_arith);
}

/// For a non-empty bucket whose elements do not all agree on the axis, the
/// floored mean splits them: some element lies strictly above it and some
/// element lies at or below it.
pub proof fn lemma_split_progress(s: Seq<Element>, by_x: bool)
    requires
        s.len() > 0,
        exists|i: int, j: int|
            0 <= i < s.len() && 0 <= j < s.len() && #[trigger] axis_val(s[i], by_x)
                != #[trigger] axis_val(s[j], by_x),
    ensures
        exists|i: int| 0 <= i < s.len() && el_cond(#[trigger] s[i], by_x, mean_axis(s, by_x)),
        exists|i: int| 0 <= i < s.len() && !el_cond(#[trigger] s[i], by_x, mean_axis(s, by_x)),
{
    let n = s.len() as int;
    let sum = sum_axis(s, by_x);
    let p = mean_axis(s, by_x);

    // Some element lies at or below the mean: otherwise the sum would force
    // the mean above itself.
    if forall|i: int| 0 <= i < s.len() ==> el_cond(#[trigger] s[i], by_x, p) {
        assert(forall|i: int|
            0 <= i < s.len() ==> p + 1 <= #[trigger] axis_val(s[i], by_x)
                <= 0x7fff_ffff_ffff_ffff);
        lemma_sum_axis_bounds(s, by_x, p + 1, 0x7fff_ffff_ffff_ffff);
        vstd::arithmetic::div_mod::lemma_div_is_ordered((p + 1) * n, sum, n);
        vstd::arithmetic::div_mod::lemma_div_multiples_vanish(p + 1, n);
        assert(false);
    }

    // Some element lies strictly above the mean: if all were at or below it,
    // the two differing coordinates would pull the sum, and so the mean,
    // strictly below itself.
    if forall|i: int| 0 <= i < s.len() ==> !el_cond(#[trigger] s[i], by_x, p) {
        let (a, b) = choose|a: int, b: int|
            0 <= a < s.len() && 0 <= b < s.len() && #[trigger] axis_val(s[a], by_x)
                != #[trigger] axis_val(s[b], by_x);
        let k = if axis_val(s[a], by_x) < axis_val(s[b], by_x) {
            a
        } else {
            b
        };
        assert(axis_val(s[k], by_x) <= p - 1);
        lemma_sum_axis_strict(s, by_x, p, k);
        vstd::arithmetic::div_mod::lemma_div_is_ordered(sum, p * n - 1, n);
        assert(p * n - 1 == (p - 1) * n + (n - 1)) by (nonlinear_arith);
        vstd::arithmetic::div_mod::lemma_fundamental_div_mod_converse(p * n - 1, n, p - 1, n - 1);
        assert(false);
    }
}

// --- splitting a sequence on a pivot ------------------------------------------

/// The subsequence of `s` on one `side` of the pivot, in order: `true` is the
/// far side (strictly beyond the pivot), `false` the near side.
pub open spec fn split_part(s: Seq<Element>, by_x: bool, pivot: int, side: bool) -> Seq<Element>
    decreases s.len(),
{
    if s.len() == 0 {
        s
    } else {
        let rest = split_part(s.drop_last(), by_x, pivot, side);
        if el_cond(s.last(), by_x, pivot) == side {
            rest.push(s.last())
        } else {
            rest
        }
    }
}

/// The two sides of a split carry exactly the original elements.
pub proof fn lemma_split_part_ms(s: Seq<Element>, by_x: bool, pivot: int)
    ensures
        split_part(s, by_x, pivot, true).to_multiset().add(
            split_part(s, by_x, pivot, false).to_multiset(),
        ) =~= s.to_multiset(),
        split_part(s, by_x, pivot, true).len() + split_part(s, by_x, pivot, false).len()
            == s.len(),
    decreases s.len(),
{
    if s.len() > 0 {
        lemma_split_part_ms(s.drop_last(), by_x, pivot);
        assert(s == s.drop_last().push(s.last()));
    }
}

/// An element of `s` on the given side appears on that side of the split.
pub proof fn lemma_split_part_complete(s: Seq<Element>, by_x: bool, pivot: int, k: int)
    requires
        0 <= k < s.len(),
    ensures
        split_part(s, by_x, pivot, el_cond(s[k], by_x, pivot)).len() > 0,
    decreases s.len(),
{
    if k == s.len() - 1 {
    } else {
        lemma_split_part_complete(s.drop_last(), by_x, pivot, k);
        assert(s.drop_last()[k] == s[k]);
    }
}

/// When every element is on one side, that side is the whole sequence.
pub proof fn lemma_split_part_full(s: Seq<Element>, by_x: bool, pivot: int, side: bool)
    requires
        forall|k: int| 0 <= k < s.len() ==> el_cond(#[trigger] s[k], by_x, pivot) == side,
    ensures
        split_part(s, by_x, pivot, side) == s,
    decreases s.len(),
{
    if s.len() > 0 {
        let t = s.drop_last();
        assert(forall|k: int| 0 <= k < t.len() ==> el_cond(#[trigger] t[k], by_x, pivot) == side)
            by {
            assert(forall|k: int| 0 <= k < t.len() ==> t[k] == s[k]);
        }
        lemma_split_part_full(t, by_x, pivot, side);
        assert(split_part(s, by_x, pivot, side) =~= s);
    }
}

// --- buckets -----------------------------------------------------------------

/// A bucket of the adaptive partition: its elements and, when cached, their
/// centroid. A cached mean is always the floored mean of the current elements.
pub struct Field {
    pub mean: Option<Vec2>,
    pub elements: Vec<Element>,
}

pub open spec fn field_wf(f: Field) -> bool {
    &&& elems_in_world(f.elements@)
    &&& f.elements@.len() <= 1_000_000
    &&& match f.mean {
        Option::Some(m) => f.elements@.len() > 0 && m.x as int == mean_axis(f.elements@, true)
            && m.y as int == mean_axis(f.elements@, false),
        Option::None => true,
    }
}

impl Field {
    pub fn new() -> (f: Field)
        ensures
            f.elements@ =~= Seq::<Element>::empty(),
            f.mean is None,
            field_wf(f),
    {
        Field { mean: None, elements: Vec::new() }
    }

    /// Add elements to the bucket; any cached centroid is stale and dropped.
    pub fn extend(&mut self, mut els: Vec<Element>)
        requires
            field_wf(*old(self)),
            elems_in_world(els@),
            old(self).elements@.len() + els@.len() <= 1_000_000,
        ensures
            final(self).elements@ == old(self).elements@ + els@,
            final(self).mean is None,
            field_wf(*final(self)),
    {
        self.elements.append(&mut els);
        self.mean = None;
        proof {
            assert(elems_in_world(self.elements@)) by {
                assert(forall|i: int|
                    0 <= i < old(self).elements@.len() ==> self.elements@[i] == old(
                        self,
                    ).elements@[i]);
            }
        }
    }

    /// The floored mean position of a non-empty element list.
    pub fn compute_mean(v: &Vec<Element>) -> (m: Vec2)
        requires
            elems_in_world(v@),
            1 <= v@.len() <= 1_000_000,
        ensures
            m.x as int == mean_axis(v@, true),
            m.y as int == mean_axis(v@, false),
    {
        let n: usize = v.len();
        let mut sx: i64 = 0;
        let mut sy: i64 = 0;
        let mut i: usize = 0;
        while i < n
            invariant
                0 <= i <= n,
                n == v@.len() <= 1_000_000,
                elems_in_world(v@),
                sx == sum_axis(v@.take(i as int), true),
                sy == sum_axis(v@.take(i as int), false),
                -(i as int) * 1_000_000_000 <= sx as int <= (i as int) * 1_000_000_000,
                -(i as int) * 1_000_000_000 <= sy as int <= (i as int) * 1_000_000_000,
            decreases n - i,
        {
            let e: Element = v[i];
            proof {
                assert(v@.take(i + 1).drop_last() =~= v@.take(i as int));
                assert(v@.take(i + 1).last() == v@[i as int]);
            }
            sx = sx + e.pos.x;
            sy = sy + e.pos.y;
            i = i + 1;
        }
        proof {
            assert(v@.take(n as int) =~= v@);
        }
        let mx: i64 = crate::math::div_floor_i64(sx, n as i64);
        let my: i64 = crate::math::div_floor_i64(sy, n as i64);
        Vec2 { x: mx, y: my }
    }

    /// The cached centroid, computed on demand.
    pub fn get_mean_or_compute(&mut self) -> (m: Vec2)
        requires
            field_wf(*old(self)),
            old(self).elements@.len() >= 1,
        ensures
            final(self).elements@ == old(self).elements@,
            final(self).mean == Option::Some(m),
            m.x as int == mean_axis(old(self).elements@, true),
            m.y as int == mean_axis(old(self).elements@, false),
            field_wf(*final(self)),
    {
        match self.mean {
            Option::Some(m) => m,
            Option::None => {
                let m = Self::compute_mean(&self.elements);
                self.mean = Some(m);
                m
            },
        }
    }

    /// Move every element strictly beyond the pivot into a fresh bucket. When
    /// that would leave this bucket empty, the two swap roles, so a non-empty
    /// bucket never splits into an empty self.
    pub fn split(&mut self, by_x: bool, pivot: i64) -> (moved: Field)
        requires
            field_wf(*old(self)),
        ensures
            ({
                let kept = split_part(old(self).elements@, by_x, pivot as int, false);
                let mv = split_part(old(self).elements@, by_x, pivot as int, true);
                &&& if kept.len() == 0 {
                    final(self).elements@ == mv && moved.elements@ == kept
                } else {
                    final(self).elements@ == kept && moved.elements@ == mv
                }
                &&& final(self).elements@.to_multiset().add(moved.elements@.to_multiset())
                    =~= old(self).elements@.to_multiset()
            }),
            final(self).mean is None,
            moved.mean is None,
            field_wf(*final(self)),
            field_wf(moved),
            old(self).elements@.len() > 0 ==> final(self).elements@.len() > 0,
            final(self).elements@.len() + moved.elements@.len() == old(self).elements@.len(),
            moved.elements@.len() > 0 ==> final(self).elements@.len() < old(self).elements@.len(),
    {
        let n: usize = self.elements.len();
        let mut kept: Vec<Element> = Vec::new();
        let mut mv: Vec<Element> = Vec::new();
        let mut i: usize = 0;
        while i < n
            invariant
                0 <= i <= n,
                n == self.elements@.len(),
                self.elements@ == old(self).elements@,
                field_wf(*self),
                kept@ == split_part(self.elements@.take(i as int), by_x, pivot as int, false),
                mv@ == split_part(self.elements@.take(i as int), by_x, pivot as int, true),
                elems_in_world(kept@),
                elems_in_world(mv@),
            decreases n - i,
        {
            let e: Element = self.elements[i];
            proof {
                assert(self.elements@.take(i + 1).drop_last() =~= self.elements@.take(i as int));
                assert(self.elements@.take(i + 1).last() == e);
            }
            let cond: bool = if by_x {
                e.pos.x > pivot
            } else {
                e.pos.y > pivot
            };
            if cond {
                mv.push(e);
            } else {
                kept.push(e);
            }
            i = i + 1;
        }
        proof {
            assert(self.elements@.take(n as int) =~= self.elements@);
            lemma_split_part_ms(self.elements@, by_x, pivot as int);
        }
        self.mean = None;
        if kept.len() == 0 {
            self.elements = mv;
            Field { mean: None, elements: kept }
        } else {
            self.elements = kept;
            Field { mean: None, elements: mv }
        }
    }
}

// --- the partition ----------------------------------------------------------

/// The multiset of elements across a list of buckets.
pub open spec fn fields_ms(s: Seq<Field>) -> Multiset<Element>
    decreases s.len(),
{
    if s.len() == 0 {
        Multiset::empty()
    } else {
        fields_ms(s.drop_last()).add(s.last().elements@.to_multiset())
    }
}

/// Sum of squared bucket sizes: the strictly decreasing measure of splitting.
pub open spec fn fields_measure(s: Seq<Field>) -> int
    decreases s.len(),
{
    if s.len() == 0 {
        0
    } else {
        fields_measure(s.drop_last()) + s.last().elements@.len() * s.last().elements@.len()
    }
}

pub open spec fn fields_wf(s: Seq<Field>) -> bool {
    forall|i: int| 0 <= i < s.len() ==> field_wf(#[trigger] s[i])
}

/// A bucket needs no further split: small enough, or one coincident cluster.
pub open spec fn bucket_done(f: Field, max_elements: int) -> bool {
    f.elements@.len() <= max_elements || coincident(f.elements@)
}

pub proof fn lemma_fields_measure_nonneg(s: Seq<Field>)
    ensures
        fields_measure(s) >= 0,
    decreases s.len(),
{
    if s.len() > 0 {
        lemma_fields_measure_nonneg(s.drop_last());
        let l = s.last().elements@.len();
        assert(l * l >= 0) by (nonlinear_arith);
    }
}

pub proof fn lemma_fields_push(s: Seq<Field>, f: Field)
    ensures
        fields_ms(s.push(f)) =~= fields_ms(s).add(f.elements@.to_multiset()),
        fields_measure(s.push(f)) == fields_measure(s) + f.elements@.len() * f.elements@.len(),
{
    assert(s.push(f).drop_last() =~= s);
    assert(s.push(f).last() == f);
}

pub proof fn lemma_fields_remove(s: Seq<Field>, i: int)
    requires
        0 <= i < s.len(),
    ensures
        fields_ms(s) =~= fields_ms(s.remove(i)).add(s[i].elements@.to_multiset()),
        fields_measure(s) == fields_measure(s.remove(i)) + s[i].elements@.len()
            * s[i].elements@.len(),
    decreases s.len(),
{
    if i == s.len() - 1 {
        assert(s.remove(i) =~= s.drop_last());
    } else {
        assert(s.remove(i).drop_last() =~= s.drop_last().remove(i));
        assert(s.remove(i).last() == s.last());
        lemma_fields_remove(s.drop_last(), i);
        assert(fields_ms(s.remove(i)) =~= fields_ms(s.drop_last().remove(i)).add(
            s.remove(i).last().elements@.to_multiset(),
        ));
    }
}

/// Splitting one bucket of size `n` into parts, at least two of them
/// non-empty, strictly shrinks the sum of squared sizes.
pub proof fn lemma_parts_sq(n: int, a: int, b: int, c: int, d: int)
    requires
        a + b + c + d == n,
        a >= 1,
        b + c + d >= 1,
        b >= 0,
        c >= 0,
        d >= 0,
    ensures
        a * a + b * b + c * c + d * d <= n * n - 2,
{
    assert(a * a + b * b + c * c + d * d <= n * n - 2) by (nonlinear_arith)
        requires
            a + b + c + d == n,
            a >= 1,
            b + c + d >= 1,
            b >= 0,
            c >= 0,
            d >= 0,
    ;
}

/// True exactly when all elements sit on one point.
pub fn all_coincident(v: &Vec<Element>) -> (r: bool)
    ensures
        r == coincident(v@),
{
    if v.len() == 0 {
        return true;
    }
    let p0: Vec2 = v[0].pos;
    let n: usize = v.len();
    let mut i: usize = 1;
    while i < n
        invariant
            1 <= i <= n,
            n == v@.len(),
            p0 == v@[0].pos,
            forall|j: int| 0 <= j < i ==> #[trigger] v@[j].pos == p0,
        decreases n - i,
    {
        let p: Vec2 = v[i].pos;
        if !(p.x == p0.x && p.y == p0.y) {
            assert(!coincident(v@)) by {
                assert(v@[i as int].pos != v@[0].pos);
            }
            return false;
        }
        i = i + 1;
    }
    true
}

/// The set of buckets being split, rebuilt from scratch every tick.
pub struct Partition {
    pub fields: Vec<Field>,
}

impl Partition {
    /// One bucket holding every element.
    pub fn from_elements(elements: Vec<Element>) -> (p: Partition)
        requires
            elems_in_world(elements@),
            elements@.len() <= 1_000_000,
        ensures
            fields_wf(p.fields@),
            fields_ms(p.fields@) =~= elements@.to_multiset(),
    {
        let ghost els = elements@;
        let mut field = Field::new();
        field.extend(elements);
        let mut fields: Vec<Field> = Vec::new();
        fields.push(field);
        proof {
            assert(fields@.drop_last() =~= Seq::<Field>::empty());
            assert(fields@.last() == field);
            assert(field.elements@ =~= els);
            assert(Multiset::empty().add(field.elements@.to_multiset())
                =~= field.elements@.to_multiset());
            assert(fields_ms(Seq::<Field>::empty()) =~= Multiset::<Element>::empty());
            assert(fields_ms(fields@) =~= field.elements@.to_multiset());
        }
        Partition { fields }
    }

    /// Find the first oversized, non-coincident bucket and split it through
    /// its centroid: first along the horizontal line, then each half along
    /// the vertical line. Returns whether a split happened.
    pub fn partition_all_once(&mut self, max_elements: usize) -> (progress: bool)
        requires
            fields_wf(old(self).fields@),
        ensures
            fields_wf(final(self).fields@),
            fields_ms(final(self).fields@) =~= fields_ms(old(self).fields@),
            progress ==> fields_measure(final(self).fields@) < fields_measure(old(self).fields@),
            !progress ==> final(self).fields@ == old(self).fields@ && forall|j: int|
                0 <= j < final(self).fields@.len() ==> bucket_done(
                    #[trigger] final(self).fields@[j],
                    max_elements as int,
                ),
    {
        let n: usize = self.fields.len();
        let mut i: usize = 0;
        while i < n
            invariant
                0 <= i <= n,
                n == self.fields@.len(),
                self.fields@ == old(self).fields@,
                fields_wf(self.fields@),
                forall|j: int|
                    0 <= j < i ==> bucket_done(#[trigger] self.fields@[j], max_elements as int),
            decreases n - i,
        {
            let oversized: bool = self.fields[i].elements.len() > max_elements;
            if oversized {
                let coin: bool = all_coincident(&self.fields[i].elements);
                if !coin {
                    let ghost ms0 = fields_ms(old(self).fields@);
                    let ghost measure0 = fields_measure(old(self).fields@);
                    proof {
                        lemma_fields_remove(old(self).fields@, i as int);
                    }
                    let mut field: Field = self.fields.remove(i);
                    let ghost f0 = field.elements@;
                    let ghost rest = self.fields@;
                    let ghost nf = f0.len() as int;

                    let m: Vec2 = field.get_mean_or_compute();
                    let ghost mx = m.x as int;
                    let ghost my = m.y as int;
                    let mut ab: Field = field.split(false, m.y);
                    proof {
                        lemma_split_part_ms(f0, false, my);
                        if ab.elements@.len() == 0 {
                            // The horizontal split moved nothing, or moved
                            // everything; either way the elements all agree
                            // on y, else the mean would have parted them.
                            if exists|a: int, b: int|
                                0 <= a < f0.len() && 0 <= b < f0.len() && #[trigger] axis_val(
                                    f0[a],
                                    false,
                                ) != #[trigger] axis_val(f0[b], false) {
                                lemma_split_progress(f0, false);
                                let wt = choose|w: int|
                                    0 <= w < f0.len() && el_cond(#[trigger] f0[w], false, my);
                                lemma_split_part_complete(f0, false, my, wt);
                                let wo = choose|w: int|
                                    0 <= w < f0.len() && !el_cond(#[trigger] f0[w], false, my);
                                lemma_split_part_complete(f0, false, my, wo);
                                assert(false);
                            }
                            // All on one side: that side is the whole list.
                            if split_part(f0, false, my, false).len() == 0 {
                                assert forall|k: int| 0 <= k < f0.len() implies el_cond(
                                    #[trigger] f0[k],
                                    false,
                                    my,
                                ) == true by {
                                    if !el_cond(f0[k], false, my) {
                                        lemma_split_part_complete(f0, false, my, k);
                                    }
                                }
                                lemma_split_part_full(f0, false, my, true);
                            } else {
                                assert forall|k: int| 0 <= k < f0.len() implies el_cond(
                                    #[trigger] f0[k],
                                    false,
                                    my,
                                ) == false by {
                                    if el_cond(f0[k], false, my) {
                                        lemma_split_part_complete(f0, false, my, k);
                                    }
                                }
                                lemma_split_part_full(f0, false, my, false);
                            }
                            assert(field.elements@ == f0);
                        }
                    }
                    if ab.elements.len() > 0 {
                        let b: Field = ab.split(true, m.x);
                        let d: Field = field.split(true, m.x);
                        proof {
                            lemma_fields_push(rest, field);
                        }
                        let ghost l_ab = ab.elements@.len() as int;
                        let ghost l_b = b.elements@.len() as int;
                        let ghost l_d = d.elements@.len() as int;
                        let ghost l_f = field.elements@.len() as int;
                        self.fields.push(field);
                        let ghost after_f = self.fields@;
                        proof {
                            lemma_fields_push(after_f, ab);
                        }
                        self.fields.push(ab);
                        let ghost after_ab = self.fields@;
                        if b.elements.len() > 0 {
                            proof {
                                lemma_fields_push(after_ab, b);
                            }
                            self.fields.push(b);
                        }
                        let ghost after_b = self.fields@;
                        if d.elements.len() > 0 {
                            proof {
                                lemma_fields_push(after_b, d);
                            }
                            self.fields.push(d);
                        }
                        proof {
                            broadcast use vstd::multiset::lemma_multiset_empty_len;

                            if l_b == 0 {
                                assert(b.elements@.to_multiset() =~= Multiset::<Element>::empty());
                            }
                            if l_d == 0 {
                                assert(d.elements@.to_multiset() =~= Multiset::<Element>::empty());
                            }
                            assert(fields_ms(self.fields@) =~= ms0);
                            lemma_parts_sq(nf, l_f, l_ab, l_b, l_d);
                            lemma_fields_measure_nonneg(rest);
                            assert(fields_measure(self.fields@) < measure0);
                        }
                        return true;
                    } else {
                        let d: Field = field.split(true, m.x);
                        proof {
                            broadcast use vstd::multiset::lemma_multiset_empty_len;

                            assert(ab.elements@.to_multiset() =~= Multiset::<Element>::empty());
                            // All elements agreed on y, so some differ in x
                            // and the vertical split makes progress.
                            assert(exists|a: int, b: int|
                                0 <= a < f0.len() && 0 <= b < f0.len() && #[trigger] axis_val(
                                    f0[a],
                                    true,
                                ) != #[trigger] axis_val(f0[b], true)) by {
                                let (a, b) = choose|a: int, b: int|
                                    0 <= a < f0.len() && 0 <= b < f0.len() && #[trigger] f0[a].pos
                                        != #[trigger] f0[b].pos;
                                assert(axis_val(f0[a], false) == axis_val(f0[b], false));
                                assert(axis_val(f0[a], true) != axis_val(f0[b], true));
                            }
                            lemma_split_progress(f0, true);
                            lemma_split_part_ms(f0, true, mx);
                            let wt = choose|w: int|
                                0 <= w < f0.len() && el_cond(#[trigger] f0[w], true, mx);
                            lemma_split_part_complete(f0, true, mx, wt);
                            let wo = choose|w: int|
                                0 <= w < f0.len() && !el_cond(#[trigger] f0[w], true, mx);
                            lemma_split_part_complete(f0, true, mx, wo);
                        }
                        proof {
                            lemma_fields_push(rest, field);
                        }
                        let ghost l_d = d.elements@.len() as int;
                        let ghost l_f = field.elements@.len() as int;
                        self.fields.push(field);
                        let ghost after_f = self.fields@;
                        proof {
                            lemma_fields_push(after_f, d);
                        }
                        self.fields.push(d);
                        proof {
                            assert(fields_ms(self.fields@) =~= ms0);
                            lemma_parts_sq(nf, l_f, l_d, 0, 0);
                            lemma_fields_measure_nonneg(rest);
                            assert(fields_measure(self.fields@) < measure0);
                        }
                        return true;
                    }
                }
            }
            i = i + 1;
        }
        false
    }

    /// Split until every bucket is small enough or coincident, then freeze
    /// each bucket's bounding rectangle. This terminates: every split
    /// strictly shrinks the sum of squared bucket sizes.
    pub fn partition(self, max_elements: usize) -> (sp: Space)
        requires
            fields_wf(self.fields@),
        ensures
            rects_wf(sp.rects@),
            rects_ms(sp.rects@) =~= fields_ms(self.fields@),
            forall|j: int|
                0 <= j < sp.rects@.len() ==> rect_done(
                    #[trigger] sp.rects@[j],
                    max_elements as int,
                ),
            forall|j: int| 0 <= j < sp.rects@.len() ==> rect_tight(#[trigger] sp.rects@[j]),
    {
        let mut this = self;
        let ghost init_ms = fields_ms(this.fields@);
        loop
            invariant
                fields_wf(this.fields@),
                fields_ms(this.fields@) =~= init_ms,
            ensures
                fields_wf(this.fields@),
                fields_ms(this.fields@) =~= init_ms,
                forall|j: int|
                    0 <= j < this.fields@.len() ==> bucket_done(
                        #[trigger] this.fields@[j],
                        max_elements as int,
                    ),
            decreases fields_measure(this.fields@),
        {
            proof {
                lemma_fields_measure_nonneg(this.fields@);
            }
            let progress: bool = this.partition_all_once(max_elements);
            if !progress {
                break;
            }
            proof {
                lemma_fields_measure_nonneg(this.fields@);
            }
        }
        let mut rects: Vec<Rect> = Vec::new();
        while this.fields.len() > 0
            invariant
                fields_wf(this.fields@),
                rects_wf(rects@),
                rects_ms(rects@).add(fields_ms(this.fields@)) =~= init_ms,
                forall|j: int|
                    0 <= j < this.fields@.len() ==> bucket_done(
                        #[trigger] this.fields@[j],
                        max_elements as int,
                    ),
                forall|j: int|
                    0 <= j < rects@.len() ==> rect_done(#[trigger] rects@[j], max_elements as int),
                forall|j: int| 0 <= j < rects@.len() ==> rect_tight(#[trigger] rects@[j]),
            decreases this.fields@.len(),
        {
            let ghost pre = this.fields@;
            let field: Field = match this.fields.pop() {
                Option::Some(f) => f,
                Option::None => {
                    proof {
                        assert(false);
                    }
                    Field::new()
                },
            };
            proof {
                assert(pre.drop_last() =~= this.fields@);
            }
            if field.elements.len() > 0 {
                let r: Rect = field.rect();
                proof {
                    lemma_rects_push(rects@, r);
                }
                rects.push(r);
            } else {
                proof {
                    broadcast use vstd::multiset::lemma_multiset_empty_len;

                    assert(field.elements@.to_multiset() =~= Multiset::<Element>::empty());
                }
            }
        }
        Space { rects }
    }
}

// --- frozen rectangles and queries ------------------------------------------

/// A leaf bucket frozen for queries: its elements and a box containing all of
/// their positions.
pub struct Rect {
    pub min: Vec2,
    pub max: Vec2,
    pub elements: Vec<Element>,
}

pub open spec fn rect_wf(r: Rect) -> bool {
    &&& r.elements@.len() > 0
    &&& elems_in_world(r.elements@)
    &&& in_world(r.min)
    &&& in_world(r.max)
    &&& r.min.x <= r.max.x
    &&& r.min.y <= r.max.y
    &&& forall|i: int|
        0 <= i < r.elements@.len() ==> r.min.x <= (#[trigger] r.elements@[i]).pos.x <= r.max.x
            && r.min.y <= r.elements@[i].pos.y <= r.max.y
}

pub open spec fn rect_done(r: Rect, max_elements: int) -> bool {
    r.elements@.len() <= max_elements || coincident(r.elements@)
}

/// The box is tight: each of its four sides is attained by some member.
pub open spec fn rect_tight(r: Rect) -> bool {
    &&& exists|i: int| 0 <= i < r.elements@.len() && (#[trigger] r.elements@[i]).pos.x == r.min.x
    &&& exists|i: int| 0 <= i < r.elements@.len() && (#[trigger] r.elements@[i]).pos.x == r.max.x
    &&& exists|i: int| 0 <= i < r.elements@.len() && (#[trigger] r.elements@[i]).pos.y == r.min.y
    &&& exists|i: int| 0 <= i < r.elements@.len() && (#[trigger] r.elements@[i]).pos.y == r.max.y
}

pub open spec fn rects_ms(s: Seq<Rect>) -> Multiset<Element>
    decreases s.len(),
{
    if s.len() == 0 {
        Multiset::empty()
    } else {
        rects_ms(s.drop_last()).add(s.last().elements@.to_multiset())
    }
}

pub open spec fn rects_wf(s: Seq<Rect>) -> bool {
    forall|i: int| 0 <= i < s.len() ==> rect_wf(#[trigger] s[i])
}

pub proof fn lemma_rects_push(s: Seq<Rect>, r: Rect)
    ensures
        rects_ms(s.push(r)) =~= rects_ms(s).add(r.elements@.to_multiset()),
{
    assert(s.push(r).drop_last() =~= s);
    assert(s.push(r).last() == r);
}

impl Field {
    /// Freeze a non-empty bucket into its tight bounding rectangle: the box
    /// contains every member and each side is attained by one.
    pub fn rect(self) -> (r: Rect)
        requires
            field_wf(self),
            self.elements@.len() > 0,
        ensures
            r.elements@ == self.elements@,
            rect_wf(r),
            rect_tight(r),
    {
        let n: usize = self.elements.len();
        let first: Element = self.elements[0];
        let mut min_x: i64 = first.pos.x;
        let mut max_x: i64 = first.pos.x;
        let mut min_y: i64 = first.pos.y;
        let mut max_y: i64 = first.pos.y;
        let mut i: usize = 1;
        while i < n
            invariant
                1 <= i <= n,
                n == self.elements@.len(),
                elems_in_world(self.elements@),
                -1_000_000_000 <= min_x <= max_x <= 1_000_000_000,
                -1_000_000_000 <= min_y <= max_y <= 1_000_000_000,
                forall|j: int|
                    0 <= j < i ==> min_x <= (#[trigger] self.elements@[j]).pos.x <= max_x && min_y
                        <= self.elements@[j].pos.y <= max_y,
                exists|j: int| 0 <= j < i && (#[trigger] self.elements@[j]).pos.x == min_x,
                exists|j: int| 0 <= j < i && (#[trigger] self.elements@[j]).pos.x == max_x,
                exists|j: int| 0 <= j < i && (#[trigger] self.elements@[j]).pos.y == min_y,
                exists|j: int| 0 <= j < i && (#[trigger] self.elements@[j]).pos.y == max_y,
            decreases n - i,
        {
            let e: Element = self.elements[i];
            if e.pos.x < min_x {
                min_x = e.pos.x;
            }
            if e.pos.x > max_x {
                max_x = e.pos.x;
            }
            if e.pos.y < min_y {
                min_y = e.pos.y;
            }
            if e.pos.y > max_y {
                max_y = e.pos.y;
            }
            i = i + 1;
        }
        Rect {
            min: Vec2 { x: min_x, y: min_y },
            max: Vec2 { x: max_x, y: max_y },
            elements: self.elements,
        }
    }
}

/// A neighbour as handed to the force pass: the other entity, the exact
/// offset from the query point to it, and the floored Euclidean distance.
#[derive(Clone, Copy, PartialEq, Eq, Structural, Debug)]
pub struct Neighbour {
    pub entity: usize,
    pub diff: Vec2,
    pub dist: i64,
}

/// The element a neighbour entry stands for, recovered from the query point.
pub open spec fn el_of(n: Neighbour, q: Vec2) -> Element {
    Element {
        entity: n.entity,
        pos: Vec2 { x: (q.x + n.diff.x) as i64, y: (q.y + n.diff.y) as i64 },
    }
}

/// The elements a list of neighbour entries stands for.
pub open spec fn els_of(ns: Seq<Neighbour>, q: Vec2) -> Seq<Element>
    decreases ns.len(),
{
    if ns.len() == 0 {
        Seq::empty()
    } else {
        els_of(ns.drop_last(), q).push(el_of(ns.last(), q))
    }
}

/// `p` lies within the query ball of squared radius `r2` around `q`.
pub open spec fn in_range2(p: Vec2, q: Vec2, r2: int) -> bool {
    norm_sq(p.x - q.x, p.y - q.y) <= r2
}

/// The elements of `s` within the query ball, in order.
pub open spec fn in_range_els(s: Seq<Element>, q: Vec2, r2: int) -> Seq<Element>
    decreases s.len(),
{
    if s.len() == 0 {
        s
    } else {
        let rest = in_range_els(s.drop_last(), q, r2);
        if in_range2(s.last().pos, q, r2) {
            rest.push(s.last())
        } else {
            rest
        }
    }
}

/// The within-range subsequence holds, of every value, exactly its in-range
/// occurrences.
pub proof fn lemma_in_range_count(s: Seq<Element>, q: Vec2, r2: int, x: Element)
    ensures
        in_range_els(s, q, r2).to_multiset().count(x) == if in_range2(x.pos, q, r2) {
            s.to_multiset().count(x)
        } else {
            0
        },
    decreases s.len(),
{
    if s.len() > 0 {
        lemma_in_range_count(s.drop_last(), q, r2, x);
        assert(s == s.drop_last().push(s.last()));
    }
}

/// If every element is out of range, nothing is within range.
pub proof fn lemma_in_range_none(s: Seq<Element>, q: Vec2, r2: int)
    requires
        forall|k: int| 0 <= k < s.len() ==> !in_range2((#[trigger] s[k]).pos, q, r2),
    ensures
        in_range_els(s, q, r2) =~= Seq::<Element>::empty(),
    decreases s.len(),
{
    if s.len() > 0 {
        let t = s.drop_last();
        assert(forall|k: int| 0 <= k < t.len() ==> !in_range2((#[trigger] t[k]).pos, q, r2)) by {
            assert(forall|k: int| 0 <= k < t.len() ==> t[k] == s[k]);
        }
        lemma_in_range_none(t, q, r2);
    }
}

/// A well-formed query answer entry: in range, with the offset bounded by the
/// world box and the distance the floored root of the offset's norm.
pub open spec fn neighbour_valid(n: Neighbour, r2: int) -> bool {
    &&& norm_sq(n.diff.x as int, n.diff.y as int) <= r2
    &&& -2_000_000_000 <= n.diff.x <= 2_000_000_000
    &&& -2_000_000_000 <= n.diff.y <= 2_000_000_000
    &&& n.dist == crate::math::sqrt_floor(norm_sq(n.diff.x as int, n.diff.y as int))
}

impl Rect {
    /// Squared distance from `q` to this rectangle: `q` clamped into the box,
    /// then the squared distance to the clamped point.
    pub fn dist_sq_to(&self, q: Vec2) -> (d2: u64)
        requires
            rect_wf(*self),
            in_world(q),
        ensures
            d2 == norm_sq(
                crate::math::clamp_spec(q.x as int, self.min.x as int, self.max.x as int) - q.x,
                crate::math::clamp_spec(q.y as int, self.min.y as int, self.max.y as int) - q.y,
            ),
    {
        let cx: i64 = crate::math::clamp_i64(q.x, self.min.x, self.max.x);
        let cy: i64 = crate::math::clamp_i64(q.y, self.min.y, self.max.y);
        let c = Vec2 { x: cx, y: cy };
        q.dist_sq(c)
    }

    /// Append every element within the query ball, as a neighbour entry.
    /// When the whole rectangle lies beyond the radius nothing is scanned.
    pub fn neighbours(&self, q: Vec2, r2: u64, out: &mut Vec<Neighbour>)
        requires
            rect_wf(*self),
            in_world(q),
            r2 <= 100_000_000_000_000,
        ensures
            els_of(final(out)@, q) == els_of(old(out)@, q) + in_range_els(
                self.elements@,
                q,
                r2 as int,
            ),
            final(out)@.len() >= old(out)@.len(),
            final(out)@.take(old(out)@.len() as int) == old(out)@,
            forall|k: int|
                old(out)@.len() <= k < final(out)@.len() ==> neighbour_valid(
                    #[trigger] final(out)@[k],
                    r2 as int,
                ),
    {
        let rd2: u64 = self.dist_sq_to(q);
        if rd2 > r2 {
            proof {
                assert forall|k: int| 0 <= k < self.elements@.len() implies !in_range2(
                    (#[trigger] self.elements@[k]).pos,
                    q,
                    r2 as int,
                ) by {
                    lemma_clamp_nearest(
                        q.x as int,
                        q.y as int,
                        self.elements@[k].pos.x as int,
                        self.elements@[k].pos.y as int,
                        self.min.x as int,
                        self.max.x as int,
                        self.min.y as int,
                        self.max.y as int,
                    );
                }
                lemma_in_range_none(self.elements@, q, r2 as int);
                assert(els_of(out@, q) =~= els_of(out@, q) + in_range_els(
                    self.elements@,
                    q,
                    r2 as int,
                ));
                assert(out@.take(out@.len() as int) =~= out@);
            }
            return ;
        }
        let n: usize = self.elements.len();
        let mut i: usize = 0;
        while i < n
            invariant
                0 <= i <= n,
                n == self.elements@.len(),
                rect_wf(*self),
                in_world(q),
                r2 <= 100_000_000_000_000,
                els_of(out@, q) == els_of(old(out)@, q) + in_range_els(
                    self.elements@.take(i as int),
                    q,
                    r2 as int,
                ),
                out@.len() >= old(out)@.len(),
                out@.take(old(out)@.len() as int) == old(out)@,
                forall|k: int|
                    old(out)@.len() <= k < out@.len() ==> neighbour_valid(
                        #[trigger] out@[k],
                        r2 as int,
                    ),
            decreases n - i,
        {
            let e: Element = self.elements[i];
            proof {
                assert(self.elements@.take(i + 1).drop_last() =~= self.elements@.take(i as int));
                assert(self.elements@.take(i + 1).last() == e);
            }
            let ghost pre = out@;
            let d2: u64 = q.dist_sq(e.pos);
            if d2 <= r2 {
                let dist: i64 = crate::math::isqrt64(d2) as i64;
                let nb = Neighbour {
                    entity: e.entity,
                    diff: Vec2 { x: e.pos.x - q.x, y: e.pos.y - q.y },
                    dist,
                };
                out.push(nb);
                proof {
                    assert(el_of(nb, q) == e);
                    assert(out@.drop_last() =~= pre);
                    assert(els_of(out@, q) =~= els_of(pre, q).push(e));
                    assert(els_of(out@, q) =~= els_of(old(out)@, q) + in_range_els(
                        self.elements@.take(i + 1),
                        q,
                        r2 as int,
                    ));
                    assert(out@.take(old(out)@.len() as int) =~= pre.take(old(out)@.len() as int));
                }
            }
            i = i + 1;
        }
        proof {
            assert(self.elements@.take(n as int) =~= self.elements@);
        }
    }
}

/// Clamping the query point into a box that contains `p` never overshoots:
/// the clamped point is at most as far from the query as `p` is.
pub proof fn lemma_clamp_nearest(
    qx: int,
    qy: int,
    px: int,
    py: int,
    lox: int,
    hix: int,
    loy: int,
    hiy: int,
)
    requires
        lox <= px <= hix,
        loy <= py <= hiy,
    ensures
        norm_sq(
            crate::math::clamp_spec(qx, lox, hix) - qx,
            crate::math::clamp_spec(qy, loy, hiy) - qy,
        ) <= norm_sq(px - qx, py - qy),
{
    let cx = crate::math::clamp_spec(qx, lox, hix);
    let cy = crate::math::clamp_spec(qy, loy, hiy);
    assert((cx - qx) * (cx - qx) <= (px - qx) * (px - qx)) by (nonlinear_arith)
        requires
            lox <= px <= hix,
            cx == if qx < lox {
                lox
            } else if qx > hix {
                hix
            } else {
                qx
            },
    ;
    assert((cy - qy) * (cy - qy) <= (py - qy) * (py - qy)) by (nonlinear_arith)
        requires
            loy <= py <= hiy,
            cy == if qy < loy {
                loy
            } else if qy > hiy {
                hiy
            } else {
                qy
            },
    ;
}

/// The frozen spatial index: leaf rectangles with their members.
pub struct Space {
    pub rects: Vec<Rect>,
}

impl Space {
    /// All elements within `dist` of `pos`, by exact squared distance; only
    /// rectangles whose box reaches the ball are scanned. The answer holds,
    /// for every element of the index, exactly its occurrences within range.
    pub fn neighbours(&self, pos: Vec2, dist: i64) -> (res: Vec<Neighbour>)
        requires
            rects_wf(self.rects@),
            in_world(pos),
            0 <= dist <= 10_000_000,
        ensures
            forall|el: Element|
                els_of(res@, pos).to_multiset().count(el) == if in_range2(
                    el.pos,
                    pos,
                    (dist as int) * (dist as int),
                ) {
                    rects_ms(self.rects@).count(el) as int
                } else {
                    0int
                },
            forall|k: int|
                0 <= k < res@.len() ==> neighbour_valid(
                    #[trigger] res@[k],
                    (dist as int) * (dist as int),
                ),
    {
        proof {
            lemma_square_bound_pos(dist as int, 10_000_000);
        }
        let r2: u64 = (dist * dist) as u64;
        let mut out: Vec<Neighbour> = Vec::new();
        let nr: usize = self.rects.len();
        let mut j: usize = 0;
        while j < nr
            invariant
                0 <= j <= nr,
                nr == self.rects@.len(),
                rects_wf(self.rects@),
                in_world(pos),
                r2 == (dist as int) * (dist as int),
                r2 <= 100_000_000_000_000,
                forall|el: Element|
                    els_of(out@, pos).to_multiset().count(el) == if in_range2(
                        el.pos,
                        pos,
                        r2 as int,
                    ) {
                        rects_ms(self.rects@.take(j as int)).count(el) as int
                    } else {
                        0int
                    },
                forall|k: int|
                    0 <= k < out@.len() ==> neighbour_valid(#[trigger] out@[k], r2 as int),
            decreases nr - j,
        {
            let ghost pre = out@;
            self.rects[j].neighbours(pos, r2, &mut out);
            proof {
                let emitted = in_range_els(self.rects@[j as int].elements@, pos, r2 as int);
                assert(self.rects@.take(j + 1).drop_last() =~= self.rects@.take(j as int));
                assert(self.rects@.take(j + 1).last() == self.rects@[j as int]);
                lemma_multiset_commutative(els_of(pre, pos), emitted);
                assert forall|k: int| 0 <= k < out@.len() implies neighbour_valid(
                    #[trigger] out@[k],
                    r2 as int,
                ) by {
                    if k < pre.len() {
                        assert(out@.take(pre.len() as int)[k] == out@[k]);
                    }
                }
                assert forall|el: Element|
                    els_of(out@, pos).to_multiset().count(el) == (if in_range2(
                        el.pos,
                        pos,
                        r2 as int,
                    ) {
                        rects_ms(self.rects@.take(j + 1)).count(el) as int
                    } else {
                        0int
                    }) by {
                    lemma_in_range_count(self.rects@[j as int].elements@, pos, r2 as int, el);
                }
            }
            j = j + 1;
        }
        proof {
            assert(self.rects@.take(nr as int) =~= self.rects@);
        }
        out
    }
}

/// `0 <= v <= b` bounds `v * v` by `b * b`.
pub proof fn lemma_square_bound_pos(v: int, b: int)
    requires
        0 <= v <= b,
    ensures
        0 <= v * v <= b * b,
{
    assert(0 <= v * v <= b * b) by (nonlinear_arith)
        requires
            0 <= v <= b,
    ;
}

/// A per-entity buffer of nearby entities: rebuilt in place every tick, and
/// meaningful only for the remainder of the tick that built it.
pub struct Neighbours {
    pub vec: Vec<Neighbour>,
}

impl Neighbours {
    pub fn new() -> (r: Neighbours)
        ensures
            r.vec@ =~= Seq::<Neighbour>::empty(),
    {
        Neighbours { vec: Vec::new() }
    }

    /// The entries as built by the latest rebuild.
    pub fn slice(&self) -> (r: &Vec<Neighbour>)
        ensures
            r@ == self.vec@,
    {
        &self.vec
    }
}

} // verus!

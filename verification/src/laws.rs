use vstd::prelude::*;
use crate::math::{clamp_spec, sqrt_floor, trunc_div};
use crate::space::{el_of, els_of, in_range2, in_range_els, Neighbour};
use crate::state::{
    alive, all_elements, element_at, elements_upto, neighbours_exact, pos_after_speed, pos_of,
    speed_after_gravity, Entity, Position, Rec, Size, State,
};
use crate::{in_world, norm_sq, Vec2};

verus! {

broadcast use vstd::seq_lib::group_to_multiset_ensures, vstd::multiset::group_multiset_axioms;

/// The brute-force all-pairs answer: how many of the first `n` slots are live
/// and within the squared radius of `q`.
pub open spec fn brute_count(recs: Seq<Rec>, q: Vec2, r2: int, n: int) -> int
    decreases n,
{
    if n <= 0 {
        0
    } else {
        brute_count(recs, q, r2, n - 1) + if alive(recs[n - 1]) && in_range2(
            pos_of(recs[n - 1]),
            q,
            r2,
        ) {
            1int
        } else {
            0int
        }
    }
}

/// The in-range subsequence of the index holds exactly as many elements as the
/// brute-force scan counts.
pub proof fn lemma_in_range_brute(recs: Seq<Rec>, q: Vec2, r2: int, n: int)
    requires
        0 <= n <= recs.len() <= 1_000_000,
    ensures
        in_range_els(elements_upto(recs, n), q, r2).len() == brute_count(recs, q, r2, n),
    decreases n,
{
    if n > 0 {
        lemma_in_range_brute(recs, q, r2, n - 1);
        let prev = elements_upto(recs, n - 1);
        if alive(recs[n - 1]) {
            let el = element_at(recs, n - 1);
            assert(prev.push(el).drop_last() =~= prev);
            assert(prev.push(el).last() == el);
        }
    }
}

/// Partition correctness: after a rebuild, an entity's neighbour cache holds
/// only live entities within the query radius, with exact offsets; every live
/// entity within the radius appears; and the cache holds exactly as many
/// entries as a brute-force all-pairs scan at the same radius finds.
pub proof fn lemma_neighbour_cache_exact(recs: Seq<Rec>, ns: Seq<Neighbour>, i: int, dist: int)
    requires
        0 <= i < recs.len() <= 1_000_000,
        0 <= dist,
        neighbours_exact(recs, ns, i, dist),
    ensures
        forall|k: int|
            0 <= k < ns.len() ==> norm_sq(
                (#[trigger] ns[k]).diff.x as int,
                ns[k].diff.y as int,
            ) <= dist * dist,
        forall|k: int|
            0 <= k < ns.len() ==> {
                let e = (#[trigger] ns[k]).entity as int;
                &&& 0 <= e < recs.len()
                &&& alive(recs[e])
                &&& pos_of(recs[e]) == el_of(ns[k], pos_of(recs[i])).pos
            },
        forall|j: int|
            0 <= j < recs.len() && alive(#[trigger] recs[j]) && in_range2(
                pos_of(recs[j]),
                pos_of(recs[i]),
                dist * dist,
            ) ==> exists|k: int| 0 <= k < ns.len() && (#[trigger] ns[k]).entity == j,
        ns.len() == brute_count(recs, pos_of(recs[i]), dist * dist, recs.len() as int),
{
    let q = pos_of(recs[i]);
    let r2 = dist * dist;
    let els = els_of(ns, q);
    let ranged = in_range_els(all_elements(recs), q, r2);
    assert forall|el: crate::space::Element|
        els.to_multiset().count(el) == ranged.to_multiset().count(el) by {
        crate::space::lemma_in_range_count(all_elements(recs), q, r2, el);
    }
    assert(els.to_multiset() =~= ranged.to_multiset());
    els.to_multiset_ensures();
    ranged.to_multiset_ensures();
    crate::state::lemma_els_of_len(ns, q);
    lemma_in_range_brute(recs, q, r2, recs.len() as int);
    crate::state::lemma_elements_members(recs, recs.len() as int);

    // Soundness: each entry's recovered element occurs in the index, so it is
    // a live slot carrying that slot's position.
    assert forall|k: int| 0 <= k < ns.len() implies {
        let e = (#[trigger] ns[k]).entity as int;
        &&& 0 <= e < recs.len()
        &&& alive(recs[e])
        &&& pos_of(recs[e]) == el_of(ns[k], q).pos
    } by {
        crate::state::lemma_els_of_index(ns, q, k);
        let el = el_of(ns[k], q);
        assert(els[k] == el);
        assert(els.contains(el));
        assert(els.to_multiset().count(el) > 0);
        assert(all_elements(recs).to_multiset().count(el) > 0);
        assert(all_elements(recs).contains(el));
        let m = choose|m: int|
            0 <= m < all_elements(recs).len() && all_elements(recs)[m] == el;
        assert(0 <= el.entity < recs.len() && alive(recs[el.entity as int]) && el.pos == pos_of(
            recs[el.entity as int],
        ));
    }

    // Completeness: every live in-range slot's element occurs in the answer.
    assert forall|j: int|
        0 <= j < recs.len() && alive(#[trigger] recs[j]) && in_range2(
            pos_of(recs[j]),
            q,
            r2,
        ) implies exists|k: int| 0 <= k < ns.len() && (#[trigger] ns[k]).entity == j by {
        crate::state::lemma_elements_cover(recs, recs.len() as int, j);
        let el = element_at(recs, j);
        assert(all_elements(recs).to_multiset().count(el) > 0);
        assert(els.to_multiset().count(el) > 0);
        assert(els.contains(el));
        let m = choose|m: int| 0 <= m < els.len() && els[m] == el;
        crate::state::lemma_els_of_index(ns, q, m);
        assert(el_of(ns[m], q) == el);
        assert(ns[m].entity == j);
    }
}

/// Reading an untouched entity twice with no tick in between gives the same
/// position: the accessor's answer is a function of the state alone.
pub proof fn lemma_position_idempotent(
    s: State,
    e: Entity,
    r1: Option<Position>,
    r2: Option<Position>,
)
    requires
        (r1 is Some <==> e.idx < s.recs@.len() && alive(s.recs@[e.idx as int])),
        (r1 is Some ==> r1->Some_0 == (Position { vec: pos_of(s.recs@[e.idx as int]) })),
        (r2 is Some <==> e.idx < s.recs@.len() && alive(s.recs@[e.idx as int])),
        (r2 is Some ==> r2->Some_0 == (Position { vec: pos_of(s.recs@[e.idx as int]) })),
    ensures
        r1 == r2,
{
    if r1 is Some {
        assert(r1->Some_0 == r2->Some_0);
    }
}

/// The same, for the size accessor.
pub proof fn lemma_size_idempotent(s: State, e: Entity, r1: Option<Size>, r2: Option<Size>)
    requires
        (r1 is Some <==> e.idx < s.recs@.len() && crate::state::is_player(
            s.recs@[e.idx as int],
        )),
        (r1 is Some ==> r1->Some_0 == Size(
            crate::state::player_size(s.recs@[e.idx as int]) as i64,
        )),
        (r2 is Some <==> e.idx < s.recs@.len() && crate::state::is_player(
            s.recs@[e.idx as int],
        )),
        (r2 is Some ==> r2->Some_0 == Size(
            crate::state::player_size(s.recs@[e.idx as int]) as i64,
        )),
    ensures
        r1 == r2,
{
    if r1 is Some {
        assert(r1->Some_0 == r2->Some_0);
    }
}

/// Gravity alone never pushes a resting dot outward: after one pull toward
/// the origin and one integration step, neither coordinate's magnitude has
/// grown, so the position's norm has not grown either.
pub proof fn lemma_gravity_step_converges(p: Vec2)
    requires
        in_world(p),
    ensures
        ({
            let v = speed_after_gravity(p, Vec2 { x: 0, y: 0 });
            let p2 = pos_after_speed(p, v);
            &&& (p.x >= 0 ==> -p.x <= p2.x <= p.x)
            &&& (p.x <= 0 ==> p.x <= p2.x <= -p.x)
            &&& (p.y >= 0 ==> -p.y <= p2.y <= p.y)
            &&& (p.y <= 0 ==> p.y <= p2.y <= -p.y)
        }),
{
    let d = sqrt_floor(norm_sq(p.x as int, p.y as int));
    assert(0 <= norm_sq(p.x as int, p.y as int) <= 2_000_000_000_000_000_000) by (nonlinear_arith)
        requires
            -1_000_000_000 <= p.x as int <= 1_000_000_000,
            -1_000_000_000 <= p.y as int <= 1_000_000_000,
    ;
    crate::math::lemma_sqrt_floor(norm_sq(p.x as int, p.y as int));
    assert(0 <= d <= 1_500_000_000) by (nonlinear_arith)
        requires
            d >= 0,
            d * d <= 2_000_000_000_000_000_000,
    ;
    lemma_gravity_component(p.x as int, d);
    lemma_gravity_component(p.y as int, d);
}

/// One component of the gravity-then-integration step: the pull has the same
/// sign as the coordinate and at most twice its magnitude, so the coordinate
/// cannot overshoot past its own mirror image.
proof fn lemma_gravity_component(c: int, d: int)
    requires
        -1_000_000_000 <= c <= 1_000_000_000,
        0 <= d <= 1_500_000_000,
    ensures
        ({
            let t = clamp_spec(0 - trunc_div(c * d, 1_000_000_000), -1_000_000_000, 1_000_000_000);
            let c2 = clamp_spec(c + t, -1_000_000_000, 1_000_000_000);
            &&& (c >= 0 ==> -c <= c2 <= c)
            &&& (c <= 0 ==> c <= c2 <= -c)
        }),
{
    if c >= 0 {
        assert(0 <= c * d <= c * 1_500_000_000) by (nonlinear_arith)
            requires
                0 <= c,
                0 <= d <= 1_500_000_000,
        ;
        let t0 = trunc_div(c * d, 1_000_000_000);
        vstd::arithmetic::div_mod::lemma_div_pos_is_pos(c * d, 1_000_000_000);
        vstd::arithmetic::div_mod::lemma_div_is_ordered(c * d, c * 2_000_000_000, 1_000_000_000);
        assert(c * d <= c * 2_000_000_000) by (nonlinear_arith)
            requires
                0 <= c,
                d <= 1_500_000_000,
        ;
        assert(c * 2_000_000_000 == 1_000_000_000 * (2 * c)) by (nonlinear_arith);
        vstd::arithmetic::div_mod::lemma_div_multiples_vanish(2 * c, 1_000_000_000);
        assert(0 <= t0 <= 2 * c);
    } else {
        let m = -c;
        assert(0 <= m * d <= m * 1_500_000_000) by (nonlinear_arith)
            requires
                0 <= m,
                0 <= d <= 1_500_000_000,
        ;
        assert(c * d == -(m * d)) by (nonlinear_arith)
            requires
                m == -c,
        ;
        let t0 = trunc_div(c * d, 1_000_000_000);
        vstd::arithmetic::div_mod::lemma_div_pos_is_pos(m * d, 1_000_000_000);
        vstd::arithmetic::div_mod::lemma_div_is_ordered(m * d, m * 2_000_000_000, 1_000_000_000);
        assert(m * d <= m * 2_000_000_000) by (nonlinear_arith)
            requires
                0 <= m,
                d <= 1_500_000_000,
        ;
        assert(m * 2_000_000_000 == 1_000_000_000 * (2 * m)) by (nonlinear_arith);
        vstd::arithmetic::div_mod::lemma_div_multiples_vanish(2 * m, 1_000_000_000);
        assert(-(2 * m) <= t0 <= 0);
    }
}

} // verus!

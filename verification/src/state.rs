use vstd::prelude::*;
use crate::color::{color_valid, Color};
use crate::math::{clamp_spec, sqrt_floor, trunc_div};
use crate::space::Neighbours;
use crate::{in_world, norm_sq, Vec2, COORD_LIMIT};

verus! {

/// A player's energy is capped so that all derived quantities stay small.
pub const MAX_ENERGY: i64 = 4_000_000_000_000;

/// A stable handle to a simulated entity. Slots are never reused, so a handle
/// to a despawned entity simply stops resolving.
#[derive(Clone, Copy, PartialEq, Eq, Structural, Debug)]
pub struct Entity {
    pub idx: usize,
}

/// A 2-D position in milli-units.
#[derive(Clone, Copy, PartialEq, Eq, Structural, Debug)]
pub struct Position {
    pub vec: Vec2,
}

/// A radius-like scalar in milli-units, derived from a player's energy.
#[derive(Clone, Copy, PartialEq, Eq, Structural, Debug)]
pub struct Size(pub i64);

/// A player's owned state: its ring-dots in order, its energy accumulator in
/// micro-units, and its rotation phase in micro-turns.
pub struct PlayerData {
    pub dots: Vec<usize>,
    pub energy: i64,
    pub rot: i64,
}

/// One entity slot: a plain dot, a player, one of a player's ring-dots, or a
/// freed slot.
pub enum Rec {
    Dead,
    Dot { pos: Vec2, speed: Vec2, color: Color, neighbours: Neighbours },
    Player { pos: Vec2, speed: Vec2, size: i64, color: Color, data: PlayerData },
    Ring { pos: Vec2, color: Color, owner: usize, neighbours: Neighbours },
}

// --- spec views of a slot ----------------------------------------------------

pub open spec fn alive(r: Rec) -> bool {
    !(r is Dead)
}

pub open spec fn is_dot(r: Rec) -> bool {
    r is Dot
}

pub open spec fn is_player(r: Rec) -> bool {
    r is Player
}

pub open spec fn is_ring(r: Rec) -> bool {
    r is Ring
}

pub open spec fn pos_of(r: Rec) -> Vec2 {
    match r {
        Rec::Dead => Vec2 { x: 0, y: 0 },
        Rec::Dot { pos, .. } => pos,
        Rec::Player { pos, .. } => pos,
        Rec::Ring { pos, .. } => pos,
    }
}

pub open spec fn speed_of(r: Rec) -> Vec2 {
    match r {
        Rec::Dot { speed, .. } => speed,
        Rec::Player { speed, .. } => speed,
        _ => Vec2 { x: 0, y: 0 },
    }
}

pub open spec fn color_of(r: Rec) -> Color {
    match r {
        Rec::Dot { color, .. } => color,
        Rec::Player { color, .. } => color,
        Rec::Ring { color, .. } => color,
        Rec::Dead => Color { hue: 0, sat: 0, light: 0 },
    }
}

pub open spec fn sat_of(r: Rec) -> int {
    color_of(r).sat as int
}

pub open spec fn has_speed(r: Rec) -> bool {
    r is Dot || r is Player
}

pub open spec fn has_neighbours(r: Rec) -> bool {
    r is Dot || r is Ring
}

pub open spec fn neighbours_of(r: Rec) -> Seq<crate::space::Neighbour> {
    match r {
        Rec::Dot { neighbours, .. } => neighbours.vec@,
        Rec::Ring { neighbours, .. } => neighbours.vec@,
        _ => Seq::empty(),
    }
}

pub open spec fn ring_owner(r: Rec) -> int {
    match r {
        Rec::Ring { owner, .. } => owner as int,
        _ => -1,
    }
}

pub open spec fn player_dots(r: Rec) -> Seq<usize> {
    match r {
        Rec::Player { data, .. } => data.dots@,
        _ => Seq::empty(),
    }
}

pub open spec fn player_energy(r: Rec) -> int {
    match r {
        Rec::Player { data, .. } => data.energy as int,
        _ => 0,
    }
}

pub open spec fn player_rot(r: Rec) -> int {
    match r {
        Rec::Player { data, .. } => data.rot as int,
        _ => 0,
    }
}

pub open spec fn player_size(r: Rec) -> int {
    match r {
        Rec::Player { size, .. } => size as int,
        _ => 0,
    }
}

/// Per-slot well-formedness: everything bounded, colors valid.
pub open spec fn rec_wf(r: Rec) -> bool {
    match r {
        Rec::Dead => true,
        Rec::Dot { pos, speed, color, .. } => in_world(pos) && in_world(speed) && color_valid(
            color,
        ),
        Rec::Player { pos, speed, size, color, data } => in_world(pos) && in_world(speed)
            && color_valid(color) && 0 <= size <= 2_000_000 && 1 <= data.energy <= MAX_ENERGY && 0
            <= data.rot < 1_000_000,
        Rec::Ring { pos, color, .. } => in_world(pos) && color_valid(color),
    }
}

/// A player's ring list points at distinct live ring-dots, each naming the
/// player as its owner.
pub open spec fn ring_list_wf(recs: Seq<Rec>, i: int) -> bool {
    &&& forall|k: int|
        0 <= k < player_dots(recs[i]).len() ==> {
            let d = #[trigger] player_dots(recs[i])[k] as int;
            &&& 0 <= d < recs.len()
            &&& is_ring(recs[d])
            &&& ring_owner(recs[d]) == i
        }
    &&& forall|k1: int, k2: int|
        0 <= k1 < k2 < player_dots(recs[i]).len() ==> #[trigger] player_dots(recs[i])[k1]
            != #[trigger] player_dots(recs[i])[k2]
}

/// The whole store is well formed.
pub open spec fn state_wf(recs: Seq<Rec>) -> bool {
    &&& recs.len() <= 1_000_000
    &&& forall|i: int| 0 <= i < recs.len() ==> rec_wf(#[trigger] recs[i])
    &&& forall|i: int|
        0 <= i < recs.len() && is_player(#[trigger] recs[i]) ==> ring_list_wf(recs, i)
}

/// Rewriting one slot preserves every player's ring list, as long as the slot
/// keeps its standing: a rewritten ring is still a ring with the same owner,
/// and a rewritten player keeps its list.
pub proof fn lemma_ring_lists_after_update(a: Seq<Rec>, b: Seq<Rec>, x: int)
    requires
        forall|i: int| 0 <= i < a.len() && is_player(#[trigger] a[i]) ==> ring_list_wf(a, i),
        b.len() == a.len(),
        0 <= x < a.len(),
        forall|j: int| 0 <= j < a.len() && j != x ==> b[j] == #[trigger] a[j],
        is_ring(a[x]) ==> is_ring(b[x]) && ring_owner(b[x]) == ring_owner(a[x]),
        is_player(b[x]) ==> is_player(a[x]) && player_dots(b[x]) == player_dots(a[x]),
    ensures
        forall|i: int| 0 <= i < b.len() && is_player(#[trigger] b[i]) ==> ring_list_wf(b, i),
{
    assert forall|i: int| 0 <= i < b.len() && is_player(#[trigger] b[i]) implies ring_list_wf(
        b,
        i,
    ) by {
        assert(is_player(a[i]));
        assert(ring_list_wf(a, i));
        assert(player_dots(b[i]) == player_dots(a[i]));
        assert forall|k: int| 0 <= k < player_dots(b[i]).len() implies {
            let d = #[trigger] player_dots(b[i])[k] as int;
            0 <= d < b.len() && is_ring(b[d]) && ring_owner(b[d]) == i
        } by {
            let d = player_dots(a[i])[k] as int;
            assert(is_ring(a[d]) && ring_owner(a[d]) == i);
        }
    }
}

/// The whole simulated world: every entity slot, in spawn order.
pub struct State {
    pub recs: Vec<Rec>,
}

impl Default for State {
    /// An empty world.
    fn default() -> (s: State)
        ensures
            s.recs@.len() == 0,
            state_wf(s.recs@),
    {
        State { recs: Vec::new() }
    }
}

// --- gravity -----------------------------------------------------------------

/// The speed of an entity at `p` after the pull toward the origin: each
/// component loses `p * |p| / 1_000_000_000`, the fixed-point form of
/// `normalize(p) * (|p| / 1000)^2` in world units, clamped into the world box.
pub open spec fn speed_after_gravity(p: Vec2, v: Vec2) -> Vec2 {
    let d = sqrt_floor(norm_sq(p.x as int, p.y as int));
    Vec2 {
        x: clamp_spec(
            v.x - trunc_div(p.x * d, 1_000_000_000),
            -COORD_LIMIT as int,
            COORD_LIMIT as int,
        ) as i64,
        y: clamp_spec(
            v.y - trunc_div(p.y * d, 1_000_000_000),
            -COORD_LIMIT as int,
            COORD_LIMIT as int,
        ) as i64,
    }
}

pub open spec fn rec_after_gravity(r: Rec) -> Rec {
    match r {
        Rec::Dot { pos, speed, color, neighbours } => Rec::Dot {
            pos,
            speed: speed_after_gravity(pos, speed),
            color,
            neighbours,
        },
        Rec::Player { pos, speed, size, color, data } => Rec::Player {
            pos,
            speed: speed_after_gravity(pos, speed),
            size,
            color,
            data,
        },
        _ => r,
    }
}

/// One entity's gravity step.
fn gravity_apply(p: Vec2, v: Vec2) -> (r: Vec2)
    requires
        in_world(p),
        in_world(v),
    ensures
        r == speed_after_gravity(p, v),
        in_world(r),
{
    let d2: u64 = p.len_sq();
    let d: i64 = crate::math::isqrt64(d2) as i64;
    proof {
        crate::lemma_square_bound(p.x as int, COORD_LIMIT as int);
        crate::lemma_square_bound(p.y as int, COORD_LIMIT as int);
        assert(d as int * d as int <= 2_000_000_000_000_000_000);
        assert(0 <= d as int <= 1_500_000_000) by (nonlinear_arith)
            requires
                d as int >= 0,
                d as int * d as int <= 2_000_000_000_000_000_000,
        ;
        assert(-1_500_000_000_000_000_000 <= p.x as int * d as int <= 1_500_000_000_000_000_000
            && -1_500_000_000_000_000_000 <= p.y as int * d as int
            <= 1_500_000_000_000_000_000) by (nonlinear_arith)
            requires
                -1_000_000_000 <= p.x as int <= 1_000_000_000,
                -1_000_000_000 <= p.y as int <= 1_000_000_000,
                0 <= d as int <= 1_500_000_000,
        ;
    }
    let gx: i64 = crate::math::div_trunc_i64(p.x * d, 1_000_000_000);
    let gy: i64 = crate::math::div_trunc_i64(p.y * d, 1_000_000_000);
    let x: i64 = crate::math::clamp_i64(v.x - gx, -COORD_LIMIT, COORD_LIMIT);
    let y: i64 = crate::math::clamp_i64(v.y - gy, -COORD_LIMIT, COORD_LIMIT);
    Vec2 { x, y }
}

/// Pull every moving entity toward the origin, harder the farther out it is.
pub fn global_gravity(state: &mut State)
    requires
        state_wf(old(state).recs@),
    ensures
        final(state).recs@.len() == old(state).recs@.len(),
        forall|i: int|
            0 <= i < old(state).recs@.len() ==> final(state).recs@[i] == rec_after_gravity(
                #[trigger] old(state).recs@[i],
            ),
        state_wf(final(state).recs@),
{
    let n: usize = state.recs.len();
    let mut i: usize = 0;
    while i < n
        invariant
            0 <= i <= n,
            n == state.recs@.len() == old(state).recs@.len(),
            state_wf(old(state).recs@),
            forall|j: int|
                0 <= j < i ==> state.recs@[j] == rec_after_gravity(#[trigger] old(state).recs@[j]),
            forall|j: int| i <= j < n ==> state.recs@[j] == old(state).recs@[j],
        decreases n - i,
    {
        match &mut state.recs[i] {
            Rec::Dot { pos, speed, .. } => {
                *speed = gravity_apply(*pos, *speed);
            },
            Rec::Player { pos, speed, .. } => {
                *speed = gravity_apply(*pos, *speed);
            },
            _ => {},
        }
        i = i + 1;
    }
    proof {
        lemma_pointwise_gravity_wf(old(state).recs@, state.recs@);
    }
}

pub proof fn lemma_pointwise_gravity_wf(a: Seq<Rec>, b: Seq<Rec>)
    requires
        state_wf(a),
        b.len() == a.len(),
        forall|i: int| 0 <= i < a.len() ==> b[i] == rec_after_gravity(#[trigger] a[i]),
    ensures
        state_wf(b),
{
    assert forall|i: int| 0 <= i < b.len() implies rec_wf(#[trigger] b[i]) by {
        assert(rec_wf(a[i]));
    }
    assert forall|i: int| 0 <= i < b.len() && is_player(#[trigger] b[i]) implies ring_list_wf(
        b,
        i,
    ) by {
        assert(is_player(a[i]));
        assert(ring_list_wf(a, i));
        assert(player_dots(b[i]) == player_dots(a[i]));
        assert forall|k: int| 0 <= k < player_dots(b[i]).len() implies {
            let d = #[trigger] player_dots(b[i])[k] as int;
            0 <= d < b.len() && is_ring(b[d])
        } by {
            let d = player_dots(a[i])[k] as int;
            assert(is_ring(a[d]));
            assert(b[d] == rec_after_gravity(a[d]));
        }
    }
}

// --- integration and damping ---------------------------------------------------

/// A position after one step of its speed, clamped into the world box.
pub open spec fn pos_after_speed(p: Vec2, v: Vec2) -> Vec2 {
    Vec2 {
        x: clamp_spec(p.x + v.x, -COORD_LIMIT as int, COORD_LIMIT as int) as i64,
        y: clamp_spec(p.y + v.y, -COORD_LIMIT as int, COORD_LIMIT as int) as i64,
    }
}

pub open spec fn rec_after_integrate(r: Rec) -> Rec {
    match r {
        Rec::Dot { pos, speed, color, neighbours } => Rec::Dot {
            pos: pos_after_speed(pos, speed),
            speed,
            color,
            neighbours,
        },
        Rec::Player { pos, speed, size, color, data } => Rec::Player {
            pos: pos_after_speed(pos, speed),
            speed,
            size,
            color,
            data,
        },
        _ => r,
    }
}

/// Move every entity with a speed by that speed.
pub fn position_speed(state: &mut State)
    requires
        state_wf(old(state).recs@),
    ensures
        final(state).recs@.len() == old(state).recs@.len(),
        forall|i: int|
            0 <= i < old(state).recs@.len() ==> final(state).recs@[i] == rec_after_integrate(
                #[trigger] old(state).recs@[i],
            ),
        state_wf(final(state).recs@),
{
    let n: usize = state.recs.len();
    let mut i: usize = 0;
    while i < n
        invariant
            0 <= i <= n,
            n == state.recs@.len() == old(state).recs@.len(),
            state_wf(old(state).recs@),
            forall|j: int|
                0 <= j < i ==> state.recs@[j] == rec_after_integrate(
                    #[trigger] old(state).recs@[j],
                ),
            forall|j: int| i <= j < n ==> state.recs@[j] == old(state).recs@[j],
        decreases n - i,
    {
        match &mut state.recs[i] {
            Rec::Dot { pos, speed, .. } => {
                let x: i64 = crate::math::clamp_i64(pos.x + speed.x, -COORD_LIMIT, COORD_LIMIT);
                let y: i64 = crate::math::clamp_i64(pos.y + speed.y, -COORD_LIMIT, COORD_LIMIT);
                *pos = Vec2 { x, y };
            },
            Rec::Player { pos, speed, .. } => {
                let x: i64 = crate::math::clamp_i64(pos.x + speed.x, -COORD_LIMIT, COORD_LIMIT);
                let y: i64 = crate::math::clamp_i64(pos.y + speed.y, -COORD_LIMIT, COORD_LIMIT);
                *pos = Vec2 { x, y };
            },
            _ => {},
        }
        i = i + 1;
    }
    proof {
        lemma_pointwise_integrate_wf(old(state).recs@, state.recs@);
    }
}

pub proof fn lemma_pointwise_integrate_wf(a: Seq<Rec>, b: Seq<Rec>)
    requires
        state_wf(a),
        b.len() == a.len(),
        forall|i: int| 0 <= i < a.len() ==> b[i] == rec_after_integrate(#[trigger] a[i]),
    ensures
        state_wf(b),
{
    assert forall|i: int| 0 <= i < b.len() implies rec_wf(#[trigger] b[i]) by {
        assert(rec_wf(a[i]));
    }
    assert forall|i: int| 0 <= i < b.len() && is_player(#[trigger] b[i]) implies ring_list_wf(
        b,
        i,
    ) by {
        assert(is_player(a[i]));
        assert(ring_list_wf(a, i));
        assert(player_dots(b[i]) == player_dots(a[i]));
        assert forall|k: int| 0 <= k < player_dots(b[i]).len() implies {
            let d = #[trigger] player_dots(b[i])[k] as int;
            0 <= d < b.len() && is_ring(b[d])
        } by {
            let d = player_dots(a[i])[k] as int;
            assert(is_ring(a[d]));
            assert(b[d] == rec_after_integrate(a[d]));
        }
    }
}

/// A speed damped by one tick: nine tenths, rounded toward zero.
pub open spec fn speed_after_damp(v: Vec2) -> Vec2 {
    Vec2 { x: trunc_div(v.x * 9, 10) as i64, y: trunc_div(v.y * 9, 10) as i64 }
}

pub open spec fn rec_after_damp(r: Rec) -> Rec {
    match r {
        Rec::Dot { pos, speed, color, neighbours } => Rec::Dot {
            pos,
            speed: speed_after_damp(speed),
            color,
            neighbours,
        },
        Rec::Player { pos, speed, size, color, data } => Rec::Player {
            pos,
            speed: speed_after_damp(speed),
            size,
            color,
            data,
        },
        _ => r,
    }
}

/// Damp every speed multiplicatively; the timestep is implicitly one tick.
pub fn decelerate(state: &mut State)
    requires
        state_wf(old(state).recs@),
    ensures
        final(state).recs@.len() == old(state).recs@.len(),
        forall|i: int|
            0 <= i < old(state).recs@.len() ==> final(state).recs@[i] == rec_after_damp(
                #[trigger] old(state).recs@[i],
            ),
        state_wf(final(state).recs@),
{
    let n: usize = state.recs.len();
    let mut i: usize = 0;
    while i < n
        invariant
            0 <= i <= n,
            n == state.recs@.len() == old(state).recs@.len(),
            state_wf(old(state).recs@),
            forall|j: int|
                0 <= j < i ==> state.recs@[j] == rec_after_damp(#[trigger] old(state).recs@[j]),
            forall|j: int| i <= j < n ==> state.recs@[j] == old(state).recs@[j],
        decreases n - i,
    {
        match &mut state.recs[i] {
            Rec::Dot { speed, .. } => {
                let x: i64 = crate::math::div_trunc_i64(speed.x * 9, 10);
                let y: i64 = crate::math::div_trunc_i64(speed.y * 9, 10);
                proof {
                    lemma_damp_in_world(*speed);
                }
                *speed = Vec2 { x, y };
            },
            Rec::Player { speed, .. } => {
                let x: i64 = crate::math::div_trunc_i64(speed.x * 9, 10);
                let y: i64 = crate::math::div_trunc_i64(speed.y * 9, 10);
                proof {
                    lemma_damp_in_world(*speed);
                }
                *speed = Vec2 { x, y };
            },
            _ => {},
        }
        i = i + 1;
    }
    proof {
        lemma_pointwise_damp_wf(old(state).recs@, state.recs@);
    }
}

/// Nine tenths, rounded toward zero, never grows a magnitude.
pub proof fn lemma_damp_component(c: int)
    requires
        -1_000_000_000 <= c <= 1_000_000_000,
    ensures
        c >= 0 ==> 0 <= trunc_div(c * 9, 10) <= c,
        c < 0 ==> c <= trunc_div(c * 9, 10) <= 0,
{
    if c >= 0 {
        assert(c * 9 >= 0 && c * 9 <= c * 10) by (nonlinear_arith)
            requires
                c >= 0,
        ;
        vstd::arithmetic::div_mod::lemma_div_pos_is_pos(c * 9, 10);
        vstd::arithmetic::div_mod::lemma_div_is_ordered(c * 9, c * 10, 10);
        vstd::arithmetic::div_mod::lemma_div_multiples_vanish(c, 10);
        assert(c * 10 == 10 * c) by (nonlinear_arith);
    } else {
        let m = -c;
        assert(m * 9 >= 0 && m * 9 <= m * 10) by (nonlinear_arith)
            requires
                m >= 0,
        ;
        vstd::arithmetic::div_mod::lemma_div_pos_is_pos(m * 9, 10);
        vstd::arithmetic::div_mod::lemma_div_is_ordered(m * 9, m * 10, 10);
        vstd::arithmetic::div_mod::lemma_div_multiples_vanish(m, 10);
        assert(m * 10 == 10 * m) by (nonlinear_arith);
        assert(c * 9 == -(m * 9)) by (nonlinear_arith)
            requires
                m == -c,
        ;
        assert(trunc_div(c * 9, 10) == -(m * 9 / 10));
    }
}

/// Damping keeps a speed inside the world box.
pub proof fn lemma_damp_in_world(v: Vec2)
    requires
        in_world(v),
    ensures
        in_world(speed_after_damp(v)),
{
    lemma_damp_component(v.x as int);
    lemma_damp_component(v.y as int);
}

pub proof fn lemma_pointwise_damp_wf(a: Seq<Rec>, b: Seq<Rec>)
    requires
        state_wf(a),
        b.len() == a.len(),
        forall|i: int| 0 <= i < a.len() ==> b[i] == rec_after_damp(#[trigger] a[i]),
    ensures
        state_wf(b),
{
    assert forall|i: int| 0 <= i < b.len() implies rec_wf(#[trigger] b[i]) by {
        assert(rec_wf(a[i]));
        match a[i] {
            Rec::Dot { speed, .. } => {
                lemma_damp_in_world(speed);
            },
            Rec::Player { speed, .. } => {
                lemma_damp_in_world(speed);
            },
            _ => {},
        }
    }
    assert forall|i: int| 0 <= i < b.len() && is_player(#[trigger] b[i]) implies ring_list_wf(
        b,
        i,
    ) by {
        assert(is_player(a[i]));
        assert(ring_list_wf(a, i));
        assert(player_dots(b[i]) == player_dots(a[i]));
        assert forall|k: int| 0 <= k < player_dots(b[i]).len() implies {
            let d = #[trigger] player_dots(b[i])[k] as int;
            0 <= d < b.len() && is_ring(b[d])
        } by {
            let d = player_dots(a[i])[k] as int;
            assert(is_ring(a[d]));
            assert(b[d] == rec_after_damp(a[d]));
        }
    }
}

// --- rotation ------------------------------------------------------------------

/// A rotation phase one tick later: a thousandth of a turn further, wrapped.
pub open spec fn rot_after_tick(rot: int) -> int {
    if rot + 1000 >= 1_000_000 {
        rot + 1000 - 1_000_000
    } else {
        rot + 1000
    }
}

pub open spec fn rec_after_rotate(r: Rec) -> Rec {
    match r {
        Rec::Player { pos, speed, size, color, data } => Rec::Player {
            pos,
            speed,
            size,
            color,
            data: PlayerData { dots: data.dots, energy: data.energy, rot: rot_after_tick(data.rot as int) as i64 },
        },
        _ => r,
    }
}

impl Player {
    /// Advance every player's rotation phase by a fixed small increment.
    pub fn rotate(state: &mut State)
        requires
            state_wf(old(state).recs@),
        ensures
            final(state).recs@.len() == old(state).recs@.len(),
            forall|i: int|
                0 <= i < old(state).recs@.len() ==> final(state).recs@[i] == rec_after_rotate(
                    #[trigger] old(state).recs@[i],
                ),
            state_wf(final(state).recs@),
    {
        let n: usize = state.recs.len();
        let mut i: usize = 0;
        while i < n
            invariant
                0 <= i <= n,
                n == state.recs@.len() == old(state).recs@.len(),
                state_wf(old(state).recs@),
                forall|j: int|
                    0 <= j < i ==> state.recs@[j] == rec_after_rotate(
                        #[trigger] old(state).recs@[j],
                    ),
                forall|j: int| i <= j < n ==> state.recs@[j] == old(state).recs@[j],
            decreases n - i,
        {
            match &mut state.recs[i] {
                Rec::Player { data, .. } => {
                    let r: i64 = data.rot + 1000;
                    data.rot = if r >= 1_000_000 {
                        r - 1_000_000
                    } else {
                        r
                    };
                },
                _ => {},
            }
            i = i + 1;
        }
        proof {
            let a = old(state).recs@;
            let b = state.recs@;
            assert forall|i2: int| 0 <= i2 < b.len() implies rec_wf(#[trigger] b[i2]) by {
                assert(rec_wf(a[i2]));
            }
            assert forall|i2: int|
                0 <= i2 < b.len() && is_player(#[trigger] b[i2]) implies ring_list_wf(b, i2) by {
                assert(is_player(a[i2]));
                assert(ring_list_wf(a, i2));
                assert(player_dots(b[i2]) == player_dots(a[i2]));
                assert forall|k: int| 0 <= k < player_dots(b[i2]).len() implies {
                    let d = #[trigger] player_dots(b[i2])[k] as int;
                    0 <= d < b.len() && is_ring(b[d]) && ring_owner(b[d]) == i2
                } by {
                    let d = player_dots(a[i2])[k] as int;
                    assert(is_ring(a[d]));
                    assert(b[d] == rec_after_rotate(a[d]));
                }
            }
        }
    }
}

/// The player growth state machine. Players are stored as entity slots; this
/// type only groups their per-tick passes.
pub struct Player {}

// --- the neighbour cache rebuild ------------------------------------------------

/// The element the partition is built from for slot `i`.
pub open spec fn element_at(recs: Seq<Rec>, i: int) -> crate::space::Element {
    crate::space::Element { entity: i as usize, pos: pos_of(recs[i]) }
}

/// The elements of all live slots below `n`, in slot order.
pub open spec fn elements_upto(recs: Seq<Rec>, n: int) -> Seq<crate::space::Element>
    decreases n,
{
    if n <= 0 {
        Seq::empty()
    } else {
        let rest = elements_upto(recs, n - 1);
        if alive(recs[n - 1]) {
            rest.push(element_at(recs, n - 1))
        } else {
            rest
        }
    }
}

/// The elements of every live slot: what one tick's spatial index holds.
pub open spec fn all_elements(recs: Seq<Rec>) -> Seq<crate::space::Element> {
    elements_upto(recs, recs.len() as int)
}

/// Every member of the index is a live slot carrying that slot's position.
pub proof fn lemma_elements_members(recs: Seq<Rec>, n: int)
    requires
        n <= recs.len() <= 1_000_000,
    ensures
        forall|k: int|
            0 <= k < elements_upto(recs, n).len() ==> {
                let el = #[trigger] elements_upto(recs, n)[k];
                &&& 0 <= el.entity < n
                &&& alive(recs[el.entity as int])
                &&& el.pos == pos_of(recs[el.entity as int])
            },
    decreases n,
{
    if n > 0 {
        lemma_elements_members(recs, n - 1);
        let s = elements_upto(recs, n);
        let rest = elements_upto(recs, n - 1);
        assert forall|k: int| 0 <= k < s.len() implies {
            let el = #[trigger] s[k];
            &&& 0 <= el.entity < n
            &&& alive(recs[el.entity as int])
            &&& el.pos == pos_of(recs[el.entity as int])
        } by {
            if alive(recs[n - 1]) {
                if k < rest.len() {
                    assert(s[k] == rest[k]);
                } else {
                    assert(s[k] == element_at(recs, n - 1));
                }
            } else {
                assert(s[k] == rest[k]);
            }
        }
    }
}

/// Every live slot below `n` appears in the index.
pub proof fn lemma_elements_cover(recs: Seq<Rec>, n: int, j: int)
    requires
        0 <= j < n <= recs.len() <= 1_000_000,
        alive(recs[j]),
    ensures
        elements_upto(recs, n).contains(element_at(recs, j)),
    decreases n,
{
    if j == n - 1 {
        assert(elements_upto(recs, n).last() == element_at(recs, j));
    } else {
        lemma_elements_cover(recs, n - 1, j);
        let rest = elements_upto(recs, n - 1);
        assert forall|m: int| 0 <= m < rest.len() implies elements_upto(recs, n).contains(
            #[trigger] rest[m],
        ) by {
            if alive(recs[n - 1]) {
                assert(elements_upto(recs, n)[m] == rest[m]);
            } else {
                assert(elements_upto(recs, n)[m] == rest[m]);
            }
        }
        let w = choose|w: int| 0 <= w < rest.len() && rest[w] == element_at(recs, j);
        assert(elements_upto(recs, n).contains(rest[w]));
    }
}

/// The position of a live entry of `els_of` matches the stored offset.
pub proof fn lemma_els_of_index(ns: Seq<crate::space::Neighbour>, q: Vec2, k: int)
    requires
        0 <= k < ns.len(),
    ensures
        crate::space::els_of(ns, q)[k] == crate::space::el_of(ns[k], q),
        crate::space::els_of(ns, q).len() == ns.len(),
    decreases ns.len(),
{
    if k == ns.len() - 1 {
        lemma_els_of_len(ns.drop_last(), q);
    } else {
        lemma_els_of_index(ns.drop_last(), q, k);
    }
}

pub proof fn lemma_els_of_len(ns: Seq<crate::space::Neighbour>, q: Vec2)
    ensures
        crate::space::els_of(ns, q).len() == ns.len(),
    decreases ns.len(),
{
    if ns.len() > 0 {
        lemma_els_of_len(ns.drop_last(), q);
    }
}

/// Two slots agreeing on everything but their neighbour buffer.
pub open spec fn same_but_neighbours(a: Rec, b: Rec) -> bool {
    match (a, b) {
        (
            Rec::Dot { pos: p1, speed: s1, color: c1, .. },
            Rec::Dot { pos: p2, speed: s2, color: c2, .. },
        ) => p1 == p2 && s1 == s2 && c1 == c2,
        (
            Rec::Ring { pos: p1, color: c1, owner: o1, .. },
            Rec::Ring { pos: p2, color: c2, owner: o2, .. },
        ) => p1 == p2 && c1 == c2 && o1 == o2,
        _ => a == b,
    }
}

/// The neighbour cache of slot `i` is exactly the live population within the
/// query ball around its position, entry for entry.
pub open spec fn neighbours_exact(recs: Seq<Rec>, ns: Seq<crate::space::Neighbour>, i: int, dist: int) -> bool {
    let q = pos_of(recs[i]);
    &&& forall|el: crate::space::Element|
        crate::space::els_of(ns, q).to_multiset().count(el) == if crate::space::in_range2(
            el.pos,
            q,
            dist * dist,
        ) {
            all_elements(recs).to_multiset().count(el) as int
        } else {
            0int
        }
    &&& forall|k: int|
        0 <= k < ns.len() ==> crate::space::neighbour_valid(#[trigger] ns[k], dist * dist)
}

fn rec_alive(r: &Rec) -> (b: bool)
    ensures
        b == alive(*r),
{
    match r {
        Rec::Dead => false,
        _ => true,
    }
}

fn rec_pos(r: &Rec) -> (p: Vec2)
    ensures
        p == pos_of(*r),
{
    match r {
        Rec::Dead => Vec2 { x: 0, y: 0 },
        Rec::Dot { pos, .. } => *pos,
        Rec::Player { pos, .. } => *pos,
        Rec::Ring { pos, .. } => *pos,
    }
}

fn rec_has_neighbours(r: &Rec) -> (b: bool)
    ensures
        b == has_neighbours(*r),
{
    match r {
        Rec::Dot { .. } => true,
        Rec::Ring { .. } => true,
        _ => false,
    }
}

impl Neighbours {
    /// Rebuild every entity's neighbour cache: index all live entities in a
    /// fresh spatial partition, then refill each buffer with exactly the
    /// entities within `dist` of that entity, offsets and distances exact.
    pub fn update(state: &mut State, dist: i64)
        requires
            state_wf(old(state).recs@),
            0 <= dist <= 10_000_000,
        ensures
            final(state).recs@.len() == old(state).recs@.len(),
            forall|i: int|
                0 <= i < old(state).recs@.len() ==> same_but_neighbours(
                    #[trigger] old(state).recs@[i],
                    final(state).recs@[i],
                ),
            forall|i: int|
                0 <= i < old(state).recs@.len() && !has_neighbours(old(state).recs@[i])
                    ==> final(state).recs@[i] == #[trigger] old(state).recs@[i],
            forall|i: int|
                0 <= i < old(state).recs@.len() && has_neighbours(#[trigger] old(state).recs@[i])
                    ==> neighbours_exact(
                    old(state).recs@,
                    neighbours_of(final(state).recs@[i]),
                    i,
                    dist as int,
                ),
            state_wf(final(state).recs@),
    {
        let ghost recs0 = old(state).recs@;
        let n: usize = state.recs.len();
        let mut els: Vec<crate::space::Element> = Vec::new();
        let mut i: usize = 0;
        while i < n
            invariant
                0 <= i <= n,
                n == state.recs@.len(),
                state.recs@ == recs0,
                state_wf(recs0),
                els@ == elements_upto(recs0, i as int),
                els@.len() <= i,
                crate::space::elems_in_world(els@),
            decreases n - i,
        {
            let a: bool = rec_alive(&state.recs[i]);
            if a {
                let p: Vec2 = rec_pos(&state.recs[i]);
                let ghost pre = els@;
                els.push(crate::space::Element { entity: i, pos: p });
                proof {
                    assert(rec_wf(recs0[i as int]));
                    assert(els@ =~= pre.push(element_at(recs0, i as int)));
                }
            }
            i = i + 1;
        }
        let partition = crate::space::Partition::from_elements(els);
        let space = partition.partition(32);
        proof {
            assert(crate::space::rects_ms(space.rects@) =~= all_elements(recs0).to_multiset());
        }
        let mut i2: usize = 0;
        while i2 < n
            invariant
                0 <= i2 <= n,
                n == state.recs@.len() == recs0.len(),
                state_wf(recs0),
                0 <= dist <= 10_000_000,
                crate::space::rects_wf(space.rects@),
                crate::space::rects_ms(space.rects@) =~= all_elements(recs0).to_multiset(),
                forall|j: int| i2 <= j < n ==> state.recs@[j] == recs0[j],
                forall|j: int|
                    0 <= j < i2 ==> same_but_neighbours(#[trigger] recs0[j], state.recs@[j]),
                forall|j: int|
                    0 <= j < i2 && !has_neighbours(recs0[j]) ==> state.recs@[j]
                        == #[trigger] recs0[j],
                forall|j: int|
                    0 <= j < i2 && has_neighbours(#[trigger] recs0[j]) ==> neighbours_exact(
                        recs0,
                        neighbours_of(state.recs@[j]),
                        j,
                        dist as int,
                    ),
            decreases n - i2,
        {
            let hn: bool = rec_has_neighbours(&state.recs[i2]);
            if hn {
                let q: Vec2 = rec_pos(&state.recs[i2]);
                proof {
                    assert(rec_wf(recs0[i2 as int]));
                }
                let ns: Vec<crate::space::Neighbour> = space.neighbours(q, dist);
                match &mut state.recs[i2] {
                    Rec::Dot { neighbours, .. } => {
                        neighbours.vec = ns;
                    },
                    Rec::Ring { neighbours, .. } => {
                        neighbours.vec = ns;
                    },
                    _ => {
                        proof {
                            assert(false);
                        }
                    },
                }
            }
            i2 = i2 + 1;
        }
        proof {
            let a = recs0;
            let b = state.recs@;
            assert forall|i3: int| 0 <= i3 < b.len() implies rec_wf(#[trigger] b[i3]) by {
                assert(rec_wf(a[i3]));
                assert(same_but_neighbours(a[i3], b[i3]));
            }
            assert forall|i3: int|
                0 <= i3 < b.len() && is_player(#[trigger] b[i3]) implies ring_list_wf(b, i3) by {
                assert(same_but_neighbours(a[i3], b[i3]));
                assert(is_player(a[i3]));
                assert(ring_list_wf(a, i3));
                assert forall|k: int| 0 <= k < player_dots(b[i3]).len() implies {
                    let d = #[trigger] player_dots(b[i3])[k] as int;
                    0 <= d < b.len() && is_ring(b[d]) && ring_owner(b[d]) == i3
                } by {
                    let d = player_dots(a[i3])[k] as int;
                    assert(is_ring(a[d]));
                    assert(same_but_neighbours(a[d], b[d]));
                }
            }
        }
    }
}

// --- randomness ----------------------------------------------------------------

/// Relies on rand's `Rng::gen_range` over `lo..hi`: the sample always lies in
/// the half-open range; the range is non-empty so the call cannot panic.
#[verifier::external_body]
fn rand_range_i64(lo: i64, hi: i64) -> (r: i64)
    requires
        lo < hi,
    ensures
        lo <= r < hi,
{
    rand::Rng::gen_range(&mut rand::thread_rng(), lo..hi)
}

/// A source of the random positions and colors that spawning uses.
struct Random {}

impl Random {
    /// A vector with both coordinates drawn from `(-amp, amp)` milli-units.
    fn dvec2(&mut self, amp: i64) -> (r: Vec2)
        requires
            0 < amp <= 1_000_000_000,
        ensures
            -amp < r.x < amp,
            -amp < r.y < amp,
            in_world(r),
    {
        let x: i64 = rand_range_i64(-amp + 1, amp);
        let y: i64 = rand_range_i64(-amp + 1, amp);
        Vec2 { x, y }
    }

    /// A random dot coat: any hue, fairly saturated, mid lightness.
    fn color(&mut self) -> (c: Color)
        ensures
            color_valid(c),
            0 <= c.hue < 360_000,
            70_000 <= c.sat < 90_000,
            40_000 <= c.light < 60_000,
    {
        let hue: i64 = rand_range_i64(0, 360_000);
        let sat: i64 = rand_range_i64(70_000, 90_000);
        let light: i64 = rand_range_i64(40_000, 60_000);
        Color { hue, sat, light }
    }
}

/// A freshly spawned plain dot: placed near the origin, starting with its own
/// position as its speed, fairly saturated.
pub open spec fn fresh_dot(r: Rec) -> bool {
    match r {
        Rec::Dot { pos, speed, color, neighbours } => {
            &&& -10_000 < pos.x < 10_000
            &&& -10_000 < pos.y < 10_000
            &&& speed == pos
            &&& 0 <= color.hue < 360_000
            &&& 70_000 <= color.sat < 90_000
            &&& 40_000 <= color.light < 60_000
            &&& neighbours.vec@.len() == 0
        },
        _ => false,
    }
}

impl State {
    /// Populate `n` randomly placed, randomly colored plain dots.
    pub fn batch_spawn_dots(&mut self, n: usize)
        requires
            state_wf(old(self).recs@),
            old(self).recs@.len() + n <= 1_000_000,
        ensures
            final(self).recs@.len() == old(self).recs@.len() + n,
            forall|i: int|
                0 <= i < old(self).recs@.len() ==> final(self).recs@[i] == #[trigger] old(
                    self,
                ).recs@[i],
            forall|i: int|
                old(self).recs@.len() <= i < final(self).recs@.len() ==> fresh_dot(
                    #[trigger] final(self).recs@[i],
                ),
            state_wf(final(self).recs@),
    {
        let ghost recs0 = old(self).recs@;
        let mut random = Random {};
        let mut k: usize = 0;
        while k < n
            invariant
                0 <= k <= n,
                recs0.len() + n <= 1_000_000,
                self.recs@.len() == recs0.len() + k,
                state_wf(recs0),
                forall|i: int| 0 <= i < recs0.len() ==> self.recs@[i] == #[trigger] recs0[i],
                forall|i: int|
                    recs0.len() <= i < self.recs@.len() ==> fresh_dot(#[trigger] self.recs@[i]),
            decreases n - k,
        {
            let pos: Vec2 = random.dvec2(10_000);
            let speed: Vec2 = pos;
            let color: Color = random.color();
            let neighbours = Neighbours::new();
            self.recs.push(Rec::Dot { pos, speed, color, neighbours });
            k = k + 1;
        }
        proof {
            let b = self.recs@;
            assert forall|i: int| 0 <= i < b.len() implies rec_wf(#[trigger] b[i]) by {
                if i < recs0.len() {
                    assert(rec_wf(recs0[i]));
                } else {
                    assert(fresh_dot(b[i]));
                }
            }
            assert forall|i: int|
                0 <= i < b.len() && is_player(#[trigger] b[i]) implies ring_list_wf(b, i) by {
                assert(i < recs0.len());
                assert(ring_list_wf(recs0, i));
                assert forall|k2: int| 0 <= k2 < player_dots(b[i]).len() implies {
                    let d = #[trigger] player_dots(b[i])[k2] as int;
                    0 <= d < b.len() && is_ring(b[d]) && ring_owner(b[d]) == i
                } by {
                    let d = player_dots(recs0[i])[k2] as int;
                    assert(is_ring(recs0[d]));
                }
            }
        }
    }

    /// Add a small impulse to a player's speed; quietly does nothing when the
    /// handle does not name a player.
    pub fn player_input(&mut self, player: Entity, dir: Vec2) -> (r: Option<()>)
        requires
            state_wf(old(self).recs@),
            in_world(dir),
        ensures
            state_wf(final(self).recs@),
            final(self).recs@.len() == old(self).recs@.len(),
            r is Some <==> player.idx < old(self).recs@.len() && is_player(
                old(self).recs@[player.idx as int],
            ),
            r is None ==> final(self).recs@ == old(self).recs@,
            r is Some ==> {
                let p = player.idx as int;
                let old_rec = old(self).recs@[p];
                &&& forall|i: int|
                    0 <= i < old(self).recs@.len() && i != p ==> final(self).recs@[i]
                        == #[trigger] old(self).recs@[i]
                &&& final(self).recs@[p] == (match old_rec {
                    Rec::Player { pos, speed, size, color, data } => Rec::Player {
                        pos,
                        speed: Vec2 {
                            x: clamp_spec(
                                speed.x + trunc_div(dir.x as int, 100),
                                -COORD_LIMIT as int,
                                COORD_LIMIT as int,
                            ) as i64,
                            y: clamp_spec(
                                speed.y + trunc_div(dir.y as int, 100),
                                -COORD_LIMIT as int,
                                COORD_LIMIT as int,
                            ) as i64,
                        },
                        size,
                        color,
                        data,
                    },
                    _ => old_rec,
                })
            },
    {
        let ghost recs0 = old(self).recs@;
        if player.idx >= self.recs.len() {
            return None;
        }
        let found: bool = match &self.recs[player.idx] {
            Rec::Player { .. } => true,
            _ => false,
        };
        if !found {
            return None;
        }
        let dx: i64 = crate::math::div_trunc_i64(dir.x, 100);
        let dy: i64 = crate::math::div_trunc_i64(dir.y, 100);
        match &mut self.recs[player.idx] {
            Rec::Player { speed, .. } => {
                let x: i64 = crate::math::clamp_i64(speed.x + dx, -COORD_LIMIT, COORD_LIMIT);
                let y: i64 = crate::math::clamp_i64(speed.y + dy, -COORD_LIMIT, COORD_LIMIT);
                *speed = Vec2 { x, y };
            },
            _ => {
                proof {
                    assert(false);
                }
            },
        }
        proof {
            let b = self.recs@;
            assert forall|i: int| 0 <= i < b.len() implies rec_wf(#[trigger] b[i]) by {
                assert(rec_wf(recs0[i]));
            }
            lemma_ring_lists_after_update(recs0, b, player.idx as int);
        }
        Some(())
    }

    /// The position a live entity currently has, if the handle resolves.
    pub fn position(&self, entity: Entity) -> (r: Option<Position>)
        ensures
            r is Some <==> entity.idx < self.recs@.len() && alive(self.recs@[entity.idx as int]),
            r is Some ==> r->Some_0 == (Position {
                vec: pos_of(self.recs@[entity.idx as int]),
            }),
    {
        if entity.idx >= self.recs.len() {
            return None;
        }
        match &self.recs[entity.idx] {
            Rec::Dead => None,
            Rec::Dot { pos, .. } => Some(Position { vec: *pos }),
            Rec::Player { pos, .. } => Some(Position { vec: *pos }),
            Rec::Ring { pos, .. } => Some(Position { vec: *pos }),
        }
    }

    /// The size a player currently has, if the handle names a player; only
    /// players carry a size.
    pub fn size(&self, entity: Entity) -> (r: Option<Size>)
        ensures
            r is Some <==> entity.idx < self.recs@.len() && is_player(
                self.recs@[entity.idx as int],
            ),
            r is Some ==> r->Some_0 == Size(player_size(self.recs@[entity.idx as int]) as i64),
    {
        if entity.idx >= self.recs.len() {
            return None;
        }
        match &self.recs[entity.idx] {
            Rec::Player { size, .. } => Some(Size(*size)),
            _ => None,
        }
    }
}

// --- pairwise attraction ---------------------------------------------------------

/// A vector from clamped components.
pub open spec fn vec2_clamped(x: int, y: int) -> Vec2 {
    Vec2 {
        x: clamp_spec(x, -COORD_LIMIT as int, COORD_LIMIT as int) as i64,
        y: clamp_spec(y, -COORD_LIMIT as int, COORD_LIMIT as int) as i64,
    }
}

/// The color of a live entity, if the index resolves.
pub open spec fn other_color(recs: Seq<Rec>, e: int) -> Option<Color> {
    if 0 <= e < recs.len() && alive(recs[e]) {
        Option::Some(color_of(recs[e]))
    } else {
        Option::None
    }
}

/// The magnitude-preserving signed square root, in milli fixed point.
pub open spec fn signed_sqrt_milli(fb: int) -> int {
    if fb >= 0 {
        sqrt_floor(fb * 1000)
    } else {
        -sqrt_floor(-fb * 1000)
    }
}

/// One neighbour's contribution to a dot's speed, in milli-units: nothing for
/// a vanished offset or neighbour; a short-range repulsion below 0.3 units;
/// otherwise the hue-difference force and the low-lightness suction, scaled by
/// combined saturation and damped by the cube of the distance.
pub open spec fn attraction_delta(c: Color, oc: Option<Color>, n: crate::space::Neighbour) -> (
    int,
    int,
) {
    let dx = n.diff.x as int;
    let dy = n.diff.y as int;
    let d = n.dist as int;
    if dx == 0 && dy == 0 || d <= 0 {
        (0, 0)
    } else if d < 300 {
        (trunc_div(-dx * 100, d * d), trunc_div(-dy * 100, d * d))
    } else if oc is None {
        (0, 0)
    } else {
        let o = oc->Some_0;
        let cd = crate::color::hue_diff_spec(c.hue as int, o.hue as int) + 54_000;
        let fb = 1000 - cd / 90;
        let force = signed_sqrt_milli(fb);
        let su1 = 1000 - o.light / 50;
        let su = trunc_div(su1 * su1 * su1, 1_000_000);
        let pw1 = o.sat / 200 + c.sat / 200;
        let pw = trunc_div(pw1 * pw1 * pw1, 1_000_000);
        let pf = trunc_div(pw * force, 1000);
        let ax = trunc_div(trunc_div(dx * pf * 10_000_000, d * d), d * d) + trunc_div(
            3 * dx * su,
            1000 * d,
        );
        let ay = trunc_div(trunc_div(dy * pf * 10_000_000, d * d), d * d) + trunc_div(
            3 * dy * su,
            1000 * d,
        );
        (ax, ay)
    }
}

/// A dot's speed after its whole neighbour list has pulled on it, first `k`
/// entries folded in, each contribution clamped into the world box.
pub open spec fn speed_after_attract(
    recs: Seq<Rec>,
    c: Color,
    v: Vec2,
    ns: Seq<crate::space::Neighbour>,
    k: int,
) -> Vec2
    decreases k,
{
    if k <= 0 {
        v
    } else {
        let prev = speed_after_attract(recs, c, v, ns, k - 1);
        let n = ns[k - 1];
        let (ax, ay) = attraction_delta(c, other_color(recs, n.entity as int), n);
        vec2_clamped(prev.x + ax, prev.y + ay)
    }
}

pub open spec fn rec_after_attract(recs: Seq<Rec>, r: Rec) -> Rec {
    match r {
        Rec::Dot { pos, speed, color, neighbours } => Rec::Dot {
            pos,
            speed: speed_after_attract(recs, color, speed, neighbours.vec@, neighbours.vec@.len() as int),
            color,
            neighbours,
        },
        _ => r,
    }
}

/// Division by a positive amount never grows a magnitude.
pub proof fn lemma_trunc_div_le(a: int, n: int)
    requires
        n >= 1,
        -9_000_000_000_000_000_000 <= a <= 9_000_000_000_000_000_000,
    ensures
        a >= 0 ==> 0 <= trunc_div(a, n) <= a,
        a < 0 ==> a <= trunc_div(a, n) <= 0,
{
    if a >= 0 {
        vstd::arithmetic::div_mod::lemma_div_pos_is_pos(a, n);
        vstd::arithmetic::div_mod::lemma_div_is_ordered_by_denominator(a, 1, n);
        assert(a / 1 == a) by {
            vstd::arithmetic::div_mod::lemma_div_basics(a);
        }
    } else {
        let m = -a;
        vstd::arithmetic::div_mod::lemma_div_pos_is_pos(m, n);
        vstd::arithmetic::div_mod::lemma_div_is_ordered_by_denominator(m, 1, n);
        assert(m / 1 == m) by {
            vstd::arithmetic::div_mod::lemma_div_basics(m);
        }
    }
}

fn lookup_color(recs: &Vec<Rec>, e: usize) -> (oc: Option<Color>)
    ensures
        oc == other_color(recs@, e as int),
{
    if e >= recs.len() {
        return None;
    }
    match &recs[e] {
        Rec::Dead => None,
        Rec::Dot { color, .. } => Some(*color),
        Rec::Player { color, .. } => Some(*color),
        Rec::Ring { color, .. } => Some(*color),
    }
}

/// One neighbour's pull, computed exactly as `attraction_delta` states it.
fn neighbour_attraction(c: Color, oc: Option<Color>, n: crate::space::Neighbour) -> (r: (i64, i64))
    requires
        color_valid(c),
        oc is Some ==> color_valid(oc->Some_0),
        crate::space::neighbour_valid(n, 100_000_000_000_000),
    ensures
        (r.0 as int, r.1 as int) == attraction_delta(c, oc, n),
        -200_000_000_000_000_000 <= r.0 <= 200_000_000_000_000_000,
        -200_000_000_000_000_000 <= r.1 <= 200_000_000_000_000_000,
{
    let dx: i64 = n.diff.x;
    let dy: i64 = n.diff.y;
    let d: i64 = n.dist;
    proof {
        assert(0 <= dx as int * dx as int && 0 <= dy as int * dy as int) by (nonlinear_arith);
        crate::math::lemma_sqrt_floor(norm_sq(dx as int, dy as int));
        assert(d as int * d as int <= 100_000_000_000_000);
        assert(0 <= d as int <= 10_000_000) by (nonlinear_arith)
            requires
                d as int >= 0,
                d as int * d as int <= 100_000_000_000_000,
        ;
        assert(-10_000_000 <= dx as int <= 10_000_000 && -10_000_000 <= dy as int <= 10_000_000)
            by (nonlinear_arith)
            requires
                dx as int * dx as int + dy as int * dy as int <= 100_000_000_000_000,
        ;
    }
    if (dx == 0 && dy == 0) || d <= 0 {
        return (0, 0);
    }
    if d < 300 {
        proof {
            assert(1 <= d as int * d as int && d as int * d as int <= 90_000)
                by (nonlinear_arith)
                requires
                    1 <= d as int && (d as int) < 300,
            ;
        }
        let dd: i64 = d * d;
        let rx: i64 = crate::math::div_trunc_i64(-dx * 100, dd);
        let ry: i64 = crate::math::div_trunc_i64(-dy * 100, dd);
        proof {
            lemma_trunc_div_le(-dx as int * 100, dd as int);
            lemma_trunc_div_le(-dy as int * 100, dd as int);
        }
        return (rx, ry);
    }
    let o: Color = match oc {
        Some(o) => o,
        None => {
            return (0, 0);
        },
    };
    let cd: i64 = c.hue_diff(&o) + 54_000;
    let fb: i64 = 1000 - cd / 90 as i64;
    proof {
        assert(0 <= cd as int / 90 <= 2600) by {
            vstd::arithmetic::div_mod::lemma_div_pos_is_pos(cd as int, 90);
            vstd::arithmetic::div_mod::lemma_div_is_ordered(cd as int, 234_000, 90);
        }
        assert(cd as int / 90 == trunc_div(cd as int, 90));
    }
    let force: i64 = if fb >= 0 {
        crate::math::isqrt64((fb * 1000) as u64) as i64
    } else {
        -(crate::math::isqrt64((-fb * 1000) as u64) as i64)
    };
    proof {
        if fb >= 0 {
            crate::math::lemma_sqrt_floor(fb as int * 1000);
            assert(force as int * force as int <= 1_600_000);
        } else {
            crate::math::lemma_sqrt_floor(-(fb as int) * 1000);
        }
        assert(-1300 <= force as int <= 1300) by (nonlinear_arith)
            requires
                force as int * force as int <= 1_600_000 || (-(force as int)) * (-(force as int))
                    <= 1_600_000,
        ;
    }
    let su1: i64 = 1000 - o.light / 50 as i64;
    proof {
        assert(0 <= o.light as int / 50 <= 2000) by {
            vstd::arithmetic::div_mod::lemma_div_pos_is_pos(o.light as int, 50);
            vstd::arithmetic::div_mod::lemma_div_is_ordered(o.light as int, 100_000, 50);
        }
        assert(o.light as int / 50 == trunc_div(o.light as int, 50));
    }
    proof {
        assert(0 <= su1 as int * su1 as int <= 1_000_000 && -1_000_000_000 <= su1 as int
            * su1 as int * su1 as int <= 1_000_000_000) by (nonlinear_arith)
            requires
                -1000 <= su1 as int <= 1000,
        ;
    }
    let su: i64 = crate::math::div_trunc_i64(su1 * su1 * su1, 1_000_000);
    proof {
        crate::math::lemma_trunc_div_bound(su1 as int * su1 as int * su1 as int, 1_000_000, 1000);
    }
    let pw1: i64 = o.sat / 200 as i64 + c.sat / 200 as i64;
    proof {
        assert(0 <= o.sat as int / 200 <= 500 && 0 <= c.sat as int / 200 <= 500) by {
            vstd::arithmetic::div_mod::lemma_div_pos_is_pos(o.sat as int, 200);
            vstd::arithmetic::div_mod::lemma_div_is_ordered(o.sat as int, 100_000, 200);
            vstd::arithmetic::div_mod::lemma_div_pos_is_pos(c.sat as int, 200);
            vstd::arithmetic::div_mod::lemma_div_is_ordered(c.sat as int, 100_000, 200);
        }
        assert(o.sat as int / 200 == trunc_div(o.sat as int, 200));
        assert(c.sat as int / 200 == trunc_div(c.sat as int, 200));
    }
    proof {
        assert(0 <= pw1 as int * pw1 as int <= 1_000_000 && 0 <= pw1 as int * pw1 as int
            * pw1 as int <= 1_000_000_000) by (nonlinear_arith)
            requires
                0 <= pw1 as int <= 1000,
        ;
    }
    let pw: i64 = crate::math::div_trunc_i64(pw1 * pw1 * pw1, 1_000_000);
    proof {
        crate::math::lemma_trunc_div_bound(pw1 as int * pw1 as int * pw1 as int, 1_000_000, 1000);
    }
    proof {
        assert(-1_300_000 <= pw as int * force as int <= 1_300_000) by (nonlinear_arith)
            requires
                0 <= pw as int <= 1000,
                -1300 <= force as int <= 1300,
        ;
    }
    let pf: i64 = crate::math::div_trunc_i64(pw * force, 1000);
    proof {
        crate::math::lemma_trunc_div_bound(pw as int * force as int, 1000, 1300);
        assert(-1300 <= pf as int <= 1300);
        assert(-130_000_000_000_000_000 <= dx as int * pf as int * 10_000_000
            <= 130_000_000_000_000_000 && -130_000_000_000_000_000 <= dy as int * pf as int
            * 10_000_000 <= 130_000_000_000_000_000) by (nonlinear_arith)
            requires
                -10_000_000 <= dx as int <= 10_000_000,
                -10_000_000 <= dy as int <= 10_000_000,
                -1300 <= pf as int <= 1300,
        ;
        assert(1 <= d as int * d as int <= 100_000_000_000_000) by (nonlinear_arith)
            requires
                300 <= d as int <= 10_000_000,
        ;
        assert(-30_000_000_000 <= 3 * (dx as int) * su as int <= 30_000_000_000
            && -30_000_000_000 <= 3 * (dy as int) * su as int <= 30_000_000_000)
            by (nonlinear_arith)
            requires
                -10_000_000 <= dx as int <= 10_000_000,
                -10_000_000 <= dy as int <= 10_000_000,
                -1000 <= su as int <= 1000,
        ;
    }
    let dd: i64 = d * d;
    let ax1: i64 = crate::math::div_trunc_i64(dx * pf * 10_000_000, dd);
    let ay1: i64 = crate::math::div_trunc_i64(dy * pf * 10_000_000, dd);
    proof {
        lemma_trunc_div_le(dx as int * pf as int * 10_000_000, dd as int);
        lemma_trunc_div_le(dy as int * pf as int * 10_000_000, dd as int);
    }
    let ax2: i64 = crate::math::div_trunc_i64(ax1, dd);
    let ay2: i64 = crate::math::div_trunc_i64(ay1, dd);
    proof {
        lemma_trunc_div_le(ax1 as int, dd as int);
        lemma_trunc_div_le(ay1 as int, dd as int);
    }
    let bx: i64 = crate::math::div_trunc_i64(3 * dx * su, 1000 * d);
    let by: i64 = crate::math::div_trunc_i64(3 * dy * su, 1000 * d);
    proof {
        lemma_trunc_div_le(3 * dx as int * su as int, 1000 * d as int);
        lemma_trunc_div_le(3 * dy as int * su as int, 1000 * d as int);
    }
    (ax2 + bx, ay2 + by)
}

/// Apply every neighbour's pull to every plain dot's speed. Players and
/// ring-dots neither pull their own speed here nor change; colors, positions
/// and caches are untouched.
pub fn attract(state: &mut State)
    requires
        state_wf(old(state).recs@),
        forall|i: int|
            0 <= i < old(state).recs@.len() ==> {
                let ns = neighbours_of(#[trigger] old(state).recs@[i]);
                forall|k: int|
                    0 <= k < ns.len() ==> crate::space::neighbour_valid(
                        #[trigger] ns[k],
                        100_000_000_000_000,
                    )
            },
    ensures
        final(state).recs@.len() == old(state).recs@.len(),
        forall|i: int|
            0 <= i < old(state).recs@.len() ==> final(state).recs@[i] == rec_after_attract(
                old(state).recs@,
                #[trigger] old(state).recs@[i],
            ),
        state_wf(final(state).recs@),
{
    let ghost recs0 = old(state).recs@;
    let n: usize = state.recs.len();
    let mut i: usize = 0;
    while i < n
        invariant
            0 <= i <= n,
            n == state.recs@.len() == recs0.len(),
            state_wf(recs0),
            forall|i2: int|
                0 <= i2 < recs0.len() ==> {
                    let ns = neighbours_of(#[trigger] recs0[i2]);
                    forall|k: int|
                        0 <= k < ns.len() ==> crate::space::neighbour_valid(
                            #[trigger] ns[k],
                            100_000_000_000_000,
                        )
                },
            forall|j: int|
                0 <= j < i ==> state.recs@[j] == rec_after_attract(recs0, #[trigger] recs0[j]),
            forall|j: int| i <= j < n ==> state.recs@[j] == recs0[j],
        decreases n - i,
    {
        let isdot: bool = match &state.recs[i] {
            Rec::Dot { .. } => true,
            _ => false,
        };
        if isdot {
            let (c, mut v, len): (Color, Vec2, usize) = match &state.recs[i] {
                Rec::Dot { color, speed, neighbours, .. } => (
                    *color,
                    *speed,
                    neighbours.vec.len(),
                ),
                _ => (Color { hue: 0, sat: 0, light: 0 }, Vec2 { x: 0, y: 0 }, 0),
            };
            let ghost ns = neighbours_of(recs0[i as int]);
            let mut k: usize = 0;
            while k < len
                invariant
                    0 <= k <= len,
                    0 <= (i as int) < recs0.len(),
                    n == state.recs@.len() == recs0.len(),
                    state_wf(recs0),
                    is_dot(recs0[i as int]),
                    state.recs@[i as int] == recs0[i as int],
                    c == color_of(recs0[i as int]),
                    ns == neighbours_of(recs0[i as int]),
                    len == ns.len(),
                    forall|k2: int|
                        0 <= k2 < ns.len() ==> crate::space::neighbour_valid(
                            #[trigger] ns[k2],
                            100_000_000_000_000,
                        ),
                    v == speed_after_attract(recs0, c, speed_of(recs0[i as int]), ns, k as int),
                    in_world(v),
                    forall|j: int|
                        0 <= j < i ==> state.recs@[j] == rec_after_attract(
                            recs0,
                            #[trigger] recs0[j],
                        ),
                    forall|j: int| i <= j < n ==> state.recs@[j] == recs0[j],
                decreases len - k,
            {
                let nb: crate::space::Neighbour = match &state.recs[i] {
                    Rec::Dot { neighbours, .. } => neighbours.vec[k],
                    _ => {
                        proof {
                            assert(false);
                        }
                        crate::space::Neighbour {
                            entity: 0,
                            diff: Vec2 { x: 0, y: 0 },
                            dist: 0,
                        }
                    },
                };
                let oc: Option<Color> = lookup_color(&state.recs, nb.entity);
                proof {
                    assert(oc == other_color(recs0, nb.entity as int)) by {
                        let e = nb.entity as int;
                        if 0 <= e < recs0.len() {
                            if e < i {
                                assert(state.recs@[e] == rec_after_attract(recs0, recs0[e]));
                            } else {
                                assert(state.recs@[e] == recs0[e]);
                            }
                        }
                    }
                    if oc is Some {
                        let e = nb.entity as int;
                        assert(rec_wf(recs0[e]));
                    }
                }
                let (ax, ay): (i64, i64) = neighbour_attraction(c, oc, nb);
                let vx: i64 = crate::math::clamp_i64(v.x + ax, -COORD_LIMIT, COORD_LIMIT);
                let vy: i64 = crate::math::clamp_i64(v.y + ay, -COORD_LIMIT, COORD_LIMIT);
                v = Vec2 { x: vx, y: vy };
                k = k + 1;
            }
            match &mut state.recs[i] {
                Rec::Dot { speed, .. } => {
                    *speed = v;
                },
                _ => {
                    proof {
                        assert(false);
                    }
                },
            }
        }
        i = i + 1;
    }
    proof {
        let a = recs0;
        let b = state.recs@;
        assert forall|i3: int| 0 <= i3 < b.len() implies rec_wf(#[trigger] b[i3]) by {
            assert(rec_wf(a[i3]));
            assert(b[i3] == rec_after_attract(a, a[i3]));
            match a[i3] {
                Rec::Dot { pos, speed, color, neighbours } => {
                    lemma_attract_in_world(a, color, speed, neighbours.vec@);
                },
                _ => {},
            }
        }
        assert forall|i3: int|
            0 <= i3 < b.len() && is_player(#[trigger] b[i3]) implies ring_list_wf(b, i3) by {
            assert(b[i3] == rec_after_attract(a, a[i3]));
            assert(is_player(a[i3]));
            assert(ring_list_wf(a, i3));
            assert forall|k: int| 0 <= k < player_dots(b[i3]).len() implies {
                let d = #[trigger] player_dots(b[i3])[k] as int;
                0 <= d < b.len() && is_ring(b[d])
            } by {
                let d = player_dots(a[i3])[k] as int;
                assert(is_ring(a[d]));
                assert(b[d] == rec_after_attract(a, a[d]));
            }
        }
    }
}

/// A folded attraction always lands in the world box when the start does.
pub proof fn lemma_attract_in_world(
    recs: Seq<Rec>,
    c: Color,
    v: Vec2,
    ns: Seq<crate::space::Neighbour>,
)
    requires
        in_world(v),
    ensures
        forall|k: int| 0 <= k ==> in_world(#[trigger] speed_after_attract(recs, c, v, ns, k)),
{
    assert forall|k: int| 0 <= k implies in_world(
        #[trigger] speed_after_attract(recs, c, v, ns, k),
    ) by {
        lemma_attract_in_world_step(recs, c, v, ns, k);
    }
}

pub proof fn lemma_attract_in_world_step(
    recs: Seq<Rec>,
    c: Color,
    v: Vec2,
    ns: Seq<crate::space::Neighbour>,
    k: int,
)
    requires
        in_world(v),
        k >= 0,
    ensures
        in_world(speed_after_attract(recs, c, v, ns, k)),
    decreases k,
{
    if k > 0 {
        lemma_attract_in_world_step(recs, c, v, ns, k - 1);
    }
}

// --- consumption ------------------------------------------------------------------

/// The consumption rate: ordinarily one; in black-hole mode the player's
/// derived size, accelerating the drain.
pub open spec fn consume_rate_spec(energy: int) -> int {
    let s = sqrt_floor(energy);
    if s > 9000 {
        s
    } else {
        1000
    }
}

/// One neighbour considered by a ring-dot's scan: a plain dot close enough
/// and not yet spent loses a slice of saturation, clamped at zero, and yields
/// a fixed energy gain scaled by the rate.
pub open spec fn consume_step(recs: Seq<Rec>, n: crate::space::Neighbour, rate: int) -> (
    Seq<Rec>,
    int,
) {
    if n.dist > rate / 5 || !(0 <= n.entity < recs.len()) {
        (recs, 0)
    } else {
        match recs[n.entity as int] {
            Rec::Dot { pos, speed, color, neighbours } => {
                if color.sat > 0 {
                    let dec = rate * rate / 100_000;
                    let sat2 = if color.sat - dec >= 0 {
                        color.sat - dec
                    } else {
                        0
                    };
                    (
                        recs.update(
                            n.entity as int,
                            Rec::Dot {
                                pos,
                                speed,
                                color: Color { hue: color.hue, sat: sat2 as i64, light: color.light },
                                neighbours,
                            },
                        ),
                        3 * rate / 10,
                    )
                } else {
                    (recs, 0)
                }
            },
            _ => (recs, 0),
        }
    }
}

/// A whole scan: the first `k` neighbour entries processed in order, with the
/// energy gains summed.
pub open spec fn consume_scan(
    recs: Seq<Rec>,
    ns: Seq<crate::space::Neighbour>,
    k: int,
    rate: int,
) -> (Seq<Rec>, int)
    decreases k,
{
    if k <= 0 {
        (recs, 0)
    } else {
        let (r1, g1) = consume_scan(recs, ns, k - 1, rate);
        let (r2, g2) = consume_step(r1, ns[k - 1], rate);
        (
            r2,
            if g1 + g2 > MAX_ENERGY {
                MAX_ENERGY as int
            } else {
                g1 + g2
            },
        )
    }
}

/// What a scan can do: plain dots keep everything but saturation, which never
/// rises and never drops below zero; every other slot is untouched; the gain
/// is non-negative and bounded.
pub proof fn lemma_consume_scan_rel(
    recs: Seq<Rec>,
    ns: Seq<crate::space::Neighbour>,
    k: int,
    rate: int,
)
    requires
        0 <= rate <= 2_000_000,
        forall|j: int| 0 <= j < recs.len() ==> rec_wf(#[trigger] recs[j]),
    ensures
        ({
            let (r2, g) = consume_scan(recs, ns, k, rate);
            &&& r2.len() == recs.len()
            &&& forall|j: int|
                0 <= j < recs.len() ==> match (#[trigger] recs[j], r2[j]) {
                    (
                        Rec::Dot { pos: p1, speed: s1, color: c1, neighbours: n1 },
                        Rec::Dot { pos: p2, speed: s2, color: c2, neighbours: n2 },
                    ) => p1 == p2 && s1 == s2 && n1 == n2 && c1.hue == c2.hue && c1.light
                        == c2.light && 0 <= c2.sat <= c1.sat,
                    (a, b) => !(a is Dot) && a == b,
                }
            &&& 0 <= g <= MAX_ENERGY
            &&& forall|j: int| 0 <= j < r2.len() ==> rec_wf(#[trigger] r2[j])
        }),
    decreases k,
{
    if k <= 0 {
    } else {
        lemma_consume_scan_rel(recs, ns, k - 1, rate);
        let (r1, g1) = consume_scan(recs, ns, k - 1, rate);
        let n = ns[k - 1];
        let (r2, g2) = consume_step(r1, n, rate);
        assert(0 <= rate * rate / 100_000) by {
            assert(0 <= rate * rate) by (nonlinear_arith);
            vstd::arithmetic::div_mod::lemma_div_pos_is_pos(rate * rate, 100_000);
        }
        assert(0 <= 3 * rate / 10 <= 600_000) by {
            vstd::arithmetic::div_mod::lemma_div_pos_is_pos(3 * rate, 10);
            vstd::arithmetic::div_mod::lemma_div_is_ordered(3 * rate, 6_000_000, 10);
        }
    }
}

/// A player slot with its energy replaced.
pub open spec fn set_energy(r: Rec, e: int) -> Rec {
    match r {
        Rec::Player { pos, speed, size, color, data } => Rec::Player {
            pos,
            speed,
            size,
            color,
            data: PlayerData { dots: data.dots, energy: e as i64, rot: data.rot },
        },
        _ => r,
    }
}

/// One ring-dot's whole consumption turn: the rate is derived from the
/// player's energy at that moment, the dot's cache is scanned, and the gain
/// is paid into the player, capped.
pub open spec fn consume_dot_step(recs: Seq<Rec>, p: int, dot: int) -> Seq<Rec> {
    let e = player_energy(recs[p]);
    let rate = consume_rate_spec(e);
    let ns = neighbours_of(recs[dot]);
    let (r2, g) = consume_scan(recs, ns, ns.len() as int, rate);
    let e2 = if e + g > MAX_ENERGY {
        MAX_ENERGY as int
    } else {
        e + g
    };
    r2.update(p, set_energy(r2[p], e2))
}

/// A player's first `j` ring-dots consuming in order.
pub open spec fn consume_dots_upto(recs: Seq<Rec>, p: int, dots: Seq<usize>, j: int) -> Seq<Rec>
    decreases j,
{
    if j <= 0 {
        recs
    } else {
        let prev = consume_dots_upto(recs, p, dots, j - 1);
        consume_dot_step(prev, p, dots[j - 1] as int)
    }
}

/// The first `i` slots' players consuming in slot order, each over its own
/// ring list.
pub open spec fn consume_players_upto(recs: Seq<Rec>, i: int) -> Seq<Rec>
    decreases i,
{
    if i <= 0 {
        recs
    } else {
        let prev = consume_players_upto(recs, i - 1);
        if is_player(prev[i - 1]) {
            consume_dots_upto(prev, i - 1, player_dots(prev[i - 1]), player_dots(
                prev[i - 1],
            ).len() as int)
        } else {
            prev
        }
    }
}

fn player_dot_count(r: &Rec) -> (c: usize)
    ensures
        c == player_dots(*r).len(),
{
    match r {
        Rec::Player { data, .. } => data.dots.len(),
        _ => 0,
    }
}

fn player_dot_at(r: &Rec, j: usize) -> (d: usize)
    requires
        j < player_dots(*r).len(),
    ensures
        d == player_dots(*r)[j as int],
{
    match r {
        Rec::Player { data, .. } => data.dots[j],
        _ => {
            proof {
                assert(false);
            }
            0
        },
    }
}

fn nb_count(r: &Rec) -> (c: usize)
    ensures
        c == neighbours_of(*r).len(),
{
    match r {
        Rec::Dot { neighbours, .. } => neighbours.vec.len(),
        Rec::Ring { neighbours, .. } => neighbours.vec.len(),
        _ => 0,
    }
}

fn nb_at(r: &Rec, k: usize) -> (n: crate::space::Neighbour)
    requires
        k < neighbours_of(*r).len(),
    ensures
        n == neighbours_of(*r)[k as int],
{
    match r {
        Rec::Dot { neighbours, .. } => neighbours.vec[k],
        Rec::Ring { neighbours, .. } => neighbours.vec[k],
        _ => {
            proof {
                assert(false);
            }
            crate::space::Neighbour { entity: 0, diff: Vec2 { x: 0, y: 0 }, dist: 0 }
        },
    }
}

impl Player {
    /// Scan one ring-dot's neighbour cache and desaturate what it reaches,
    /// exactly as `consume_scan` states; the returned energy gain is the sum
    /// over the drained neighbours.
    pub fn consume_around_dot(state: &mut State, rate: i64, dot: usize) -> (gain: i64)
        requires
            state_wf(old(state).recs@),
            0 <= rate <= 2_000_000,
            dot < old(state).recs@.len(),
            is_ring(old(state).recs@[dot as int]),
        ensures
            ({
                let ns = neighbours_of(old(state).recs@[dot as int]);
                let (r2, g) = consume_scan(old(state).recs@, ns, ns.len() as int, rate as int);
                &&& final(state).recs@ == r2
                &&& gain == g
                &&& 0 <= gain <= MAX_ENERGY
            }),
            state_wf(final(state).recs@),
    {
        let ghost recs0 = old(state).recs@;
        let ghost ns0 = neighbours_of(recs0[dot as int]);
        let len: usize = nb_count(&state.recs[dot]);
        let mut gain: i64 = 0;
        let mut k: usize = 0;
        while k < len
            invariant
                0 <= k <= len,
                0 <= rate <= 2_000_000,
                dot < recs0.len(),
                is_ring(recs0[dot as int]),
                state.recs@.len() == recs0.len(),
                len == ns0.len(),
                ns0 == neighbours_of(recs0[dot as int]),
                forall|j: int| 0 <= j < recs0.len() ==> rec_wf(#[trigger] recs0[j]),
                state_wf(recs0),
                (state.recs@, gain as int) == consume_scan(recs0, ns0, k as int, rate as int),
                0 <= gain <= MAX_ENERGY,
            decreases len - k,
        {
            proof {
                lemma_consume_scan_rel(recs0, ns0, k as int, rate as int);
                assert(state.recs@[dot as int] == recs0[dot as int]);
            }
            let nb: crate::space::Neighbour = nb_at(&state.recs[dot], k);
            let thresh: i64 = crate::math::div_trunc_i64(rate, 5);
            proof {
                assert(thresh == rate / 5);
            }
            if !(nb.dist > thresh) && nb.entity < state.recs.len() {
                let e: usize = nb.entity;
                proof {
                    lemma_consume_scan_rel(recs0, ns0, k as int, rate as int);
                    assert(0 <= rate * rate <= 4_000_000_000_000) by (nonlinear_arith)
                        requires
                            0 <= rate <= 2_000_000,
                    ;
                }
                let dec: i64 = crate::math::div_trunc_i64(rate * rate, 100_000);
                let add: i64 = crate::math::div_trunc_i64(3 * rate, 10);
                proof {
                    assert(dec == rate as int * rate as int / 100_000);
                    assert(add == 3 * rate as int / 10);
                    assert(0 <= add <= 600_000) by {
                        vstd::arithmetic::div_mod::lemma_div_pos_is_pos(3 * rate as int, 10);
                        vstd::arithmetic::div_mod::lemma_div_is_ordered(
                            3 * rate as int,
                            6_000_000,
                            10,
                        );
                    }
                    assert(0 <= dec) by {
                        vstd::arithmetic::div_mod::lemma_div_pos_is_pos(
                            rate as int * rate as int,
                            100_000,
                        );
                    }
                }
                match &mut state.recs[e] {
                    Rec::Dot { color, .. } => {
                        if color.sat > 0 {
                            color.sat = if color.sat - dec >= 0 {
                                color.sat - dec
                            } else {
                                0
                            };
                            let s: i64 = gain + add;
                            gain = if s > MAX_ENERGY {
                                MAX_ENERGY
                            } else {
                                s
                            };
                        }
                    },
                    _ => {},
                }
            }
            k = k + 1;
        }
        proof {
            lemma_consume_scan_rel(recs0, ns0, len as int, rate as int);
            let b = state.recs@;
            assert forall|i3: int|
                0 <= i3 < b.len() && is_player(#[trigger] b[i3]) implies ring_list_wf(b, i3) by {
                assert(is_player(recs0[i3]));
                assert(ring_list_wf(recs0, i3));
                assert(player_dots(b[i3]) == player_dots(recs0[i3]));
                assert forall|k2: int| 0 <= k2 < player_dots(b[i3]).len() implies {
                    let d = #[trigger] player_dots(b[i3])[k2] as int;
                    0 <= d < b.len() && is_ring(b[d]) && ring_owner(b[d]) == i3
                } by {
                    let d = player_dots(recs0[i3])[k2] as int;
                    assert(is_ring(recs0[d]));
                }
            }
        }
        gain
    }

    /// Let every player's ring consume around itself: plain dots only lose
    /// saturation, never below zero; players only gain energy, never past the
    /// cap; nothing else changes.
    pub fn consume_energy(state: &mut State)
        requires
            state_wf(old(state).recs@),
        ensures
            final(state).recs@ == consume_players_upto(
                old(state).recs@,
                old(state).recs@.len() as int,
            ),
            final(state).recs@.len() == old(state).recs@.len(),
            forall|j: int|
                0 <= j < old(state).recs@.len() ==> match (
                    #[trigger] old(state).recs@[j],
                    final(state).recs@[j],
                ) {
                    (
                        Rec::Dot { pos: p1, speed: s1, color: c1, neighbours: n1 },
                        Rec::Dot { pos: p2, speed: s2, color: c2, neighbours: n2 },
                    ) => p1 == p2 && s1 == s2 && n1 == n2 && c1.hue == c2.hue && c1.light
                        == c2.light && 0 <= c2.sat <= c1.sat,
                    (
                        Rec::Player { pos: p1, speed: s1, size: z1, color: c1, data: d1 },
                        Rec::Player { pos: p2, speed: s2, size: z2, color: c2, data: d2 },
                    ) => p1 == p2 && s1 == s2 && z1 == z2 && c1 == c2 && d1.dots == d2.dots
                        && d1.rot == d2.rot && d1.energy <= d2.energy <= MAX_ENERGY,
                    (a, b) => !(a is Dot) && !(a is Player) && a == b,
                },
            state_wf(final(state).recs@),
    {
        let ghost recs0 = old(state).recs@;
        let n: usize = state.recs.len();
        let mut i: usize = 0;
        while i < n
            invariant
                0 <= i <= n,
                n == state.recs@.len() == recs0.len(),
                state_wf(recs0),
                state_wf(state.recs@),
                state.recs@ == consume_players_upto(recs0, i as int),
                forall|j: int|
                    0 <= j < recs0.len() ==> match (#[trigger] recs0[j], state.recs@[j]) {
                        (
                            Rec::Dot { pos: p1, speed: s1, color: c1, neighbours: n1 },
                            Rec::Dot { pos: p2, speed: s2, color: c2, neighbours: n2 },
                        ) => p1 == p2 && s1 == s2 && n1 == n2 && c1.hue == c2.hue && c1.light
                            == c2.light && 0 <= c2.sat <= c1.sat,
                        (
                            Rec::Player { pos: p1, speed: s1, size: z1, color: c1, data: d1 },
                            Rec::Player { pos: p2, speed: s2, size: z2, color: c2, data: d2 },
                        ) => p1 == p2 && s1 == s2 && z1 == z2 && c1 == c2 && d1.dots == d2.dots
                            && d1.rot == d2.rot && d1.energy <= d2.energy <= MAX_ENERGY,
                        (a, b) => !(a is Dot) && !(a is Player) && a == b,
                    },
            decreases n - i,
        {
            let isplayer: bool = match &state.recs[i] {
                Rec::Player { .. } => true,
                _ => false,
            };
            let ghost outer_pre = state.recs@;
            if isplayer {
                let ghost cur0 = state.recs@;
                let ghost dots0 = player_dots(state.recs@[i as int]);
                let dcount: usize = player_dot_count(&state.recs[i]);
                let mut j: usize = 0;
                while j < dcount
                    invariant
                        0 <= j <= dcount,
                        0 <= (i as int) < state.recs@.len(),
                        n == state.recs@.len() == recs0.len(),
                        state_wf(recs0),
                        state_wf(state.recs@),
                        is_player(state.recs@[i as int]),
                        is_player(outer_pre[i as int]),
                        dots0 == player_dots(outer_pre[i as int]),
                        player_dots(state.recs@[i as int]) == dots0,
                        state.recs@ == consume_dots_upto(outer_pre, i as int, dots0, j as int),
                        dcount == player_dots(state.recs@[i as int]).len(),
                        forall|j2: int|
                            0 <= j2 < recs0.len() ==> match (
                                #[trigger] recs0[j2],
                                state.recs@[j2],
                            ) {
                                (
                                    Rec::Dot { pos: p1, speed: s1, color: c1, neighbours: n1 },
                                    Rec::Dot { pos: p2, speed: s2, color: c2, neighbours: n2 },
                                ) => p1 == p2 && s1 == s2 && n1 == n2 && c1.hue == c2.hue
                                    && c1.light == c2.light && 0 <= c2.sat <= c1.sat,
                                (
                                    Rec::Player {
                                        pos: p1,
                                        speed: s1,
                                        size: z1,
                                        color: c1,
                                        data: d1,
                                    },
                                    Rec::Player {
                                        pos: p2,
                                        speed: s2,
                                        size: z2,
                                        color: c2,
                                        data: d2,
                                    },
                                ) => p1 == p2 && s1 == s2 && z1 == z2 && c1 == c2 && d1.dots
                                    == d2.dots && d1.rot == d2.rot && d1.energy <= d2.energy
                                    <= MAX_ENERGY,
                                (a, b) => !(a is Dot) && !(a is Player) && a == b,
                            },
                    decreases dcount - j,
                {
                    let dot: usize = player_dot_at(&state.recs[i], j);
                    let energy: i64 = match &state.recs[i] {
                        Rec::Player { data, .. } => data.energy,
                        _ => {
                            proof {
                                assert(false);
                            }
                            0
                        },
                    };
                    let size_e: i64 = crate::math::isqrt64(energy as u64) as i64;
                    proof {
                        crate::math::lemma_sqrt_floor(energy as int);
                        assert(0 <= size_e as int <= 2_000_000) by (nonlinear_arith)
                            requires
                                size_e as int >= 0,
                                size_e as int * size_e as int <= 4_000_000_000_000,
                        ;
                    }
                    let rate: i64 = if size_e > 9000 {
                        size_e
                    } else {
                        1000
                    };
                    proof {
                        assert(rate as int == consume_rate_spec(energy as int));
                        assert(0 <= rate <= 2_000_000);
                    }
                    let ghost pre = state.recs@;
                    let gain: i64 = Player::consume_around_dot(state, rate, dot);
                    proof {
                        let ns = neighbours_of(pre[dot as int]);
                        lemma_consume_scan_rel(pre, ns, ns.len() as int, rate as int);
                    }
                    let cap: i64 = energy + gain;
                    let new_energy: i64 = if cap > MAX_ENERGY {
                        MAX_ENERGY
                    } else {
                        cap
                    };
                    match &mut state.recs[i] {
                        Rec::Player { data, .. } => {
                            data.energy = new_energy;
                        },
                        _ => {
                            proof {
                                assert(false);
                            }
                        },
                    }
                    proof {
                        let b = state.recs@;
                        assert forall|i3: int|
                            0 <= i3 < b.len() && is_player(#[trigger] b[i3]) implies ring_list_wf(
                            b,
                            i3,
                        ) by {
                            assert(is_player(pre[i3]));
                            assert(ring_list_wf(pre, i3));
                        }
                        // This turn is exactly one fold step of the scan.
                        let ns = neighbours_of(pre[dot as int]);
                        let (r2, g) = consume_scan(pre, ns, ns.len() as int, rate as int);
                        lemma_consume_scan_rel(pre, ns, ns.len() as int, rate as int);
                        assert(b =~= r2.update(i as int, set_energy(r2[i as int], new_energy as int)));
                        assert(b == consume_dot_step(pre, i as int, dot as int));
                        assert(b == consume_dots_upto(outer_pre, i as int, dots0, j + 1));
                    }
                    j = j + 1;
                }
                proof {
                    assert(state.recs@ == consume_players_upto(recs0, i + 1));
                }
            } else {
                proof {
                    assert(state.recs@ == consume_players_upto(recs0, i + 1));
                }
            }
            i = i + 1;
        }
    }
}

// --- growth -------------------------------------------------------------------------

/// The hue given to ring-dot `k` of `n`: evenly spaced around the circle, so
/// the ring forms a rainbow.
pub open spec fn ring_hue(k: int, n: int) -> int {
    360_000 * k / n
}

/// The lightness of a black hole of the given (already decayed) size:
/// proportional to the remaining headroom, clamped into a valid percentage.
pub open spec fn blackhole_light(size: int) -> int {
    clamp_spec(trunc_div((size - 1000) * 25, 2), 0, 100_000)
}

/// The size a black hole decays to in one tick.
pub open spec fn decayed_size(size: int) -> int {
    if size - 100 >= 10 {
        size - 100
    } else {
        10
    }
}

impl Player {
    /// A player's derived size: the square root of its energy.
    pub fn energy_size(energy: i64) -> (s: i64)
        requires
            0 <= energy <= MAX_ENERGY,
        ensures
            s == sqrt_floor(energy as int),
            0 <= s <= 2_000_000,
    {
        let s: i64 = crate::math::isqrt64(energy as u64) as i64;
        proof {
            crate::math::lemma_sqrt_floor(energy as int);
            assert(0 <= s as int <= 2_000_000) by (nonlinear_arith)
                requires
                    s as int >= 0,
                    s as int * s as int <= 4_000_000_000_000,
            ;
        }
        s
    }

    /// Whether a derived size has crossed into the terminal growth mode.
    pub fn is_blackhole(size: i64) -> (r: bool)
        ensures
            r == (size > 9000),
    {
        size > 9000
    }

    /// Recoat one ring-dot: full saturation, mid lightness, the given hue.
    pub fn update_dot(state: &mut State, dot: usize, hue: i64)
        requires
            state_wf(old(state).recs@),
            dot < old(state).recs@.len(),
            is_ring(old(state).recs@[dot as int]),
            0 <= hue < 360_000,
        ensures
            final(state).recs@ == old(state).recs@.update(
                dot as int,
                (match old(state).recs@[dot as int] {
                    Rec::Ring { pos, owner, neighbours, .. } => Rec::Ring {
                        pos,
                        color: Color { hue, sat: 100_000, light: 50_000 },
                        owner,
                        neighbours,
                    },
                    r => r,
                }),
            ),
            state_wf(final(state).recs@),
    {
        let ghost recs0 = old(state).recs@;
        match &mut state.recs[dot] {
            Rec::Ring { color, .. } => {
                *color = Color { hue, sat: 100_000, light: 50_000 };
            },
            _ => {
                proof {
                    assert(false);
                }
            },
        }
        proof {
            assert(final(state).recs@ =~= recs0.update(
                dot as int,
                (match recs0[dot as int] {
                    Rec::Ring { pos, owner, neighbours, .. } => Rec::Ring {
                        pos,
                        color: Color { hue, sat: 100_000, light: 50_000 },
                        owner,
                        neighbours,
                    },
                    r => r,
                }),
            ));
            let b = state.recs@;
            assert forall|i3: int| 0 <= i3 < b.len() implies rec_wf(#[trigger] b[i3]) by {
                assert(rec_wf(recs0[i3]));
            }
            lemma_ring_lists_after_update(recs0, b, dot as int);
        }
    }

    /// Dim every ring-dot of one player to the given lightness.
    pub fn set_dots_lightness(state: &mut State, player: usize, light: i64)
        requires
            state_wf(old(state).recs@),
            player < old(state).recs@.len(),
            is_player(old(state).recs@[player as int]),
            0 <= light <= 100_000,
        ensures
            final(state).recs@.len() == old(state).recs@.len(),
            forall|j: int|
                0 <= j < old(state).recs@.len() && !player_dots(
                    old(state).recs@[player as int],
                ).contains(j as usize) ==> final(state).recs@[j] == #[trigger] old(state).recs@[j],
            forall|k: int|
                0 <= k < player_dots(old(state).recs@[player as int]).len() ==> {
                    let d = #[trigger] player_dots(old(state).recs@[player as int])[k] as int;
                    final(state).recs@[d] == (match old(state).recs@[d] {
                        Rec::Ring { pos, color, owner, neighbours } => Rec::Ring {
                            pos,
                            color: Color { hue: color.hue, sat: color.sat, light },
                            owner,
                            neighbours,
                        },
                        r => r,
                    })
                },
            state_wf(final(state).recs@),
    {
        let ghost recs0 = old(state).recs@;
        let ghost dots0 = player_dots(recs0[player as int]);
        let cnt: usize = player_dot_count(&state.recs[player]);
        let mut k: usize = 0;
        while k < cnt
            invariant
                0 <= k <= cnt,
                player < recs0.len(),
                is_player(recs0[player as int]),
                0 <= light <= 100_000,
                state_wf(recs0),
                state.recs@.len() == recs0.len(),
                cnt == dots0.len(),
                dots0 == player_dots(recs0[player as int]),
                is_player(state.recs@[player as int]),
                player_dots(state.recs@[player as int]) == dots0,
                forall|j: int|
                    0 <= j < recs0.len() && !dots0.contains(j as usize) ==> state.recs@[j]
                        == #[trigger] recs0[j],
                forall|k2: int|
                    0 <= k2 < k ==> {
                        let d = #[trigger] dots0[k2] as int;
                        state.recs@[d] == (match recs0[d] {
                            Rec::Ring { pos, color, owner, neighbours } => Rec::Ring {
                                pos,
                                color: Color { hue: color.hue, sat: color.sat, light },
                                owner,
                                neighbours,
                            },
                            r => r,
                        })
                    },
                forall|k2: int|
                    k <= k2 < cnt ==> state.recs@[dots0[k2] as int] == #[trigger] recs0[dots0[k2] as int],
                state_wf(state.recs@),
            decreases cnt - k,
        {
            let d: usize = player_dot_at(&state.recs[player], k);
            proof {
                assert(ring_list_wf(recs0, player as int));
                assert(dots0[k as int] == d);
                assert(is_ring(recs0[d as int]));
                assert(state.recs@[d as int] == recs0[d as int]);
            }
            let ghost pre = state.recs@;
            match &mut state.recs[d] {
                Rec::Ring { color, .. } => {
                    *color = Color { hue: color.hue, sat: color.sat, light };
                },
                _ => {
                    proof {
                        assert(false);
                    }
                },
            }
            proof {
                assert forall|k2: int| 0 <= k2 < k + 1 implies {
                    let dd = #[trigger] dots0[k2] as int;
                    state.recs@[dd] == (match recs0[dd] {
                        Rec::Ring { pos, color, owner, neighbours } => Rec::Ring {
                            pos,
                            color: Color { hue: color.hue, sat: color.sat, light },
                            owner,
                            neighbours,
                        },
                        r => r,
                    })
                } by {
                    if k2 < k {
                        assert(dots0[k2] != dots0[k as int]);
                        assert(state.recs@[dots0[k2] as int] == pre[dots0[k2] as int]);
                    }
                }
                assert forall|k2: int|
                    k + 1 <= k2 < cnt implies state.recs@[dots0[k2] as int] == #[trigger] recs0[dots0[k2] as int] by {
                    assert(dots0[k2] != dots0[k as int]);
                    assert(state.recs@[dots0[k2] as int] == pre[dots0[k2] as int]);
                }
                let b = state.recs@;
                assert forall|i3: int| 0 <= i3 < b.len() implies rec_wf(#[trigger] b[i3]) by {
                    assert(rec_wf(pre[i3]));
                }
                lemma_ring_lists_after_update(pre, b, d as int);
            }
            k = k + 1;
        }
    }

    /// Append exactly one fresh ring-dot to a player and rebalance: every
    /// ring-dot is recoated with a hue proportional to its place in the ring.
    pub fn add_dot(state: &mut State, player: usize)
        requires
            state_wf(old(state).recs@),
            player < old(state).recs@.len(),
            is_player(old(state).recs@[player as int]),
            old(state).recs@.len() + 1 <= 1_000_000,
        ensures
            ({
                let recs0 = old(state).recs@;
                let p = player as int;
                let ni = recs0.len() as int;
                let dots1 = player_dots(recs0[p]).push(ni as usize);
                let cnt = dots1.len() as int;
                &&& final(state).recs@.len() == recs0.len() + 1
                &&& is_player(final(state).recs@[p])
                &&& pos_of(final(state).recs@[p]) == pos_of(recs0[p])
                &&& speed_of(final(state).recs@[p]) == speed_of(recs0[p])
                &&& player_size(final(state).recs@[p]) == player_size(recs0[p])
                &&& color_of(final(state).recs@[p]) == color_of(recs0[p])
                &&& player_energy(final(state).recs@[p]) == player_energy(recs0[p])
                &&& player_rot(final(state).recs@[p]) == player_rot(recs0[p])
                &&& player_dots(final(state).recs@[p]) == dots1
                &&& forall|k: int|
                    0 <= k < cnt ==> {
                        let d = #[trigger] dots1[k] as int;
                        &&& is_ring(final(state).recs@[d])
                        &&& ring_owner(final(state).recs@[d]) == p
                        &&& color_of(final(state).recs@[d]) == (Color {
                            hue: ring_hue(k, cnt) as i64,
                            sat: 100_000,
                            light: 50_000,
                        })
                    }
                &&& forall|j: int|
                    0 <= j < recs0.len() && j != p && !dots1.contains(j as usize)
                        ==> final(state).recs@[j] == #[trigger] recs0[j]
                &&& is_ring(final(state).recs@[ni])
                &&& pos_of(final(state).recs@[ni]) == (Vec2 { x: 0, y: 0 })
            }),
            state_wf(final(state).recs@),
    {
        let ghost recs0 = old(state).recs@;
        let ghost p = player as int;
        let new_idx: usize = state.recs.len();
        state.recs.push(
            Rec::Ring {
                pos: Vec2 { x: 0, y: 0 },
                color: Color { hue: 0, sat: 0, light: 0 },
                owner: player,
                neighbours: Neighbours::new(),
            },
        );
        match &mut state.recs[player] {
            Rec::Player { data, .. } => {
                data.dots.push(new_idx);
            },
            _ => {
                proof {
                    assert(false);
                }
            },
        }
        let ghost mid = state.recs@;
        let ghost dots1 = player_dots(recs0[p]).push(new_idx);
        proof {
            assert(player_dots(mid[p]) == dots1);
            // The grown store is well formed: the fresh ring-dot is valid and
            // distinct from every older list entry.
            assert forall|i3: int| 0 <= i3 < mid.len() implies rec_wf(#[trigger] mid[i3]) by {
                if i3 < recs0.len() {
                    assert(rec_wf(recs0[i3]));
                }
            }
            assert forall|i3: int|
                0 <= i3 < mid.len() && is_player(#[trigger] mid[i3]) implies ring_list_wf(
                mid,
                i3,
            ) by {
                assert(is_player(recs0[i3]));
                assert(ring_list_wf(recs0, i3));
                if i3 == p {
                    assert forall|k2: int| 0 <= k2 < player_dots(mid[i3]).len() implies {
                        let d = #[trigger] player_dots(mid[i3])[k2] as int;
                        0 <= d < mid.len() && is_ring(mid[d]) && ring_owner(mid[d]) == i3
                    } by {
                        if k2 < player_dots(recs0[i3]).len() {
                            let d = player_dots(recs0[i3])[k2] as int;
                            assert(is_ring(recs0[d]) && ring_owner(recs0[d]) == i3);
                        }
                    }
                    assert forall|k1: int, k2: int|
                        0 <= k1 < k2 < player_dots(mid[i3]).len() implies #[trigger] player_dots(
                        mid[i3],
                    )[k1] != #[trigger] player_dots(mid[i3])[k2] by {
                        if k2 == player_dots(mid[i3]).len() - 1 {
                            let d1 = player_dots(recs0[i3])[k1] as int;
                            assert(is_ring(recs0[d1]));
                            assert(d1 < recs0.len());
                        }
                    }
                } else {
                    assert(player_dots(mid[i3]) == player_dots(recs0[i3]));
                    assert forall|k2: int| 0 <= k2 < player_dots(mid[i3]).len() implies {
                        let d = #[trigger] player_dots(mid[i3])[k2] as int;
                        0 <= d < mid.len() && is_ring(mid[d]) && ring_owner(mid[d]) == i3
                    } by {
                        let d = player_dots(recs0[i3])[k2] as int;
                        assert(is_ring(recs0[d]) && ring_owner(recs0[d]) == i3);
                    }
                }
            }
        }
        let cnt: usize = player_dot_count(&state.recs[player]);
        let mut k: usize = 0;
        while k < cnt
            invariant
                0 <= k <= cnt,
                p == player as int,
                0 <= p < state.recs@.len(),
                state.recs@.len() == recs0.len() + 1,
                state_wf(state.recs@),
                is_player(state.recs@[p]),
                player_dots(state.recs@[p]) == dots1,
                cnt == dots1.len(),
                state.recs@[p] == mid[p],
                forall|j: int|
                    0 <= j < state.recs@.len() && j != p && !dots1.contains(j as usize)
                        ==> state.recs@[j] == #[trigger] mid[j],
                forall|j: int| 0 <= j < recs0.len() ==> mid[j] == #[trigger] recs0[j] || j == p,
                mid.len() == recs0.len() + 1,
                is_ring(mid[recs0.len() as int]),
                pos_of(mid[recs0.len() as int]) == (Vec2 { x: 0, y: 0 }),
                forall|k2: int|
                    0 <= k2 < cnt ==> {
                        let d = #[trigger] dots1[k2] as int;
                        &&& 0 <= d < state.recs@.len()
                        &&& is_ring(state.recs@[d])
                        &&& ring_owner(state.recs@[d]) == p
                        &&& pos_of(state.recs@[d]) == pos_of(mid[d])
                        &&& neighbours_of(state.recs@[d]) == neighbours_of(mid[d])
                    },
                forall|k2: int|
                    0 <= k2 < k ==> color_of(
                        state.recs@[#[trigger] dots1[k2] as int],
                    ) == (Color { hue: ring_hue(k2, cnt as int) as i64, sat: 100_000, light: 50_000 }),
            decreases cnt - k,
        {
            let d: usize = player_dot_at(&state.recs[player], k);
            let hue: i64 = ((360_000u128 * (k as u128)) / (cnt as u128)) as i64;
            proof {
                assert(dots1[k as int] == d);
                let q = 360_000 * (k as int) / (cnt as int);
                vstd::arithmetic::div_mod::lemma_fundamental_div_mod(
                    360_000 * (k as int),
                    cnt as int,
                );
                vstd::arithmetic::div_mod::lemma_div_pos_is_pos(360_000 * (k as int), cnt as int);
                assert(0 <= q < 360_000) by (nonlinear_arith)
                    requires
                        q >= 0,
                        0 <= k as int && (k as int) < cnt as int,
                        360_000 * (k as int) == (cnt as int) * q + (360_000 * (k as int)) % (
                        cnt as int),
                        0 <= (360_000 * (k as int)) % (cnt as int) < cnt as int,
                ;
                assert(hue as int == ring_hue(k as int, cnt as int));
            }
            let ghost pre = state.recs@;
            Player::update_dot(state, d, hue);
            proof {
                assert forall|k2: int|
                    0 <= k2 < k + 1 implies color_of(
                    state.recs@[#[trigger] dots1[k2] as int],
                ) == (Color {
                    hue: ring_hue(k2, cnt as int) as i64,
                    sat: 100_000,
                    light: 50_000,
                }) by {
                    if k2 < k {
                        assert(dots1[k2] != dots1[k as int]) by {
                            assert(ring_list_wf(pre, p));
                        }
                    }
                }
                assert(state.recs@[p] == pre[p]) by {
                    assert(p != d as int);
                }
            }
            k = k + 1;
        }
        proof {
            assert(dots1 == player_dots(recs0[p]).push((recs0.len() as int) as usize));
        }
    }
}

// --- the growth pass ---------------------------------------------------------------

/// How one tick of growth rewrites a player slot, except for ring changes:
/// in black-hole mode the size decays and the coat dims; otherwise the size
/// follows the derived size and at most one ring-dot is added.
/// A ring-dot with only its lightness replaced.
pub open spec fn dim_ring(r: Rec, light: int) -> Rec {
    match r {
        Rec::Ring { pos, color, owner, neighbours } => Rec::Ring {
            pos,
            color: Color { hue: color.hue, sat: color.sat, light: light as i64 },
            owner,
            neighbours,
        },
        _ => r,
    }
}

/// In black-hole mode a player's whole ring dims with it: every listed
/// ring-dot's lightness is driven to the decayed size's value, and nothing
/// else about the dot changes.
pub open spec fn blackhole_ring_dimmed(a: Seq<Rec>, b: Seq<Rec>, j: int) -> bool {
    sqrt_floor(player_energy(a[j])) > 9000 ==> forall|k: int|
        0 <= k < player_dots(a[j]).len() ==> b[#[trigger] player_dots(a[j])[k] as int] == dim_ring(
            a[player_dots(a[j])[k] as int],
            blackhole_light(decayed_size(player_size(a[j]))),
        )
}

/// One growth iteration leaves every other player's ring alone: dimmed rings
/// stay dimmed and rings of players not yet processed stay untouched.
proof fn lemma_grow_frame_step(recs0: Seq<Rec>, pre0: Seq<Rec>, b: Seq<Rec>, i: int)
    requires
        state_wf(recs0),
        0 <= i < recs0.len(),
        forall|j: int|
            0 <= j < i && is_player(#[trigger] recs0[j]) ==> blackhole_ring_dimmed(
                recs0,
                pre0,
                j,
            ),
        forall|j2: int|
            0 <= j2 < recs0.len() && is_ring(#[trigger] recs0[j2]) && ring_owner(recs0[j2]) >= i
                ==> pre0[j2] == recs0[j2],
        forall|j2: int|
            0 <= j2 < recs0.len() && is_ring(#[trigger] recs0[j2]) && ring_owner(recs0[j2])
                != i ==> b[j2] == pre0[j2],
    ensures
        forall|j: int|
            0 <= j < i && is_player(#[trigger] recs0[j]) ==> blackhole_ring_dimmed(recs0, b, j),
        forall|j2: int|
            0 <= j2 < recs0.len() && is_ring(#[trigger] recs0[j2]) && ring_owner(recs0[j2]) >= i
                + 1 ==> b[j2] == recs0[j2],
{
    assert forall|j: int|
        0 <= j < i && is_player(#[trigger] recs0[j]) implies blackhole_ring_dimmed(
        recs0,
        b,
        j,
    ) by {
        if sqrt_floor(player_energy(recs0[j])) > 9000 {
            assert forall|k: int|
                0 <= k < player_dots(recs0[j]).len() implies b[#[trigger] player_dots(
                recs0[j],
            )[k] as int] == dim_ring(
                recs0[player_dots(recs0[j])[k] as int],
                blackhole_light(decayed_size(player_size(recs0[j]))),
            ) by {
                let d = player_dots(recs0[j])[k] as int;
                assert(ring_list_wf(recs0, j));
                assert(is_ring(recs0[d]) && ring_owner(recs0[d]) == j);
                assert(b[d] == pre0[d]);
            }
        }
    }
}

pub open spec fn grow_player_ok(a: Rec, b: Rec) -> bool {
    match (a, b) {
        (
            Rec::Player { pos: p1, speed: s1, size: z1, color: c1, data: d1 },
            Rec::Player { pos: p2, speed: s2, size: z2, color: c2, data: d2 },
        ) => {
            let s = sqrt_floor(d1.energy as int);
            &&& p1 == p2
            &&& s1 == s2
            &&& d1.energy == d2.energy
            &&& d1.rot == d2.rot
            &&& if s > 9000 {
                &&& z2 as int == decayed_size(z1 as int)
                &&& d2.dots == d1.dots
                &&& c2.hue == c1.hue
                &&& c2.sat == c1.sat
                &&& c2.light as int == blackhole_light(z2 as int)
            } else {
                &&& z2 as int == (if s > z1 as int {
                    s
                } else {
                    z1 as int
                })
                &&& c2 == c1
                &&& if (d1.dots@.len() + 1) * 1000 <= s {
                    d2.dots@.len() == d1.dots@.len() + 1
                } else {
                    d2.dots@ == d1.dots@
                }
            }
        },
        _ => false,
    }
}

impl Player {
    /// Run growth for every player: consume the accumulated energy into size,
    /// add at most one ring-dot per player per tick, and in black-hole mode
    /// decay instead and dim the whole ring.
    #[verifier::rlimit(100)]
    pub fn grow(state: &mut State)
        requires
            state_wf(old(state).recs@),
            2 * old(state).recs@.len() <= 1_000_000,
        ensures
            old(state).recs@.len() <= final(state).recs@.len(),
            forall|j: int|
                0 <= j < old(state).recs@.len() ==> match #[trigger] old(state).recs@[j] {
                    Rec::Dot { .. } => final(state).recs@[j] == old(state).recs@[j],
                    Rec::Dead => final(state).recs@[j] == old(state).recs@[j],
                    Rec::Ring { .. } => is_ring(final(state).recs@[j]),
                    Rec::Player { .. } => grow_player_ok(old(state).recs@[j], final(state).recs@[j]),
                },
            forall|j: int|
                old(state).recs@.len() <= j < final(state).recs@.len() ==> is_ring(
                    #[trigger] final(state).recs@[j],
                ),
            forall|j: int|
                0 <= j < old(state).recs@.len() && is_player(#[trigger] old(state).recs@[j])
                    ==> blackhole_ring_dimmed(old(state).recs@, final(state).recs@, j),
            state_wf(final(state).recs@),
    {
        let ghost recs0 = old(state).recs@;
        let n: usize = state.recs.len();
        let mut i: usize = 0;
        while i < n
            invariant
                0 <= i <= n,
                n == recs0.len(),
                state_wf(recs0),
                state_wf(state.recs@),
                2 * recs0.len() <= 1_000_000,
                n <= state.recs@.len() <= n + i,
                forall|j: int|
                    0 <= j < i && is_player(#[trigger] recs0[j]) ==> blackhole_ring_dimmed(
                        recs0,
                        state.recs@,
                        j,
                    ),
                forall|j2: int|
                    0 <= j2 < n && is_ring(#[trigger] recs0[j2]) && ring_owner(recs0[j2]) >= i
                        ==> state.recs@[j2] == recs0[j2],
                forall|j: int|
                    0 <= j < n ==> match #[trigger] recs0[j] {
                        Rec::Dot { .. } => state.recs@[j] == recs0[j],
                        Rec::Dead => state.recs@[j] == recs0[j],
                        Rec::Ring { .. } => is_ring(state.recs@[j]),
                        Rec::Player { .. } => (j < i && grow_player_ok(recs0[j], state.recs@[j]))
                            || (j >= i && state.recs@[j] == recs0[j]),
                    },
                forall|j: int|
                    n <= j < state.recs@.len() ==> is_ring(#[trigger] state.recs@[j]),
            decreases n - i,
        {
            let ghost pre0 = state.recs@;
            let isplayer: bool = match &state.recs[i] {
                Rec::Player { .. } => true,
                _ => false,
            };
            if isplayer {
                proof {
                    assert(state.recs@[i as int] == recs0[i as int]);
                }
                let (size, energy): (i64, i64) = match &state.recs[i] {
                    Rec::Player { size, data, .. } => (*size, data.energy),
                    _ => {
                        proof {
                            assert(false);
                        }
                        (0, 0)
                    },
                };
                proof {
                    assert(rec_wf(state.recs@[i as int]));
                }
                let s: i64 = Player::energy_size(energy);
                if Player::is_blackhole(s) {
                    let new_size: i64 = if size - 100 >= 10 {
                        size - 100
                    } else {
                        10
                    };
                    let light: i64 = crate::math::clamp_i64(
                        crate::math::div_trunc_i64((new_size - 1000) * 25, 2),
                        0,
                        100_000,
                    );
                    let ghost pre = state.recs@;
                    match &mut state.recs[i] {
                        Rec::Player { size, color, .. } => {
                            *size = new_size;
                            *color = Color { hue: color.hue, sat: color.sat, light };
                        },
                        _ => {
                            proof {
                                assert(false);
                            }
                        },
                    }
                    proof {
                        let b = state.recs@;
                        assert forall|i3: int| 0 <= i3 < b.len() implies rec_wf(
                            #[trigger] b[i3],
                        ) by {
                            assert(rec_wf(pre[i3]));
                        }
                        lemma_ring_lists_after_update(pre, b, i as int);
                    }
                    let ghost mid1 = state.recs@;
                    Player::set_dots_lightness(state, i, light);
                    proof {
                        let b = state.recs@;
                        assert forall|j: int| 0 <= j < b.len() && j != i implies (is_ring(
                            mid1[j],
                        ) || b[j] == mid1[j]) by {
                            if !is_ring(mid1[j]) {
                                if player_dots(mid1[i as int]).contains(j as usize) {
                                    let kk = choose|kk: int|
                                        0 <= kk < player_dots(mid1[i as int]).len()
                                            && player_dots(mid1[i as int])[kk] == (j as usize);
                                    assert(ring_list_wf(mid1, i as int));
                                    assert(is_ring(mid1[j]));
                                } else {
                                    assert(b[j] == mid1[j]);
                                }
                            }
                        }
                        assert forall|j: int| 0 <= j < b.len() && is_ring(mid1[j]) implies is_ring(
                            b[j],
                        ) by {
                            if player_dots(mid1[i as int]).contains(j as usize) {
                                let kk = choose|kk: int|
                                    0 <= kk < player_dots(mid1[i as int]).len() && player_dots(
                                        mid1[i as int],
                                    )[kk] == (j as usize);
                                assert(ring_list_wf(mid1, i as int));
                                assert(b[player_dots(mid1[i as int])[kk] as int] == (
                                match mid1[j] {
                                    Rec::Ring { pos, color, owner, neighbours } => Rec::Ring {
                                        pos,
                                        color: Color {
                                            hue: color.hue,
                                            sat: color.sat,
                                            light,
                                        },
                                        owner,
                                        neighbours,
                                    },
                                    r => r,
                                }));
                            } else {
                                assert(b[j] == mid1[j]);
                            }
                        }
                        assert(!player_dots(mid1[i as int]).contains(i as usize)) by {
                            if player_dots(mid1[i as int]).contains(i as usize) {
                                let kk = choose|kk: int|
                                    0 <= kk < player_dots(mid1[i as int]).len() && player_dots(
                                        mid1[i as int],
                                    )[kk] == (i as usize);
                                assert(ring_list_wf(mid1, i as int));
                                assert(is_ring(mid1[i as int]));
                            }
                        }
                        assert(b[i as int] == mid1[i as int]);
                        assert(grow_player_ok(recs0[i as int], b[i as int]));
                        // Only this player's own ring was touched, and every
                        // listed ring-dot now carries the dimmed lightness.
                        let dlist = player_dots(recs0[i as int]);
                        assert(player_dots(mid1[i as int]) == dlist);
                        assert forall|j2: int|
                            0 <= j2 < n && is_ring(#[trigger] recs0[j2]) && ring_owner(recs0[j2])
                                != i as int implies b[j2] == pre0[j2] by {
                            if dlist.contains(j2 as usize) {
                                let kk = choose|kk: int|
                                    0 <= kk < dlist.len() && dlist[kk] == (j2 as usize);
                                assert(ring_list_wf(recs0, i as int));
                                assert(ring_owner(recs0[j2]) == i as int);
                            } else {
                                assert(b[j2] == mid1[j2]);
                                assert(mid1[j2] == pre0[j2]);
                            }
                        }
                        lemma_grow_frame_step(recs0, pre0, b, i as int);
                        assert forall|k: int| 0 <= k < dlist.len() implies b[#[trigger] dlist[k] as int]
                            == dim_ring(recs0[dlist[k] as int], light as int) by {
                            let d = dlist[k] as int;
                            assert(ring_list_wf(recs0, i as int));
                            assert(is_ring(recs0[d]) && ring_owner(recs0[d]) == i as int);
                            assert(pre0[d] == recs0[d]);
                            assert(mid1[d] == pre0[d]);
                            assert(b[player_dots(mid1[i as int])[k] as int] == (match mid1[d] {
                                Rec::Ring { pos, color, owner, neighbours } => Rec::Ring {
                                    pos,
                                    color: Color { hue: color.hue, sat: color.sat, light },
                                    owner,
                                    neighbours,
                                },
                                r => r,
                            }));
                        }
                        assert(light as int == blackhole_light(
                            decayed_size(player_size(recs0[i as int])),
                        ));
                        assert(blackhole_ring_dimmed(recs0, b, i as int));
                    }
                } else {
                    if s > size {
                        let ghost pre = state.recs@;
                        match &mut state.recs[i] {
                            Rec::Player { size, .. } => {
                                *size = s;
                            },
                            _ => {
                                proof {
                                    assert(false);
                                }
                            },
                        }
                        proof {
                            let b = state.recs@;
                            assert forall|i3: int| 0 <= i3 < b.len() implies rec_wf(
                                #[trigger] b[i3],
                            ) by {
                                assert(rec_wf(pre[i3]));
                            }
                            lemma_ring_lists_after_update(pre, b, i as int);
                        }
                    }
                    let dcount: usize = player_dot_count(&state.recs[i]);
                    let q: i64 = crate::math::div_trunc_i64(s, 1000);
                    let wants: bool = dcount < 2000 && (dcount as i64) + 1 <= q;
                    proof {
                        vstd::arithmetic::div_mod::lemma_fundamental_div_mod(s as int, 1000);
                        vstd::arithmetic::div_mod::lemma_mod_bound(s as int, 1000);
                        assert(wants == ((player_dots(state.recs@[i as int]).len() + 1) * 1000
                            <= s as int)) by (nonlinear_arith)
                            requires
                                0 <= s as int <= 2_000_000,
                                q as int == s as int / 1000,
                                s as int == 1000 * (s as int / 1000) + (s as int) % 1000,
                                0 <= (s as int) % 1000 < 1000,
                                dcount == player_dots(state.recs@[i as int]).len(),
                                wants == (dcount < 2000 && (dcount as int) + 1 <= q as int),
                        ;
                    }
                    let ghost mid2 = state.recs@;
                    if wants {
                        Player::add_dot(state, i);
                        proof {
                            let b = state.recs@;
                            let ghost dots1 = player_dots(mid2[i as int]).push(
                                mid2.len() as usize,
                            );
                            assert forall|j: int| 0 <= j < mid2.len() && j != i implies (is_ring(
                                mid2[j],
                            ) || b[j] == mid2[j]) by {
                                if !is_ring(mid2[j]) {
                                    if dots1.contains(j as usize) {
                                        let kk = choose|kk: int|
                                            0 <= kk < dots1.len() && dots1[kk] == (j as usize);
                                        if kk < player_dots(mid2[i as int]).len() {
                                            assert(ring_list_wf(mid2, i as int));
                                            assert(is_ring(mid2[j]));
                                        } else {
                                            assert(dots1[kk] == mid2.len() as usize);
                                        }
                                    } else {
                                        assert(b[j] == mid2[j]);
                                    }
                                }
                            }
                            assert forall|j: int|
                                0 <= j < mid2.len() && is_ring(mid2[j]) implies is_ring(b[j]) by {
                                if dots1.contains(j as usize) {
                                    let kk = choose|kk: int|
                                        0 <= kk < dots1.len() && dots1[kk] == (j as usize);
                                    assert(is_ring(b[dots1[kk] as int]));
                                } else {
                                    assert(b[j] == mid2[j]);
                                }
                            }
                            assert(grow_player_ok(recs0[i as int], b[i as int])) by {
                                assert(player_dots(b[i as int]) == dots1);
                            }
                            // No other player's ring is in this player's list.
                            assert(player_dots(mid2[i as int]) == player_dots(recs0[i as int]));
                            assert forall|j2: int|
                                0 <= j2 < n && is_ring(#[trigger] recs0[j2]) && ring_owner(
                                    recs0[j2],
                                ) != i as int implies b[j2] == pre0[j2] by {
                                if dots1.contains(j2 as usize) {
                                    let kk = choose|kk: int|
                                        0 <= kk < dots1.len() && dots1[kk] == (j2 as usize);
                                    if kk < player_dots(recs0[i as int]).len() {
                                        assert(ring_list_wf(recs0, i as int));
                                        assert(ring_owner(recs0[j2]) == i as int);
                                    } else {
                                        assert(dots1[kk] == mid2.len() as usize);
                                    }
                                } else {
                                    assert(b[j2] == mid2[j2]);
                                    assert(mid2[j2] == pre0[j2]);
                                }
                            }
                            lemma_grow_frame_step(recs0, pre0, b, i as int);
                            assert(!(sqrt_floor(player_energy(recs0[i as int])) > 9000));
                            assert(blackhole_ring_dimmed(recs0, b, i as int));
                        }
                    } else {
                        proof {
                            let b = state.recs@;
                            assert forall|j2: int|
                                0 <= j2 < n && is_ring(#[trigger] recs0[j2]) && ring_owner(
                                    recs0[j2],
                                ) != i as int implies b[j2] == pre0[j2] by {
                                assert(b[j2] == mid2[j2]);
                                assert(mid2[j2] == pre0[j2]);
                            }
                            lemma_grow_frame_step(recs0, pre0, b, i as int);
                            assert(!(sqrt_floor(player_energy(recs0[i as int])) > 9000));
                            assert(blackhole_ring_dimmed(recs0, b, i as int));
                        }
                    }
                }
                proof {
                    let b = state.recs@;
                    assert(grow_player_ok(recs0[i as int], b[i as int]));
                    assert forall|j: int| 0 <= j < n implies match #[trigger] recs0[j] {
                        Rec::Dot { .. } => b[j] == recs0[j],
                        Rec::Dead => b[j] == recs0[j],
                        Rec::Ring { .. } => is_ring(b[j]),
                        Rec::Player { .. } => (j <= i && grow_player_ok(recs0[j], b[j])) || (j > i
                            && b[j] == recs0[j]),
                    } by {
                        if j != i {
                            match recs0[j] {
                                Rec::Dot { .. } => {
                                    assert(pre0[j] == recs0[j]);
                                    assert(!is_ring(pre0[j]));
                                },
                                Rec::Dead => {
                                    assert(pre0[j] == recs0[j]);
                                    assert(!is_ring(pre0[j]));
                                },
                                Rec::Ring { .. } => {
                                    assert(is_ring(pre0[j]));
                                },
                                Rec::Player { .. } => {
                                    assert(is_player(pre0[j]));
                                    assert(!is_ring(pre0[j]));
                                },
                            }
                        }
                    }
                    assert forall|j: int| n <= j < b.len() implies is_ring(#[trigger] b[j]) by {
                        if j < pre0.len() {
                            assert(is_ring(pre0[j]));
                        }
                    }
                }
            }
            i = i + 1;
        }
    }
}

// --- orbital placement ----------------------------------------------------------------

/// Where ring-dot `k` of `cnt` sits: on a circle around the player whose
/// radius is the root of the player's size, at an angle advanced by the
/// player's rotation phase.
pub open spec fn orbit_pos(ppos: Vec2, size: int, rot: int, k: int, cnt: int) -> Vec2 {
    let orbit = sqrt_floor(size * 1000);
    let a = 1_000_000 * k / cnt;
    let t0 = a + rot;
    let t = if t0 >= 1_000_000 {
        t0 - 1_000_000
    } else {
        t0
    };
    vec2_clamped(
        ppos.x + trunc_div(crate::math::cos_milli_spec(t) * orbit, 1000),
        ppos.y + trunc_div(crate::math::sin_milli_spec(t) * orbit, 1000),
    )
}

/// Player `i`'s whole ring sits at its orbital positions in `cur`.
pub open spec fn orbit_done(recs0: Seq<Rec>, cur: Seq<Rec>, i: int) -> bool {
    forall|k: int|
        0 <= k < player_dots(recs0[i]).len() ==> pos_of(
            cur[#[trigger] player_dots(recs0[i])[k] as int],
        ) == orbit_pos(
            pos_of(recs0[i]),
            player_size(recs0[i]),
            player_rot(recs0[i]),
            k,
            player_dots(recs0[i]).len() as int,
        )
}

impl Player {
    /// Recompute every ring-dot's position on its player's orbit.
    #[verifier::rlimit(100)]
    pub fn update(state: &mut State)
        requires
            state_wf(old(state).recs@),
        ensures
            final(state).recs@.len() == old(state).recs@.len(),
            forall|j: int|
                0 <= j < old(state).recs@.len() && !is_ring(#[trigger] old(state).recs@[j])
                    ==> final(state).recs@[j] == old(state).recs@[j],
            forall|j: int|
                0 <= j < old(state).recs@.len() && is_ring(#[trigger] old(state).recs@[j]) ==> {
                    &&& is_ring(final(state).recs@[j])
                    &&& color_of(final(state).recs@[j]) == color_of(old(state).recs@[j])
                    &&& ring_owner(final(state).recs@[j]) == ring_owner(old(state).recs@[j])
                    &&& neighbours_of(final(state).recs@[j]) == neighbours_of(old(state).recs@[j])
                },
            forall|i: int|
                0 <= i < old(state).recs@.len() && is_player(#[trigger] old(state).recs@[i])
                    ==> orbit_done(old(state).recs@, final(state).recs@, i),
            state_wf(final(state).recs@),
    {
        let ghost recs0 = old(state).recs@;
        let n: usize = state.recs.len();
        let mut i: usize = 0;
        while i < n
            invariant
                0 <= i <= n,
                n == state.recs@.len() == recs0.len(),
                state_wf(recs0),
                state_wf(state.recs@),
                forall|j: int|
                    0 <= j < n && !is_ring(#[trigger] recs0[j]) ==> state.recs@[j] == recs0[j],
                forall|j: int|
                    0 <= j < n && is_ring(#[trigger] recs0[j]) ==> {
                        &&& is_ring(state.recs@[j])
                        &&& color_of(state.recs@[j]) == color_of(recs0[j])
                        &&& ring_owner(state.recs@[j]) == ring_owner(recs0[j])
                        &&& neighbours_of(state.recs@[j]) == neighbours_of(recs0[j])
                    },
                forall|i2: int|
                    0 <= i2 < i && is_player(#[trigger] recs0[i2]) ==> orbit_done(
                        recs0,
                        state.recs@,
                        i2,
                    ),
            decreases n - i,
        {
            let isplayer: bool = match &state.recs[i] {
                Rec::Player { .. } => true,
                _ => false,
            };
            if isplayer {
                let (ppos, size, rot, cnt): (Vec2, i64, i64, usize) = match &state.recs[i] {
                    Rec::Player { pos, size, data, .. } => (*pos, *size, data.rot, data.dots.len()),
                    _ => {
                        proof {
                            assert(false);
                        }
                        (Vec2 { x: 0, y: 0 }, 0, 0, 0)
                    },
                };
                proof {
                    assert(rec_wf(recs0[i as int]));
                    assert(state.recs@[i as int] == recs0[i as int]);
                }
                let orbit: i64 = crate::math::isqrt64((size * 1000) as u64) as i64;
                proof {
                    crate::math::lemma_sqrt_floor(size as int * 1000);
                    assert(0 <= orbit as int <= 44_722) by (nonlinear_arith)
                        requires
                            orbit as int >= 0,
                            orbit as int * orbit as int <= 2_000_000_000,
                    ;
                }
                let mut k: usize = 0;
                while k < cnt
                    invariant
                        0 <= k <= cnt,
                        0 <= (i as int) < n,
                        n == state.recs@.len() == recs0.len(),
                        state_wf(recs0),
                        state_wf(state.recs@),
                        is_player(recs0[i as int]),
                        state.recs@[i as int] == recs0[i as int],
                        ppos == pos_of(recs0[i as int]),
                        size == player_size(recs0[i as int]),
                        rot == player_rot(recs0[i as int]),
                        cnt == player_dots(recs0[i as int]).len(),
                        0 <= rot < 1_000_000,
                        0 <= orbit <= 44_722,
                        orbit == sqrt_floor(size as int * 1000),
                        forall|j: int|
                            0 <= j < n && !is_ring(#[trigger] recs0[j]) ==> state.recs@[j]
                                == recs0[j],
                        forall|j: int|
                            0 <= j < n && is_ring(#[trigger] recs0[j]) ==> {
                                &&& is_ring(state.recs@[j])
                                &&& color_of(state.recs@[j]) == color_of(recs0[j])
                                &&& ring_owner(state.recs@[j]) == ring_owner(recs0[j])
                                &&& neighbours_of(state.recs@[j]) == neighbours_of(recs0[j])
                            },
                        forall|i2: int|
                            0 <= i2 < i && is_player(#[trigger] recs0[i2]) ==> orbit_done(
                                recs0,
                                state.recs@,
                                i2,
                            ),
                        forall|k2: int|
                            0 <= k2 < k ==> pos_of(
                                state.recs@[#[trigger] player_dots(recs0[i as int])[k2] as int],
                            ) == orbit_pos(ppos, size as int, rot as int, k2, cnt as int),
                    decreases cnt - k,
                {
                    let d: usize = player_dot_at(&state.recs[i], k);
                    proof {
                        assert(ring_list_wf(recs0, i as int));
                        assert(player_dots(recs0[i as int])[k as int] == d);
                        assert(is_ring(recs0[d as int]));
                    }
                    let a: i64 = ((1_000_000u128 * (k as u128)) / (cnt as u128)) as i64;
                    proof {
                        let q = 1_000_000 * (k as int) / (cnt as int);
                        vstd::arithmetic::div_mod::lemma_fundamental_div_mod(
                            1_000_000 * (k as int),
                            cnt as int,
                        );
                        vstd::arithmetic::div_mod::lemma_div_pos_is_pos(
                            1_000_000 * (k as int),
                            cnt as int,
                        );
                        assert(0 <= q < 1_000_000) by (nonlinear_arith)
                            requires
                                q >= 0,
                                0 <= k as int && (k as int) < cnt as int,
                                1_000_000 * (k as int) == (cnt as int) * q + (1_000_000 * (
                                k as int)) % (cnt as int),
                                0 <= (1_000_000 * (k as int)) % (cnt as int) < cnt as int,
                        ;
                        assert(a as int == q);
                    }
                    let t0: i64 = a + rot;
                    let t: i64 = if t0 >= 1_000_000 {
                        t0 - 1_000_000
                    } else {
                        t0
                    };
                    let c: i64 = crate::math::cos_milli(t);
                    let s: i64 = crate::math::sin_milli(t);
                    proof {
                        assert(-45_000_000 <= c as int * orbit as int <= 45_000_000
                            && -45_000_000 <= s as int * orbit as int <= 45_000_000)
                            by (nonlinear_arith)
                            requires
                                -1000 <= c as int <= 1000,
                                -1000 <= s as int <= 1000,
                                0 <= orbit as int <= 44_722,
                        ;
                    }
                    let dx: i64 = crate::math::div_trunc_i64(c * orbit, 1000);
                    let dy: i64 = crate::math::div_trunc_i64(s * orbit, 1000);
                    proof {
                        lemma_trunc_div_le(c as int * orbit as int, 1000);
                        lemma_trunc_div_le(s as int * orbit as int, 1000);
                    }
                    let px: i64 = crate::math::clamp_i64(ppos.x + dx, -COORD_LIMIT, COORD_LIMIT);
                    let py: i64 = crate::math::clamp_i64(ppos.y + dy, -COORD_LIMIT, COORD_LIMIT);
                    let ghost pre = state.recs@;
                    match &mut state.recs[d] {
                        Rec::Ring { pos, .. } => {
                            *pos = Vec2 { x: px, y: py };
                        },
                        _ => {
                            proof {
                                assert(false);
                            }
                        },
                    }
                    proof {
                        let b = state.recs@;
                        assert(pos_of(b[d as int]) == orbit_pos(
                            ppos,
                            size as int,
                            rot as int,
                            k as int,
                            cnt as int,
                        ));
                        assert forall|i2: int|
                            0 <= i2 < i && is_player(#[trigger] recs0[i2]) implies orbit_done(
                            recs0,
                            b,
                            i2,
                        ) by {
                            assert forall|k2: int|
                                0 <= k2 < player_dots(recs0[i2]).len() implies pos_of(
                                b[#[trigger] player_dots(recs0[i2])[k2] as int],
                            ) == orbit_pos(
                                pos_of(recs0[i2]),
                                player_size(recs0[i2]),
                                player_rot(recs0[i2]),
                                k2,
                                player_dots(recs0[i2]).len() as int,
                            ) by {
                                let d2 = player_dots(recs0[i2])[k2] as int;
                                assert(ring_list_wf(recs0, i2));
                                assert(ring_owner(recs0[d2]) == i2);
                                assert(ring_owner(recs0[d as int]) == i as int);
                                assert(d2 != d as int);
                                assert(b[d2] == pre[d2]);
                            }
                        }
                        assert forall|k2: int|
                            0 <= k2 < k + 1 implies pos_of(
                            b[#[trigger] player_dots(recs0[i as int])[k2] as int],
                        ) == orbit_pos(ppos, size as int, rot as int, k2, cnt as int) by {
                            if k2 < k {
                                let d2 = player_dots(recs0[i as int])[k2] as int;
                                assert(player_dots(recs0[i as int])[k2] != player_dots(
                                    recs0[i as int],
                                )[k as int]);
                                assert(b[d2] == pre[d2]);
                            }
                        }
                        let b2 = state.recs@;
                        assert forall|i3: int| 0 <= i3 < b2.len() implies rec_wf(
                            #[trigger] b2[i3],
                        ) by {
                            assert(rec_wf(pre[i3]));
                        }
                        lemma_ring_lists_after_update(pre, b2, d as int);
                    }
                    k = k + 1;
                }
            }
            i = i + 1;
        }
    }
}

// --- extinction and restart --------------------------------------------------------------

/// How many of the first `n` slots are plain dots still holding more than the
/// epsilon of saturation: the active population.
pub open spec fn count_active(recs: Seq<Rec>, n: int) -> int
    decreases n,
{
    if n <= 0 {
        0
    } else {
        count_active(recs, n - 1) + if is_dot(recs[n - 1]) && sat_of(recs[n - 1]) > 100 {
            1int
        } else {
            0int
        }
    }
}

/// How many of the first `n` slots are live plain dots.
pub open spec fn count_dots(recs: Seq<Rec>, n: int) -> int
    decreases n,
{
    if n <= 0 {
        0
    } else {
        count_dots(recs, n - 1) + if is_dot(recs[n - 1]) {
            1int
        } else {
            0int
        }
    }
}

/// Dot counts agree wherever dot-ness agrees slot for slot.
pub proof fn lemma_count_dots_congruent(a: Seq<Rec>, b: Seq<Rec>, n: int)
    requires
        forall|j: int| 0 <= j < n ==> (is_dot(#[trigger] a[j]) <==> is_dot(#[trigger] b[j])),
    ensures
        count_dots(a, n) == count_dots(b, n),
    decreases n,
{
    if n > 0 {
        lemma_count_dots_congruent(a, b, n - 1);
    }
}

/// Counting over a tail of non-dots adds nothing; over a tail of dots it adds
/// the tail's length.
pub proof fn lemma_count_dots_range(recs: Seq<Rec>, n0: int, n1: int, dots: bool)
    requires
        0 <= n0 <= n1,
        forall|j: int| n0 <= j < n1 ==> is_dot(#[trigger] recs[j]) == dots,
    ensures
        count_dots(recs, n1) == count_dots(recs, n0) + if dots {
            n1 - n0
        } else {
            0int
        },
    decreases n1 - n0,
{
    if n1 > n0 {
        lemma_count_dots_range(recs, n0, n1 - 1, dots);
    }
}

/// A player reset to its initial coat and energy, owning one fresh ring-dot.
pub open spec fn player_reset(recs: Seq<Rec>, j: int) -> bool {
    &&& is_player(recs[j])
    &&& pos_of(recs[j]) == (Vec2 { x: 0, y: 0 })
    &&& speed_of(recs[j]) == (Vec2 { x: 0, y: 0 })
    &&& player_size(recs[j]) == 1000
    &&& color_of(recs[j]) == (Color { hue: 0, sat: 0, light: 100_000 })
    &&& player_energy(recs[j]) == 1_000_000
    &&& player_rot(recs[j]) == 0
    &&& player_dots(recs[j]).len() == 1
    &&& player_dots(recs[j])[0] < recs.len()
    &&& is_ring(recs[player_dots(recs[j])[0] as int])
}

impl State {
    /// Create or reset a player at the given handle: initial position, coat
    /// and energy, and a single fresh ring-dot.
    pub fn respawn_player(&mut self, player: Entity)
        requires
            state_wf(old(self).recs@),
            player.idx < old(self).recs@.len(),
            is_player(old(self).recs@[player.idx as int]) || old(self).recs@[player.idx as int]
                is Dead,
            old(self).recs@.len() + 1 <= 1_000_000,
        ensures
            final(self).recs@.len() == old(self).recs@.len() + 1,
            forall|j: int|
                0 <= j < old(self).recs@.len() && j != player.idx ==> final(self).recs@[j]
                    == #[trigger] old(self).recs@[j],
            player_reset(final(self).recs@, player.idx as int),
            player_dots(final(self).recs@[player.idx as int])[0] == old(self).recs@.len(),
            is_ring(final(self).recs@[old(self).recs@.len() as int]),
            ring_owner(final(self).recs@[old(self).recs@.len() as int]) == player.idx,
            state_wf(final(self).recs@),
    {
        let ghost recs0 = old(self).recs@;
        let p: usize = player.idx;
        self.recs.set(
            p,
            Rec::Player {
                pos: Vec2 { x: 0, y: 0 },
                speed: Vec2 { x: 0, y: 0 },
                size: 1000,
                color: Color::white(),
                data: PlayerData { dots: Vec::new(), energy: 1_000_000, rot: 0 },
            },
        );
        proof {
            let b = self.recs@;
            assert forall|i3: int| 0 <= i3 < b.len() implies rec_wf(#[trigger] b[i3]) by {
                assert(rec_wf(recs0[i3]));
            }
            assert forall|i3: int|
                0 <= i3 < b.len() && is_player(#[trigger] b[i3]) implies ring_list_wf(b, i3) by {
                if i3 != p {
                    assert(is_player(recs0[i3]));
                    assert(ring_list_wf(recs0, i3));
                    assert(player_dots(b[i3]) == player_dots(recs0[i3]));
                    assert forall|k2: int| 0 <= k2 < player_dots(b[i3]).len() implies {
                        let d = #[trigger] player_dots(b[i3])[k2] as int;
                        0 <= d < b.len() && is_ring(b[d]) && ring_owner(b[d]) == i3
                    } by {
                        let d = player_dots(recs0[i3])[k2] as int;
                        assert(is_ring(recs0[d]) && ring_owner(recs0[d]) == i3);
                    }
                } else {
                    assert(player_dots(b[i3]).len() == 0);
                }
            }
        }
        let ghost mid = self.recs@;
        Player::add_dot(self, p);
        proof {
            let b = self.recs@;
            let ghost dots1 = player_dots(mid[p as int]).push(mid.len() as usize);
            assert(player_dots(mid[p as int]).len() == 0);
            assert forall|j: int|
                0 <= j < recs0.len() && j != p implies b[j] == #[trigger] recs0[j] by {
                assert(mid[j] == recs0[j]);
                if dots1.contains(j as usize) {
                    let kk = choose|kk: int| 0 <= kk < dots1.len() && dots1[kk] == (j as usize);
                    assert(dots1[kk] == mid.len() as usize);
                } else {
                    assert(b[j] == mid[j]);
                }
            }
            assert(player_dots(b[p as int]) == dots1);
            assert(dots1[0] == mid.len() as usize);
            assert(is_ring(b[dots1[0] as int]));
            assert(player_reset(b, p as int));
        }
    }

    /// Create a fresh player entity and hand back its handle.
    pub fn spawn_player(&mut self) -> (e: Entity)
        requires
            state_wf(old(self).recs@),
            old(self).recs@.len() + 2 <= 1_000_000,
        ensures
            e.idx == old(self).recs@.len(),
            final(self).recs@.len() == old(self).recs@.len() + 2,
            forall|j: int|
                0 <= j < old(self).recs@.len() ==> final(self).recs@[j] == #[trigger] old(
                    self,
                ).recs@[j],
            player_reset(final(self).recs@, e.idx as int),
            state_wf(final(self).recs@),
    {
        let idx: usize = self.recs.len();
        self.recs.push(Rec::Dead);
        proof {
            let b = self.recs@;
            assert forall|i3: int| 0 <= i3 < b.len() implies rec_wf(#[trigger] b[i3]) by {
                if i3 < old(self).recs@.len() {
                    assert(rec_wf(old(self).recs@[i3]));
                }
            }
            assert forall|i3: int|
                0 <= i3 < b.len() && is_player(#[trigger] b[i3]) implies ring_list_wf(b, i3) by {
                assert(is_player(old(self).recs@[i3]));
                assert(ring_list_wf(old(self).recs@, i3));
                assert forall|k2: int| 0 <= k2 < player_dots(b[i3]).len() implies {
                    let d = #[trigger] player_dots(b[i3])[k2] as int;
                    0 <= d < b.len() && is_ring(b[d]) && ring_owner(b[d]) == i3
                } by {
                    let d = player_dots(old(self).recs@[i3])[k2] as int;
                    assert(is_ring(old(self).recs@[d]) && ring_owner(old(self).recs@[d]) == i3);
                }
            }
        }
        let ghost pushed = self.recs@;
        let e = Entity { idx };
        self.respawn_player(e);
        proof {
            assert forall|j: int|
                0 <= j < old(self).recs@.len() implies self.recs@[j] == #[trigger] old(
                self,
            ).recs@[j] by {
                assert(self.recs@[j] == pushed[j]);
            }
        }
        e
    }

    /// Before any other per-tick work: count the active dots; despawn the
    /// spent ones; and when the active population has collapsed below the
    /// floor, restart the world.
    pub fn heat_death(&mut self)
        requires
            state_wf(old(self).recs@),
            2 * old(self).recs@.len() + 1000 <= 1_000_000,
        ensures
            ({
                let recs0 = old(self).recs@;
                let n0 = recs0.len() as int;
                let act = count_active(recs0, n0);
                &&& final(self).recs@.len() >= n0
                &&& final(self).recs@.len() <= 2 * n0 + 1000
                &&& forall|j: int|
                    0 <= j < n0 ==> match #[trigger] recs0[j] {
                        Rec::Dot { .. } => if sat_of(recs0[j]) > 100 {
                            final(self).recs@[j] == recs0[j]
                        } else {
                            final(self).recs@[j] is Dead
                        },
                        Rec::Dead => final(self).recs@[j] is Dead,
                        Rec::Ring { .. } => if act < 10 {
                            final(self).recs@[j] is Dead
                        } else {
                            final(self).recs@[j] == recs0[j]
                        },
                        Rec::Player { .. } => if act < 10 {
                            player_reset(final(self).recs@, j)
                        } else {
                            final(self).recs@[j] == recs0[j]
                        },
                    }
                &&& act >= 10 ==> final(self).recs@.len() == n0
                &&& act < 10 ==> count_dots(final(self).recs@, final(self).recs@.len() as int)
                    == act + 1000
                &&& act >= 10 ==> count_dots(final(self).recs@, final(self).recs@.len() as int)
                    == act
            }),
            state_wf(final(self).recs@),
    {
        let ghost recs0 = old(self).recs@;
        let n: usize = self.recs.len();
        let mut count: usize = 0;
        let mut j: usize = 0;
        while j < n
            invariant
                0 <= j <= n,
                n == self.recs@.len() == recs0.len(),
                state_wf(recs0),
                count as int == count_active(recs0, j as int),
                count <= j,
                forall|j2: int|
                    0 <= j2 < j ==> match #[trigger] recs0[j2] {
                        Rec::Dot { .. } => if sat_of(recs0[j2]) > 100 {
                            self.recs@[j2] == recs0[j2]
                        } else {
                            self.recs@[j2] is Dead
                        },
                        _ => self.recs@[j2] == recs0[j2],
                    },
                forall|j2: int| j <= j2 < n ==> self.recs@[j2] == recs0[j2],
                state_wf(self.recs@),
            decreases n - j,
        {
            let spent: bool = match &self.recs[j] {
                Rec::Dot { color, .. } => color.sat <= 100,
                _ => false,
            };
            let active: bool = match &self.recs[j] {
                Rec::Dot { color, .. } => color.sat > 100,
                _ => false,
            };
            let ghost pre = self.recs@;
            if spent {
                self.recs.set(j, Rec::Dead);
                proof {
                    let b = self.recs@;
                    assert forall|i3: int| 0 <= i3 < b.len() implies rec_wf(#[trigger] b[i3]) by {
                        assert(rec_wf(pre[i3]));
                    }
                    lemma_ring_lists_after_update(pre, b, j as int);
                }
            }
            if active {
                count = count + 1;
            }
            j = j + 1;
        }
        proof {
            lemma_count_dots_after_despawn(recs0, self.recs@, n as int);
        }
        if count < 10 {
            let ghost desp = self.recs@;
            self.restart();
            proof {
                let b = self.recs@;
                assert forall|j2: int| 0 <= j2 < n implies match #[trigger] recs0[j2] {
                    Rec::Dot { .. } => if sat_of(recs0[j2]) > 100 {
                        b[j2] == recs0[j2]
                    } else {
                        b[j2] is Dead
                    },
                    Rec::Dead => b[j2] is Dead,
                    Rec::Ring { .. } => b[j2] is Dead,
                    Rec::Player { .. } => player_reset(b, j2),
                } by {
                    match recs0[j2] {
                        Rec::Dot { .. } => {
                            if sat_of(recs0[j2]) > 100 {
                                assert(desp[j2] == recs0[j2]);
                            } else {
                                assert(desp[j2] is Dead);
                            }
                        },
                        Rec::Dead => {
                            assert(desp[j2] is Dead);
                        },
                        Rec::Ring { .. } => {
                            assert(desp[j2] == recs0[j2]);
                        },
                        Rec::Player { .. } => {
                            assert(desp[j2] == recs0[j2]);
                        },
                    }
                }
            }
        }
    }

    /// Despawn every ring-dot, reset every player, and respawn a fresh batch
    /// of a thousand randomly placed, randomly colored plain dots.
    pub fn restart(&mut self)
        requires
            state_wf(old(self).recs@),
            2 * old(self).recs@.len() + 1000 <= 1_000_000,
        ensures
            ({
                let recs0 = old(self).recs@;
                let n0 = recs0.len() as int;
                &&& final(self).recs@.len() >= n0
                &&& final(self).recs@.len() <= 2 * n0 + 1000
                &&& forall|j: int|
                    0 <= j < n0 ==> match #[trigger] recs0[j] {
                        Rec::Dot { .. } => final(self).recs@[j] == recs0[j],
                        Rec::Dead => final(self).recs@[j] is Dead,
                        Rec::Ring { .. } => final(self).recs@[j] is Dead,
                        Rec::Player { .. } => player_reset(final(self).recs@, j),
                    }
                &&& count_dots(final(self).recs@, final(self).recs@.len() as int) == count_dots(
                    recs0,
                    n0,
                ) + 1000
            }),
            state_wf(final(self).recs@),
    {
        let ghost recs0 = old(self).recs@;
        let n: usize = self.recs.len();
        let mut j: usize = 0;
        // Despawning every ring-dot would leave the players' ring lists
        // dangling, so the lists are emptied in the same pass; the respawn
        // pass below replaces them anyway.
        while j < n
            invariant
                0 <= j <= n,
                n == self.recs@.len() == recs0.len(),
                state_wf(recs0),
                forall|j2: int|
                    0 <= j2 < j ==> match #[trigger] recs0[j2] {
                        Rec::Ring { .. } => self.recs@[j2] is Dead,
                        Rec::Player { .. } => is_player(self.recs@[j2]) && pos_of(self.recs@[j2])
                            == pos_of(recs0[j2]) && player_dots(self.recs@[j2]).len() == 0,
                        _ => self.recs@[j2] == recs0[j2],
                    },
                forall|j2: int| j <= j2 < n ==> self.recs@[j2] == recs0[j2],
                forall|i3: int| 0 <= i3 < n ==> rec_wf(#[trigger] self.recs@[i3]),
            decreases n - j,
        {
            let isring: bool = match &self.recs[j] {
                Rec::Ring { .. } => true,
                _ => false,
            };
            if isring {
                self.recs.set(j, Rec::Dead);
            } else {
                match &mut self.recs[j] {
                    Rec::Player { data, .. } => {
                        data.dots = Vec::new();
                    },
                    _ => {},
                }
            }
            j = j + 1;
        }
        proof {
            assert forall|i3: int|
                0 <= i3 < self.recs@.len() && is_player(#[trigger] self.recs@[i3]) implies ring_list_wf(
                self.recs@,
                i3,
            ) by {
                match recs0[i3] {
                    Rec::Player { .. } => {
                        assert(player_dots(self.recs@[i3]).len() == 0);
                    },
                    Rec::Ring { .. } => {
                        assert(self.recs@[i3] is Dead);
                    },
                    Rec::Dot { .. } => {
                        assert(self.recs@[i3] == recs0[i3]);
                    },
                    Rec::Dead => {
                        assert(self.recs@[i3] is Dead);
                    },
                }
            }
        }
        let ghost mid = self.recs@;
        let mut j2: usize = 0;
        while j2 < n
            invariant
                0 <= j2 <= n,
                n == recs0.len() <= self.recs@.len(),
                self.recs@.len() <= n + j2,
                2 * recs0.len() + 1000 <= 1_000_000,
                state_wf(recs0),
                forall|j3: int|
                    0 <= j3 < n ==> match #[trigger] recs0[j3] {
                        Rec::Ring { .. } => self.recs@[j3] is Dead,
                        Rec::Dot { .. } => self.recs@[j3] == recs0[j3],
                        Rec::Dead => self.recs@[j3] is Dead,
                        Rec::Player { .. } => (j3 < j2 && player_reset(self.recs@, j3)) || (j3 >= j2
                            && self.recs@[j3] == mid[j3] && is_player(mid[j3])),
                    },
                forall|j3: int| n <= j3 < self.recs@.len() ==> is_ring(#[trigger] self.recs@[j3]),
                state_wf(self.recs@),
            decreases n - j2,
        {
            let isplayer: bool = match &self.recs[j2] {
                Rec::Player { .. } => true,
                _ => false,
            };
            if isplayer {
                let ghost pre = self.recs@;
                self.respawn_player(Entity { idx: j2 });
                proof {
                    assert forall|j3: int| 0 <= j3 < n implies match #[trigger] recs0[j3] {
                        Rec::Ring { .. } => self.recs@[j3] is Dead,
                        Rec::Dot { .. } => self.recs@[j3] == recs0[j3],
                        Rec::Dead => self.recs@[j3] is Dead,
                        Rec::Player { .. } => (j3 < j2 + 1 && player_reset(self.recs@, j3)) || (j3
                            >= j2 + 1 && self.recs@[j3] == mid[j3] && is_player(mid[j3])),
                    } by {
                        if j3 != j2 {
                            assert(self.recs@[j3] == pre[j3]);
                            if j3 < j2 && is_player(recs0[j3]) {
                                assert(player_reset(pre, j3));
                                assert(player_dots(self.recs@[j3]) == player_dots(pre[j3]));
                            }
                        }
                    }
                    assert forall|j3: int|
                        n <= j3 < self.recs@.len() implies is_ring(#[trigger] self.recs@[j3]) by {
                        if j3 < pre.len() {
                            assert(is_ring(pre[j3]));
                            assert(self.recs@[j3] == pre[j3]);
                        } else {
                            assert(is_ring(self.recs@[pre.len() as int]));
                        }
                    }
                }
            }
            j2 = j2 + 1;
        }
        let ghost before_batch = self.recs@;
        self.batch_spawn_dots(1000);
        proof {
            let b = self.recs@;
            let nb = before_batch.len() as int;
            assert forall|j3: int| 0 <= j3 < n implies match #[trigger] recs0[j3] {
                Rec::Dot { .. } => b[j3] == recs0[j3],
                Rec::Dead => b[j3] is Dead,
                Rec::Ring { .. } => b[j3] is Dead,
                Rec::Player { .. } => player_reset(b, j3),
            } by {
                assert(b[j3] == before_batch[j3]);
                if is_player(recs0[j3]) {
                    assert(player_reset(before_batch, j3));
                    assert(player_dots(b[j3]) == player_dots(before_batch[j3]));
                }
            }
            // Count the dots: survivors, then the appended rings, then the
            // fresh thousand.
            lemma_count_dots_congruent(recs0, b, n as int);
            assert forall|j3: int| n <= j3 < nb implies is_dot(#[trigger] b[j3]) == false by {
                assert(b[j3] == before_batch[j3]);
                assert(is_ring(before_batch[j3]));
            }
            assert forall|j3: int|
                nb <= j3 < b.len() implies is_dot(#[trigger] b[j3]) == true by {
                assert(fresh_dot(b[j3]));
            }
            lemma_count_dots_range(b, n as int, nb, false);
            lemma_count_dots_range(b, nb, b.len() as int, true);
        }
    }
}

/// After the despawn pass of the extinction check, the surviving dots are
/// exactly the active ones.
pub proof fn lemma_count_dots_after_despawn(a: Seq<Rec>, b: Seq<Rec>, n: int)
    requires
        b.len() >= n,
        forall|j: int|
            0 <= j < n ==> match #[trigger] a[j] {
                Rec::Dot { .. } => if sat_of(a[j]) > 100 {
                    b[j] == a[j]
                } else {
                    b[j] is Dead
                },
                _ => b[j] == a[j],
            },
    ensures
        count_dots(b, n) == count_active(a, n),
    decreases n,
{
    if n > 0 {
        lemma_count_dots_after_despawn(a, b, n - 1);
    }
}

// --- render snapshot and the tick -------------------------------------------------------

/// A renderable snapshot entry: an entity's coat, position, and the root of
/// its size (plain dots and ring-dots count as unit size).
#[derive(Clone, Copy, PartialEq, Eq, Structural, Debug)]
pub struct Dot {
    pub color: Color,
    pub pos: Position,
    pub size: i64,
}

pub open spec fn dot_of(r: Rec) -> Dot {
    Dot {
        color: color_of(r),
        pos: Position { vec: pos_of(r) },
        size: sqrt_floor((if is_player(r) {
            player_size(r)
        } else {
            1000
        }) * 1000) as i64,
    }
}

/// The snapshot of the first `n` slots, in slot order, live slots only.
pub open spec fn dots_upto(recs: Seq<Rec>, n: int) -> Seq<Dot>
    decreases n,
{
    if n <= 0 {
        Seq::empty()
    } else {
        let rest = dots_upto(recs, n - 1);
        if alive(recs[n - 1]) {
            rest.push(dot_of(recs[n - 1]))
        } else {
            rest
        }
    }
}

// --- the tick pipeline, as one relation ---------------------------------------

pub open spec fn after_gravity_all(s: Seq<Rec>) -> Seq<Rec> {
    Seq::new(s.len(), |i: int| rec_after_gravity(s[i]))
}

pub open spec fn after_integrate_all(s: Seq<Rec>) -> Seq<Rec> {
    Seq::new(s.len(), |i: int| rec_after_integrate(s[i]))
}

pub open spec fn after_rotate_all(s: Seq<Rec>) -> Seq<Rec> {
    Seq::new(s.len(), |i: int| rec_after_rotate(s[i]))
}

pub open spec fn after_damp_all(s: Seq<Rec>) -> Seq<Rec> {
    Seq::new(s.len(), |i: int| rec_after_damp(s[i]))
}

pub open spec fn after_attract_all(s: Seq<Rec>) -> Seq<Rec> {
    Seq::new(s.len(), |i: int| rec_after_attract(s, s[i]))
}

/// How many of the first `n` slots carry a neighbour cache.
pub open spec fn count_caches(recs: Seq<Rec>, n: int) -> int
    decreases n,
{
    if n <= 0 {
        0
    } else {
        count_caches(recs, n - 1) + if has_neighbours(recs[n - 1]) {
            1int
        } else {
            0int
        }
    }
}

/// The adaptive query radius in milli-units: ten thousand world units shared
/// out over the population, clamped between 10 and 10000 world units, so the
/// radius shrinks as the population grows.
pub open spec fn adaptive_radius(recs: Seq<Rec>) -> int {
    let c = count_caches(recs, recs.len() as int);
    if c == 0 {
        10_000_000
    } else {
        clamp_spec(10_000_000int / c, 10_000, 10_000_000)
    }
}

/// The extinction pass as a relation: spent dots despawn, and a collapse of
/// the active population below the floor resets the world.
pub open spec fn heat_death_rel(a: Seq<Rec>, b: Seq<Rec>) -> bool {
    let n0 = a.len() as int;
    let act = count_active(a, n0);
    &&& b.len() >= n0
    &&& b.len() <= 2 * n0 + 1000
    &&& forall|j: int|
        0 <= j < n0 ==> match #[trigger] a[j] {
            Rec::Dot { .. } => if sat_of(a[j]) > 100 {
                b[j] == a[j]
            } else {
                b[j] is Dead
            },
            Rec::Dead => b[j] is Dead,
            Rec::Ring { .. } => if act < 10 {
                b[j] is Dead
            } else {
                b[j] == a[j]
            },
            Rec::Player { .. } => if act < 10 {
                player_reset(b, j)
            } else {
                b[j] == a[j]
            },
        }
    &&& (act >= 10 ==> b.len() == n0)
    &&& (act < 10 ==> count_dots(b, b.len() as int) == act + 1000)
    &&& (act >= 10 ==> count_dots(b, b.len() as int) == act)
}

/// The growth pass as a relation between whole stores.
pub open spec fn grow_rel(a: Seq<Rec>, b: Seq<Rec>) -> bool {
    &&& a.len() <= b.len()
    &&& forall|j: int|
        0 <= j < a.len() ==> match #[trigger] a[j] {
            Rec::Dot { .. } => b[j] == a[j],
            Rec::Dead => b[j] == a[j],
            Rec::Ring { .. } => is_ring(b[j]),
            Rec::Player { .. } => grow_player_ok(a[j], b[j]),
        }
    &&& forall|j: int| a.len() <= j < b.len() ==> is_ring(#[trigger] b[j])
    &&& forall|j: int|
        0 <= j < a.len() && is_player(#[trigger] a[j]) ==> blackhole_ring_dimmed(a, b, j)
}

/// The orbit pass as a relation between whole stores.
pub open spec fn orbit_rel(a: Seq<Rec>, b: Seq<Rec>) -> bool {
    &&& b.len() == a.len()
    &&& forall|j: int| 0 <= j < a.len() && !is_ring(#[trigger] a[j]) ==> b[j] == a[j]
    &&& forall|j: int|
        0 <= j < a.len() && is_ring(#[trigger] a[j]) ==> {
            &&& is_ring(b[j])
            &&& color_of(b[j]) == color_of(a[j])
            &&& ring_owner(b[j]) == ring_owner(a[j])
            &&& neighbours_of(b[j]) == neighbours_of(a[j])
        }
    &&& forall|i: int| 0 <= i < a.len() && is_player(#[trigger] a[i]) ==> orbit_done(a, b, i)
}

/// The cache rebuild as a relation at a given radius.
pub open spec fn rebuild_rel(a: Seq<Rec>, b: Seq<Rec>, dist: int) -> bool {
    &&& b.len() == a.len()
    &&& forall|i: int| 0 <= i < a.len() ==> same_but_neighbours(#[trigger] a[i], b[i])
    &&& forall|i: int| 0 <= i < a.len() && !has_neighbours(a[i]) ==> b[i] == #[trigger] a[i]
    &&& forall|i: int|
        0 <= i < a.len() && has_neighbours(#[trigger] a[i]) ==> neighbours_exact(
            a,
            neighbours_of(b[i]),
            i,
            dist,
        )
}

/// One tick's whole pipeline: extinction, then gravity, integration,
/// rotation, consumption, growth, orbit placement, damping, the neighbour
/// cache rebuild at the adaptive radius, then pairwise attraction, chained
/// through intermediate states.
pub open spec fn tick_stages(
    a: Seq<Rec>,
    s1: Seq<Rec>,
    s5: Seq<Rec>,
    s6: Seq<Rec>,
    s7: Seq<Rec>,
    s9: Seq<Rec>,
    b: Seq<Rec>,
) -> bool {
    let s4 = after_rotate_all(after_integrate_all(after_gravity_all(s1)));
    let s8 = after_damp_all(s7);
    &&& heat_death_rel(a, s1)
    &&& s5 == consume_players_upto(s4, s4.len() as int)
    &&& grow_rel(s5, s6)
    &&& orbit_rel(s6, s7)
    &&& rebuild_rel(s8, s9, adaptive_radius(s8))
    &&& b == after_attract_all(s9)
}

/// A tick is exactly one run of the pipeline.
pub open spec fn tick_rel(a: Seq<Rec>, b: Seq<Rec>) -> bool {
    exists|s1: Seq<Rec>, s5: Seq<Rec>, s6: Seq<Rec>, s7: Seq<Rec>, s9: Seq<Rec>|
        #[trigger] tick_stages(a, s1, s5, s6, s7, s9, b)
}

impl State {
    /// A snapshot of every renderable entity, valid until the next tick.
    pub fn dots(&self) -> (r: Vec<Dot>)
        requires
            state_wf(self.recs@),
        ensures
            r@ == dots_upto(self.recs@, self.recs@.len() as int),
    {
        let n: usize = self.recs.len();
        let mut out: Vec<Dot> = Vec::new();
        let mut i: usize = 0;
        while i < n
            invariant
                0 <= i <= n,
                n == self.recs@.len(),
                state_wf(self.recs@),
                out@ == dots_upto(self.recs@, i as int),
            decreases n - i,
        {
            let a: bool = rec_alive(&self.recs[i]);
            if a {
                let (color, pos, size_m): (Color, Vec2, i64) = match &self.recs[i] {
                    Rec::Dot { color, pos, .. } => (*color, *pos, 1000),
                    Rec::Ring { color, pos, .. } => (*color, *pos, 1000),
                    Rec::Player { color, pos, size, .. } => (*color, *pos, *size),
                    Rec::Dead => {
                        proof {
                            assert(false);
                        }
                        (Color { hue: 0, sat: 0, light: 0 }, Vec2 { x: 0, y: 0 }, 0)
                    },
                };
                proof {
                    assert(rec_wf(self.recs@[i as int]));
                }
                let dsize: i64 = crate::math::isqrt64((size_m * 1000) as u64) as i64;
                out.push(Dot { color, pos: Position { vec: pos }, size: dsize });
            }
            i = i + 1;
        }
        out
    }

    /// Advance the simulation by one step: extinction check, gravity,
    /// integration, rotation, consumption, growth, orbit placement, damping,
    /// neighbour-cache rebuild at the adaptive radius, then pairwise forces.
    #[verifier::rlimit(100)]
    pub fn tick(&mut self)
        requires
            state_wf(old(self).recs@),
            old(self).recs@.len() <= 200_000,
        ensures
            state_wf(final(self).recs@),
            final(self).recs@.len() >= old(self).recs@.len(),
            // The tick is exactly the pipeline: every pass happened, chained
            // in order, with the cache rebuilt at the adaptive radius.
            tick_rel(old(self).recs@, final(self).recs@),
            // Saturation is never negative, and a surviving dot's saturation
            // never rises.
            forall|j: int|
                0 <= j < old(self).recs@.len() && is_dot(#[trigger] old(self).recs@[j]) ==> (
                final(self).recs@[j] is Dead || (is_dot(final(self).recs@[j]) && 0 <= sat_of(
                    final(self).recs@[j],
                ) <= sat_of(old(self).recs@[j]))),
            // Without a restart, a ring never shrinks and grows by at most one
            // dot per tick, and a player's energy never drops.
            count_active(old(self).recs@, old(self).recs@.len() as int) >= 10 ==> forall|j: int|
                0 <= j < old(self).recs@.len() && is_player(#[trigger] old(self).recs@[j]) ==> {
                    &&& is_player(final(self).recs@[j])
                    &&& player_dots(old(self).recs@[j]).len() <= player_dots(
                        final(self).recs@[j],
                    ).len() <= player_dots(old(self).recs@[j]).len() + 1
                    &&& player_energy(final(self).recs@[j]) >= player_energy(old(self).recs@[j])
                },
            // A collapse below the floor restarts the world: the old ring-dots
            // are gone and the plain dots are the survivors plus exactly the
            // thousand respawned.
            count_active(old(self).recs@, old(self).recs@.len() as int) < 10 ==> (forall|j: int|
                0 <= j < old(self).recs@.len() && is_ring(#[trigger] old(self).recs@[j])
                    ==> final(self).recs@[j] is Dead) && count_dots(
                final(self).recs@,
                final(self).recs@.len() as int,
            ) == count_active(old(self).recs@, old(self).recs@.len() as int) + 1000,
    {
        let ghost recs0 = old(self).recs@;
        let ghost n0 = recs0.len() as int;
        let ghost act = count_active(recs0, n0);

        self.heat_death();
        let ghost s1 = self.recs@;
        crate::state::global_gravity(self);
        let ghost s2 = self.recs@;
        crate::state::position_speed(self);
        let ghost s3 = self.recs@;
        Player::rotate(self);
        let ghost s4 = self.recs@;
        Player::consume_energy(self);
        let ghost s5 = self.recs@;
        Player::grow(self);
        let ghost s6 = self.recs@;
        Player::update(self);
        let ghost s7 = self.recs@;
        crate::state::decelerate(self);
        let ghost s8 = self.recs@;

        let n: usize = self.recs.len();
        let mut cnt: usize = 0;
        let mut i: usize = 0;
        while i < n
            invariant
                0 <= i <= n,
                n == self.recs@.len(),
                self.recs@ == s8,
                cnt as int == count_caches(s8, i as int),
                cnt <= i,
            decreases n - i,
        {
            let hn: bool = rec_has_neighbours(&self.recs[i]);
            if hn {
                cnt = cnt + 1;
            }
            i = i + 1;
        }
        let radius: i64 = if cnt == 0 {
            10_000_000
        } else {
            let raw: u64 = 10_000_000 / (cnt as u64);
            let r: u64 = if raw < 10_000 {
                10_000
            } else if raw > 10_000_000 {
                10_000_000
            } else {
                raw
            };
            r as i64
        };
        proof {
            assert(radius as int == adaptive_radius(s8));
        }
        Neighbours::update(self, radius);
        let ghost s9 = self.recs@;
        proof {
            assert forall|j: int|
                0 <= j < s9.len() implies {
                let ns = neighbours_of(#[trigger] s9[j]);
                forall|k: int|
                    0 <= k < ns.len() ==> crate::space::neighbour_valid(
                        #[trigger] ns[k],
                        100_000_000_000_000,
                    )
            } by {
                if has_neighbours(s8[j]) {
                    assert(neighbours_exact(s8, neighbours_of(s9[j]), j, radius as int));
                    let ns = neighbours_of(s9[j]);
                    assert forall|k: int|
                        0 <= k < ns.len() implies crate::space::neighbour_valid(
                        #[trigger] ns[k],
                        100_000_000_000_000,
                    ) by {
                        assert(crate::space::neighbour_valid(ns[k], (radius as int) * (
                        radius as int)));
                        assert((radius as int) * (radius as int) <= 100_000_000_000_000)
                            by (nonlinear_arith)
                            requires
                                0 <= radius as int <= 10_000_000,
                        ;
                    }
                } else {
                    assert(s9[j] == s8[j]);
                    assert(neighbours_of(s8[j]) =~= Seq::<crate::space::Neighbour>::empty());
                }
            }
        }
        crate::state::attract(self);
        proof {
            let b = self.recs@;
            // The pipeline ran: each captured state is related to the next by
            // its pass, so the whole chain is witnessed.
            assert(s2 =~= after_gravity_all(s1));
            assert(s3 =~= after_integrate_all(s2));
            assert(s4 =~= after_rotate_all(s3));
            assert(s8 =~= after_damp_all(s7));
            assert(b =~= after_attract_all(s9));
            assert(heat_death_rel(recs0, s1));
            assert(grow_rel(s5, s6));
            assert(orbit_rel(s6, s7));
            assert(rebuild_rel(s8, s9, radius as int));
            assert(tick_stages(recs0, s1, s5, s6, s7, s9, b));
            assert(tick_rel(recs0, b));
            // Chain dot-ness, saturations, ring death, players and counts
            // through the pipeline.
            assert forall|j: int| 0 <= j < s1.len() implies {
                &&& (is_dot(#[trigger] s1[j]) ==> is_dot(b[j]) && 0 <= sat_of(b[j]) <= sat_of(
                    s1[j],
                ))
                &&& (s1[j] is Dead ==> b[j] is Dead)
                &&& (is_dot(b[j]) ==> is_dot(s1[j]))
                &&& (is_player(s1[j]) ==> is_player(b[j]) && player_dots(s1[j]).len()
                    <= player_dots(b[j]).len() <= player_dots(s1[j]).len() + 1 && player_energy(
                    b[j],
                ) >= player_energy(s1[j]))
            } by {
                assert(s2[j] == rec_after_gravity(s1[j]));
                assert(s3[j] == rec_after_integrate(s2[j]));
                assert(s4[j] == rec_after_rotate(s3[j]));
                assert(s8[j] == rec_after_damp(s7[j]));
                assert(same_but_neighbours(s8[j], s9[j]));
                assert(b[j] == rec_after_attract(s9, s9[j]));
                if is_dot(s1[j]) {
                    assert(is_dot(s4[j]) && sat_of(s4[j]) == sat_of(s1[j]));
                    assert(is_dot(s5[j]) && 0 <= sat_of(s5[j]) <= sat_of(s4[j]));
                    assert(s6[j] == s5[j]);
                    assert(s7[j] == s6[j]);
                    assert(is_dot(s8[j]) && sat_of(s8[j]) == sat_of(s5[j]));
                    assert(is_dot(s9[j]) && sat_of(s9[j]) == sat_of(s8[j]));
                    assert(is_dot(b[j]) && sat_of(b[j]) == sat_of(s9[j]));
                }
                if s1[j] is Dead {
                    assert(s5[j] == s4[j]);
                    assert(s6[j] == s5[j]);
                    assert(s7[j] == s6[j]);
                }
                if is_player(s1[j]) {
                    assert(is_player(s5[j]) && player_dots(s5[j]) == player_dots(s1[j])
                        && player_energy(s5[j]) >= player_energy(s1[j]));
                    assert(grow_player_ok(s5[j], s6[j]));
                    assert(is_player(s7[j]) && s7[j] == s6[j]);
                }
                if is_dot(b[j]) {
                    assert(is_dot(s9[j]));
                    assert(is_dot(s8[j]));
                    assert(is_dot(s7[j]));
                    assert(is_dot(s6[j]));
                    assert(is_dot(s5[j]));
                    assert(is_dot(s4[j]));
                    assert(is_dot(s1[j]));
                }
            }
            // Dot counts are stable after the extinction pass.
            lemma_count_dots_congruent(s1, b, s1.len() as int);
            assert forall|j: int| s1.len() <= j < b.len() implies !is_dot(#[trigger] b[j]) by {
                if j < s6.len() {
                    assert(is_ring(s6[j]));
                    assert(is_ring(s7[j]));
                    assert(is_ring(s8[j]));
                    assert(same_but_neighbours(s8[j], s9[j]));
                    assert(is_ring(b[j]));
                } else {
                    assert(false);
                }
            }
            lemma_count_dots_range(b, s1.len() as int, b.len() as int, false);
            if act < 10 {
                assert(count_dots(b, b.len() as int) == act + 1000);
            }
        }
    }
}

// --- input mapping ----------------------------------------------------------------------

/// The direction a set of held movement keys asks for, in milli-units:
/// axis-aligned movement has unit length, diagonal movement is scaled down by
/// the usual factor of about 0.7, and opposed or idle keys ask for nothing.
pub open spec fn input_dir_spec(left: bool, right: bool, up: bool, down: bool) -> Vec2 {
    let lr = left != right;
    let ud = up != down;
    if !lr && !ud {
        Vec2 { x: 0, y: 0 }
    } else {
        let mul: i64 = if lr && ud {
            700
        } else {
            1000
        };
        Vec2 {
            x: if !lr {
                0
            } else if left {
                (-mul) as i64
            } else {
                mul
            },
            y: if !ud {
                0
            } else if down {
                (-mul) as i64
            } else {
                mul
            },
        }
    }
}

/// Map held movement keys to a direction impulse.
pub fn input_direction(left: bool, right: bool, up: bool, down: bool) -> (r: Vec2)
    ensures
        r == input_dir_spec(left, right, up, down),
        in_world(r),
{
    let lr: bool = left != right;
    let ud: bool = up != down;
    if !lr && !ud {
        return Vec2 { x: 0, y: 0 };
    }
    let mul: i64 = if lr && ud {
        700
    } else {
        1000
    };
    let x: i64 = if !lr {
        0
    } else if left {
        -mul
    } else {
        mul
    };
    let y: i64 = if !ud {
        0
    } else if down {
        -mul
    } else {
        mul
    };
    Vec2 { x, y }
}

/// Scale a pointer offset to a unit direction in milli-units, or zero when
/// the offset vanishes: each component becomes `v * 1000 / |v|`, rounded
/// toward zero.
pub fn normalize_dir(v: Vec2) -> (r: Vec2)
    requires
        in_world(v),
    ensures
        ({
            let d = sqrt_floor(norm_sq(v.x as int, v.y as int));
            if d == 0 {
                r == (Vec2 { x: 0, y: 0 })
            } else {
                r.x as int == trunc_div(v.x * 1000, d) && r.y as int == trunc_div(v.y * 1000, d)
            }
        }),
        in_world(r),
{
    let d2: u64 = v.len_sq();
    let d: i64 = crate::math::isqrt64(d2) as i64;
    if d == 0 {
        return Vec2 { x: 0, y: 0 };
    }
    proof {
        crate::math::lemma_sqrt_floor(d2 as int);
        assert(v.x as int * 1000 <= 1_000_000_000_000 && v.x as int * 1000 >= -1_000_000_000_000
            && v.y as int * 1000 <= 1_000_000_000_000 && v.y as int * 1000
            >= -1_000_000_000_000) by (nonlinear_arith)
            requires
                -1_000_000_000 <= v.x as int <= 1_000_000_000,
                -1_000_000_000 <= v.y as int <= 1_000_000_000,
        ;
    }
    let x: i64 = crate::math::div_trunc_i64(v.x * 1000, d);
    let y: i64 = crate::math::div_trunc_i64(v.y * 1000, d);
    proof {
        crate::math::lemma_trunc_div_bound(v.x as int * 1000, d as int, 1_000_000_000_000);
        crate::math::lemma_trunc_div_bound(v.y as int * 1000, d as int, 1_000_000_000_000);
        assert(1_000_000_000_000 * d as int >= 1_000_000_000_000) by (nonlinear_arith)
            requires
                d as int >= 1,
        ;
    }
    let xr: i64 = crate::math::clamp_i64(x, -COORD_LIMIT, COORD_LIMIT);
    let yr: i64 = crate::math::clamp_i64(y, -COORD_LIMIT, COORD_LIMIT);
    proof {
        // The quotient already fits: each component is bounded by the norm's
        // root, so the scaled quotient is a few thousand at most.
        crate::math::lemma_sqrt_floor(d2 as int);
        assert(v.x as int * v.x as int <= d2 as int && v.y as int * v.y as int <= d2 as int)
            by (nonlinear_arith)
            requires
                d2 as int == v.x as int * v.x as int + v.y as int * v.y as int,
        ;
        assert(v.x as int * v.x as int <= (d as int + 1) * (d as int + 1));
        assert(v.y as int * v.y as int <= (d as int + 1) * (d as int + 1));
        lemma_normalize_small(v.x as int, d as int);
        lemma_normalize_small(v.y as int, d as int);
    }
    Vec2 { x: xr, y: yr }
}

/// A component over the norm's floored root, scaled by a thousand, stays well
/// inside the world box.
proof fn lemma_normalize_small(c: int, d: int)
    requires
        d >= 1,
        -1_000_000_000 <= c <= 1_000_000_000,
        c * c <= (d + 1) * (d + 1),
    ensures
        -3000 <= trunc_div(c * 1000, d) <= 3000,
{
    assert(c <= d + 1 && -(d + 1) <= c) by (nonlinear_arith)
        requires
            d >= 1,
            c * c <= (d + 1) * (d + 1),
    ;
    assert(c * 1000 <= 3000 * d && -(3000 * d) <= c * 1000) by (nonlinear_arith)
        requires
            c <= d + 1,
            -(d + 1) <= c,
            d >= 1,
    ;
    crate::math::lemma_trunc_div_bound(c * 1000, d, 3000);
}

} // verus!










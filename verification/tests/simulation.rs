use core_of_color::color::Color;
use core_of_color::space::{Element, Neighbour, Neighbours, Partition};
use core_of_color::state::{Entity, PlayerData, Position, Rec, Size, State};
use core_of_color::Vec2;

fn dot_at(x: i64, y: i64, sat: i64) -> Rec {
    Rec::Dot {
        pos: Vec2 { x, y },
        speed: Vec2 { x: 0, y: 0 },
        color: Color { hue: 120_000, sat, light: 50_000 },
        neighbours: Neighbours::new(),
    }
}

#[test]
fn empty_world_reads_nothing() {
    let s = State::default();
    assert!(s.position(Entity { idx: 0 }).is_none());
    assert!(s.size(Entity { idx: 0 }).is_none());
    assert_eq!(s.dots().len(), 0);
}

#[test]
fn spawned_player_starts_at_origin_with_unit_size() {
    let mut s = State::default();
    let p = s.spawn_player();
    let pos = s.position(p).expect("player has a position");
    assert_eq!(pos.vec, Vec2 { x: 0, y: 0 });
    let Size(sz) = s.size(p).expect("player has a size");
    assert_eq!(sz, 1000);
}

#[test]
fn reads_are_idempotent_between_ticks() {
    let mut s = State::default();
    s.batch_spawn_dots(20);
    let p = s.spawn_player();
    let a1 = s.position(p);
    let a2 = s.position(p);
    assert_eq!(a1, a2);
    let b1 = s.size(p);
    let b2 = s.size(p);
    assert_eq!(b1, b2);
}

#[test]
fn player_input_rejects_non_players() {
    let mut s = State::default();
    s.batch_spawn_dots(3);
    // A plain dot is not a player, and an unknown handle resolves to nothing.
    assert!(s.player_input(Entity { idx: 0 }, Vec2 { x: 1000, y: 0 }).is_none());
    assert!(s.player_input(Entity { idx: 99 }, Vec2 { x: 1000, y: 0 }).is_none());
    let p = s.spawn_player();
    assert!(s.player_input(p, Vec2 { x: 1000, y: 0 }).is_some());
}

#[test]
fn batch_spawn_makes_fresh_saturated_dots() {
    let mut s = State::default();
    s.batch_spawn_dots(100);
    let snapshot = s.dots();
    assert_eq!(snapshot.len(), 100);
    for d in snapshot.iter() {
        assert!(d.color.sat >= 70_000 && d.color.sat < 90_000);
        assert!(d.color.light >= 40_000 && d.color.light < 60_000);
        assert!(d.color.hue >= 0 && d.color.hue < 360_000);
        assert!(d.pos.vec.x.abs() < 10_000 && d.pos.vec.y.abs() < 10_000);
    }
}

#[test]
fn neighbour_cache_matches_brute_force() {
    // A grid of dots with known positions; the cache of every entity must
    // hold exactly the entities a brute-force all-pairs scan finds.
    let mut s = State::default();
    for i in 0..10 {
        for j in 0..10 {
            s.recs.push(dot_at(i * 500, j * 500, 80_000));
        }
    }
    let radius: i64 = 1200;
    Neighbours::update(&mut s, radius);
    let positions: Vec<Vec2> = s
        .recs
        .iter()
        .map(|r| match r {
            Rec::Dot { pos, .. } => *pos,
            _ => unreachable!(),
        })
        .collect();
    for (i, r) in s.recs.iter().enumerate() {
        let ns = match r {
            Rec::Dot { neighbours, .. } => neighbours.slice(),
            _ => unreachable!(),
        };
        let q = positions[i];
        let mut brute = 0usize;
        for p in positions.iter() {
            let dx = p.x - q.x;
            let dy = p.y - q.y;
            if dx * dx + dy * dy <= radius * radius {
                brute += 1;
            }
        }
        assert_eq!(ns.len(), brute, "entity {} cache vs brute force", i);
        for n in ns.iter() {
            let d2 = n.diff.x * n.diff.x + n.diff.y * n.diff.y;
            assert!(d2 <= radius * radius, "neighbour beyond the radius");
            // The offset is exact and the stored distance is its floored root.
            assert_eq!(positions[n.entity].x - q.x, n.diff.x);
            assert_eq!(positions[n.entity].y - q.y, n.diff.y);
            assert!(n.dist * n.dist <= d2 && d2 < (n.dist + 1) * (n.dist + 1));
        }
    }
}

#[test]
fn partition_splits_to_capacity_or_coincident_cluster() {
    // Scattered elements: every leaf must be within the capacity threshold.
    let mut els: Vec<Element> = Vec::new();
    let mut x: i64 = 1;
    for i in 0..500usize {
        x = (x * 1103515245 + 12345) % 100_000;
        els.push(Element { entity: i, pos: Vec2 { x, y: (x * 7) % 100_000 } });
    }
    let space = Partition::from_elements(els).partition(32);
    let mut total = 0usize;
    for r in space.rects.iter() {
        assert!(r.elements.len() <= 32);
        total += r.elements.len();
    }
    assert_eq!(total, 500);

    // A coincident pile larger than the capacity stays one leaf and the
    // splitting still terminates.
    let mut pile: Vec<Element> = Vec::new();
    for i in 0..50usize {
        pile.push(Element { entity: i, pos: Vec2 { x: 7, y: 7 } });
    }
    let space2 = Partition::from_elements(pile).partition(32);
    let mut total2 = 0usize;
    for r in space2.rects.iter() {
        let first = r.elements[0].pos;
        assert!(r.elements.len() <= 32 || r.elements.iter().all(|e| e.pos == first));
        total2 += r.elements.len();
    }
    assert_eq!(total2, 50);
}

#[test]
fn consume_drains_exactly_and_pays_energy() {
    // One player whose single ring-dot has one close, saturated neighbour:
    // the ordinary rate drains 10 milli-percent and pays 300 micro-energy.
    let mut s = State::default();
    s.recs.push(Rec::Player {
        pos: Vec2 { x: 0, y: 0 },
        speed: Vec2 { x: 0, y: 0 },
        size: 1000,
        color: Color { hue: 0, sat: 0, light: 100_000 },
        data: PlayerData { dots: vec![1], energy: 1_000_000, rot: 0 },
    });
    s.recs.push(Rec::Ring {
        pos: Vec2 { x: 0, y: 0 },
        color: Color { hue: 0, sat: 100_000, light: 50_000 },
        owner: 0,
        neighbours: Neighbours {
            vec: vec![Neighbour { entity: 2, diff: Vec2 { x: 100, y: 0 }, dist: 100 }],
        },
    });
    s.recs.push(dot_at(100, 0, 50_000));
    core_of_color::state::Player::consume_energy(&mut s);
    match &s.recs[2] {
        Rec::Dot { color, .. } => assert_eq!(color.sat, 49_990),
        _ => panic!("the dot vanished"),
    }
    match &s.recs[0] {
        Rec::Player { data, .. } => assert_eq!(data.energy, 1_000_300),
        _ => panic!("the player vanished"),
    }
}

#[test]
fn blackhole_decays_and_dims_its_whole_ring() {
    // A player far past the terminal threshold: one growth pass must decay
    // its size by a tenth of a unit and drive its own lightness and every
    // ring-dot's lightness to the same headroom-proportional value.
    let mut s = State::default();
    s.recs.push(Rec::Player {
        pos: Vec2 { x: 0, y: 0 },
        speed: Vec2 { x: 0, y: 0 },
        size: 5000,
        color: Color { hue: 0, sat: 0, light: 100_000 },
        data: PlayerData { dots: vec![1], energy: 100_000_000_000, rot: 0 },
    });
    s.recs.push(Rec::Ring {
        pos: Vec2 { x: 100, y: 0 },
        color: Color { hue: 90_000, sat: 100_000, light: 50_000 },
        owner: 0,
        neighbours: Neighbours::new(),
    });
    core_of_color::state::Player::grow(&mut s);
    // size 5000 decays to 4900; lightness becomes (4900 - 1000) * 25 / 2.
    match &s.recs[0] {
        Rec::Player { size, color, data, .. } => {
            assert_eq!(*size, 4900);
            assert_eq!(color.light, 48_750);
            assert_eq!(data.dots.len(), 1);
        }
        _ => panic!("the player vanished"),
    }
    match &s.recs[1] {
        Rec::Ring { color, pos, .. } => {
            assert_eq!(color.light, 48_750);
            assert_eq!(color.hue, 90_000);
            assert_eq!(color.sat, 100_000);
            assert_eq!(*pos, Vec2 { x: 100, y: 0 });
        }
        _ => panic!("the ring-dot vanished"),
    }
}

#[test]
fn leaf_boxes_are_tight() {
    // Every frozen leaf rectangle's sides are attained by member positions.
    let mut els: Vec<Element> = Vec::new();
    let mut x: i64 = 3;
    for i in 0..200usize {
        x = (x * 48271) % 65_537;
        els.push(Element { entity: i, pos: Vec2 { x, y: (x * 3) % 65_537 } });
    }
    let space = Partition::from_elements(els).partition(32);
    for r in space.rects.iter() {
        let min_x = r.elements.iter().map(|e| e.pos.x).min().unwrap();
        let max_x = r.elements.iter().map(|e| e.pos.x).max().unwrap();
        let min_y = r.elements.iter().map(|e| e.pos.y).min().unwrap();
        let max_y = r.elements.iter().map(|e| e.pos.y).max().unwrap();
        assert_eq!(r.min, Vec2 { x: min_x, y: min_y });
        assert_eq!(r.max, Vec2 { x: max_x, y: max_y });
    }
}

#[test]
fn saturation_never_negative_and_never_rises() {
    let mut s = State::default();
    s.batch_spawn_dots(60);
    let _p = s.spawn_player();
    let before: Vec<Option<i64>> = s
        .recs
        .iter()
        .map(|r| match r {
            Rec::Dot { color, .. } => Some(color.sat),
            _ => None,
        })
        .collect();
    for _ in 0..5 {
        s.tick();
    }
    for (i, old_sat) in before.iter().enumerate() {
        if let Some(old_sat) = old_sat {
            match &s.recs[i] {
                Rec::Dot { color, .. } => {
                    assert!(color.sat >= 0);
                    assert!(color.sat <= *old_sat);
                }
                Rec::Dead => {}
                _ => panic!("a dot changed kind"),
            }
        }
    }
}

#[test]
fn ring_count_never_shrinks_and_grows_by_at_most_one() {
    let mut s = State::default();
    s.batch_spawn_dots(300);
    let p = s.spawn_player();
    let mut last = match &s.recs[p.idx] {
        Rec::Player { data, .. } => data.dots.len(),
        _ => unreachable!(),
    };
    assert_eq!(last, 1);
    for _ in 0..30 {
        s.tick();
        let now = match &s.recs[p.idx] {
            Rec::Player { data, .. } => data.dots.len(),
            _ => panic!("the player vanished"),
        };
        assert!(now >= last && now <= last + 1);
        last = now;
    }
}

#[test]
fn collapse_restarts_with_a_fresh_thousand() {
    // Fewer than ten active dots at tick entry: the tick must despawn the
    // spent ones, kill every old ring-dot, reset the player, and respawn
    // exactly a thousand fresh dots.
    let mut s = State::default();
    for i in 0..8 {
        s.recs.push(dot_at(i * 300, 0, 80_000));
    }
    for i in 0..5 {
        s.recs.push(dot_at(i * 300, 900, 50)); // spent: at most the epsilon
    }
    let p = s.spawn_player();
    let old_ring = match &s.recs[p.idx] {
        Rec::Player { data, .. } => data.dots[0],
        _ => unreachable!(),
    };
    s.tick();
    assert!(matches!(s.recs[old_ring], Rec::Dead), "old ring-dot survived the restart");
    let plain: usize = s
        .recs
        .iter()
        .filter(|r| matches!(r, Rec::Dot { .. }))
        .count();
    assert_eq!(plain, 8 + 1000);
    match &s.recs[p.idx] {
        Rec::Player { data, .. } => {
            assert!(!data.dots.is_empty());
            assert_eq!(data.rot, 1000); // reset to zero, then one tick of spin
        }
        _ => panic!("the player vanished"),
    }
}

#[test]
fn short_range_repulsion_is_exact() {
    // Two dots 100 milli-units apart: the close-range branch pushes the speed
    // away from the neighbour by exactly diff * 100 / dist^2 = 1 milli-unit.
    let mut s = State::default();
    s.recs.push(Rec::Dot {
        pos: Vec2 { x: 0, y: 0 },
        speed: Vec2 { x: 0, y: 0 },
        color: Color { hue: 0, sat: 80_000, light: 50_000 },
        neighbours: Neighbours {
            vec: vec![Neighbour { entity: 1, diff: Vec2 { x: 100, y: 0 }, dist: 100 }],
        },
    });
    s.recs.push(dot_at(100, 0, 80_000));
    core_of_color::state::attract(&mut s);
    match &s.recs[0] {
        Rec::Dot { speed, .. } => assert_eq!(*speed, Vec2 { x: -1, y: 0 }),
        _ => unreachable!(),
    }
}

#[test]
fn gravity_only_dot_drifts_inward() {
    // One probe dot at rest, 50 units out. Ten ballast dots sit far beyond
    // the adaptive query radius, only to keep the population above the
    // extinction floor, so nothing ever attracts the probe: gravity alone
    // acts on it.
    let mut s = State::default();
    s.recs.push(dot_at(50_000, 0, 80_000));
    for i in 0..10 {
        s.recs.push(dot_at(2_000_000 + i * 500, 0, 80_000));
    }
    let mut last = 50_000i64;
    for _ in 0..10 {
        s.tick();
        let (x, vx) = match &s.recs[0] {
            Rec::Dot { pos, speed, .. } => (pos.x, speed.x),
            _ => panic!("the dot vanished"),
        };
        assert!(x.abs() <= last.abs(), "the dot drifted outward");
        assert!(vx.abs() <= 1_000_000_000);
        last = x;
    }
    assert!(last < 50_000, "gravity never moved the dot");
}

#[test]
fn long_run_keeps_the_world_sane() {
    // The end-to-end scenario: a thousand dots and one resting player; after
    // a hundred ticks the derived size is within the energy bound and no
    // saturation is negative.
    let mut s = State::default();
    s.batch_spawn_dots(1000);
    let p = s.spawn_player();
    for _ in 0..100 {
        s.player_input(p, Vec2 { x: 0, y: 0 });
        s.tick();
    }
    let Size(sz) = s.size(p).expect("the player persists across restarts");
    assert!(sz >= 1000, "size dropped below its floor outside black-hole mode");
    assert!(sz <= 2_000_000, "size exceeded the energy cap");
    for r in s.recs.iter() {
        match r {
            Rec::Dot { color, .. } | Rec::Ring { color, .. } => {
                assert!(color.sat >= 0 && color.sat <= 100_000);
                assert!(color.light >= 0 && color.light <= 100_000);
            }
            Rec::Player { data, .. } => {
                assert!(data.energy >= 1_000_000);
            }
            Rec::Dead => {}
        }
    }
}

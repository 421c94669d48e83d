use slicevm::game::{Dir, Displacement, Game, Item, PickupFlavor, INV_CAP};

#[test]
fn pickup_gives_full_timers() {
    assert_eq!(PickupFlavor::Hunger.pickup(), Item::Hunger(10));
    assert_eq!(PickupFlavor::Nourishment.pickup(), Item::Nourishment(5));
}

#[test]
fn default_game_is_empty() {
    let g = Game::default();
    assert_eq!(g.pos, [0, 0]);
    assert!(g.world.is_empty());
    assert!(g.items.is_empty());
    assert_eq!(g.counts, [0, 0, 0, 0]);
    assert_eq!(g.max_counts, [0, 0, 0]);
}

#[test]
fn reset_keeps_max_counts() {
    let mut g = Game::default();
    g.pos = [3, -2];
    g.items.push(Item::Damage);
    g.world.push(([1, 1], Displacement::M, PickupFlavor::Hunger));
    g.counts = [1, 2, 3, 4];
    g.max_counts = [5, 6, 7];
    g.reset();
    assert_eq!(g.pos, [0, 0]);
    assert!(g.world.is_empty());
    assert!(g.items.is_empty());
    assert_eq!(g.counts, [0, 0, 0, 0]);
    assert_eq!(g.max_counts, [5, 6, 7]);
}

#[test]
fn collected_pickup_joins_inventory() {
    let mut g = Game::default();
    // Spawn lands exactly where the player moves, so it is collected at once
    // and ticks from 10 down to 9 in the same step.
    g.update_with(Dir::Right, [1, 0], Displacement::M, PickupFlavor::Hunger);
    assert_eq!(g.pos, [1, 0]);
    assert!(g.world.is_empty());
    assert_eq!(g.items, vec![Item::Hunger(9)]);
    assert_eq!(g.counts, [1, 0, 0, 0]);
    assert_eq!(g.max_counts, [1, 0, 0]);
}

#[test]
fn uncollected_pickup_stays_on_board() {
    let mut g = Game::default();
    g.update_with(Dir::Up, [5, 5], Displacement::TL, PickupFlavor::Nourishment);
    assert_eq!(g.pos, [0, -1]);
    assert_eq!(g.world, vec![([5, 5], Displacement::TL, PickupFlavor::Nourishment)]);
    assert!(g.items.is_empty());
    assert_eq!(g.counts, [0, 1, 0, 0]);
    assert_eq!(g.max_counts, [0, 1, 0]);
}

#[test]
fn hunger_and_nourishment_react_to_health() {
    let mut g = Game::default();
    g.items.push(Item::Nourishment(5));
    g.update_with(Dir::Right, [1, 0], Displacement::M, PickupFlavor::Hunger);
    // The collected hunger cancels the held nourishment into health, which
    // then ticks from 20 down to 19.
    assert_eq!(g.items, vec![Item::Health(19)]);
    assert_eq!(g.counts, [0, 0, 1, 0]);
    assert_eq!(g.max_counts, [0, 0, 1]);
}

#[test]
fn expired_hunger_emits_damage_which_consumes_health() {
    let mut g = Game::default();
    g.items.push(Item::Hunger(0));
    g.items.push(Item::Health(5));
    g.update_with(Dir::Down, [3, 3], Displacement::BR, PickupFlavor::Hunger);
    // The expired hunger emits damage; the damage consumes the held health
    // and turns into a fresh hunger item.
    assert_eq!(g.pos, [0, 1]);
    assert_eq!(g.items, vec![Item::Hunger(10)]);
    assert_eq!(g.world, vec![([3, 3], Displacement::BR, PickupFlavor::Hunger)]);
    assert_eq!(g.counts, [2, 0, 0, 0]);
    assert_eq!(g.max_counts, [2, 0, 0]);
}

#[test]
fn expired_nourishment_vanishes() {
    let mut g = Game::default();
    g.items.push(Item::Nourishment(0));
    g.update_with(Dir::Down, [3, 3], Displacement::M, PickupFlavor::Nourishment);
    assert!(g.items.is_empty());
    assert_eq!(g.counts, [0, 1, 0, 0]);
}

#[test]
fn full_inventory_discards_pickups() {
    let mut g = Game::default();
    for _ in 0..INV_CAP {
        g.items.push(Item::Damage);
    }
    // Damage does not react with a nourishment pickup, and the inventory is
    // full, so the collected pickup is discarded.
    g.update_with(Dir::Up, [0, -1], Displacement::M, PickupFlavor::Nourishment);
    assert_eq!(g.items.len(), INV_CAP);
    assert!(g.items.iter().all(|it| *it == Item::Damage));
    assert_eq!(g.counts, [0, 0, 0, INV_CAP as i32]);
}

#[test]
fn position_wraps_at_board_edges() {
    let mut g = Game::default();
    g.pos = [7, -7];
    g.update_with(Dir::Right, [5, 5], Displacement::M, PickupFlavor::Hunger);
    assert_eq!(g.pos, [-7, -7]);
    let mut g2 = Game::default();
    g2.pos = [0, -7];
    g2.update_with(Dir::Up, [5, 5], Displacement::M, PickupFlavor::Hunger);
    assert_eq!(g2.pos, [0, 7]);
}

#[test]
fn update_spawns_one_pickup_on_the_board() {
    let mut g = Game::default();
    g.update(Dir::Up);
    // The movement is deterministic; the spawn is random but lands on the
    // board, either still on it or already collected.
    assert_eq!(g.pos, [0, -1]);
    assert_eq!(g.world.len() + g.items.len(), 1);
    for (p, _, _) in &g.world {
        assert!(-7 <= p[0] && p[0] <= 7);
        assert!(-7 <= p[1] && p[1] <= 7);
    }
}

#[test]
fn long_runs_keep_the_invariants() {
    let mut g = Game::default();
    let dirs = [Dir::Up, Dir::Right, Dir::Down, Dir::Right, Dir::Left];
    for i in 0..200 {
        g.update(dirs[i % dirs.len()]);
        assert!(-7 <= g.pos[0] && g.pos[0] <= 7);
        assert!(-7 <= g.pos[1] && g.pos[1] <= 7);
        assert!(g.items.len() <= INV_CAP);
        let total = (g.world.len() + g.items.len()) as i32;
        assert_eq!(g.counts.iter().sum::<i32>(), total);
        for k in 0..3 {
            assert!(g.max_counts[k] >= g.counts[k]);
        }
    }
}

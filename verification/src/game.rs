//! A small grid-game simulation: pickups spawn on a wrapping board, the
//! player collects them, and held items react with and decay into one
//! another.

use vstd::prelude::*;

verus! {

/// Ticks a fresh hunger item lives before it decays into damage.
pub const HUNGER_TIMER: u8 = 10;

/// Ticks a fresh nourishment item lives before it expires.
pub const NOURISH_TIMER: u8 = 5;

/// Ticks a fresh health item lives before it decays into nourishment.
pub const HEALTH_TIMER: u8 = 20;

/// The most items the inventory can hold; pickups beyond it are discarded.
pub const INV_CAP: usize = 4 * 15;

/// How many [`PickupFlavor`] variants exist.
const NUM_FLAVORS: u8 = 2;

/// The two flavors a pickup on the board can have.
#[derive(Clone, Copy, Debug, PartialEq, Eq, Structural)]
pub enum PickupFlavor {
    Hunger,
    Nourishment,
}

/// An item held in the inventory, with its remaining timer where it has one.
#[derive(Clone, Copy, Debug, PartialEq, Eq, Structural)]
pub enum Item {
    Hunger(u8),
    Nourishment(u8),
    Health(u8),
    Damage,
}

/// Where on its board cell a pickup is drawn; pure presentation data.
#[derive(Clone, Copy, Debug, PartialEq, Eq, Structural)]
pub enum Displacement {
    TL,
    TR,
    M,
    BL,
    BR,
}

/// The pickups on the board: position, cell displacement, and flavor.
pub type World = Vec<([i8; 2], Displacement, PickupFlavor)>;

/// A movement input, one step along an axis.
#[derive(Clone, Copy, Debug, PartialEq, Eq, Structural)]
pub enum Dir {
    Up,
    Down,
    Left,
    Right,
}

/// The item a pickup of flavor `f` turns into when collected.
pub open spec fn spec_pickup(f: PickupFlavor) -> Item {
    match f {
        PickupFlavor::Hunger => Item::Hunger(HUNGER_TIMER),
        PickupFlavor::Nourishment => Item::Nourishment(NOURISH_TIMER),
    }
}

impl PickupFlavor {
    /// Collect a pickup of this flavor: it becomes an item with a full timer.
    pub fn pickup(self) -> (r: Item)
        ensures
            r == spec_pickup(self),
    {
        match self {
            PickupFlavor::Hunger => Item::Hunger(HUNGER_TIMER),
            PickupFlavor::Nourishment => Item::Nourishment(NOURISH_TIMER),
        }
    }
}

/// The unit displacement a movement input stands for.
pub open spec fn spec_to_vec(d: Dir) -> Seq<i8> {
    match d {
        Dir::Up => seq![0i8, -1i8],
        Dir::Down => seq![0i8, 1i8],
        Dir::Left => seq![-1i8, 0i8],
        Dir::Right => seq![1i8, 0i8],
    }
}

impl Dir {
    /// The unit displacement this input stands for.
    fn to_vec(self) -> (r: [i8; 2])
        ensures
            r@ == spec_to_vec(self),
    {
        let r: [i8; 2] = match self {
            Dir::Up => [0, -1],
            Dir::Down => [0, 1],
            Dir::Left => [-1, 0],
            Dir::Right => [1, 0],
        };
        proof {
            assert(r@ =~= spec_to_vec(self));
        }
        r
    }
}

/// Wrap a coordinate onto the board's range of `-7` to `7`.
pub open spec fn spec_wrap_coord(x: int) -> int {
    (x + 7 + 15) % 15 - 7
}

/// Wrap both coordinates of a position onto the board.
pub open spec fn spec_wrap_pos(p: Seq<i8>) -> Seq<i8> {
    seq![spec_wrap_coord(p[0] as int) as i8, spec_wrap_coord(p[1] as int) as i8]
}

/// Wrap a coordinate onto the board's range of `-7` to `7`.
fn wrap_coord(x: i8) -> (r: i8)
    requires
        -22 <= x <= 105,
    ensures
        r as int == spec_wrap_coord(x as int),
        -7 <= r <= 7,
{
    (x + 7 + 15) % 15 - 7
}

/// Wrap both coordinates of a position onto the board.
fn wrap_pos(p: [i8; 2]) -> (r: [i8; 2])
    requires
        -22 <= p[0] <= 105,
        -22 <= p[1] <= 105,
    ensures
        r@ == spec_wrap_pos(p@),
        -7 <= r[0] <= 7,
        -7 <= r[1] <= 7,
{
    let r: [i8; 2] = [wrap_coord(p[0]), wrap_coord(p[1])];
    proof {
        assert(r@ =~= spec_wrap_pos(p@));
    }
    r
}

#[verifier::external_type_specification]
#[verifier::external_body]
pub struct ExThreadRng(rand::rngs::ThreadRng);

/// Relies on rand::thread_rng: a handle to the calling thread's lazily
/// initialized generator. The handle carries no observable state of its own.
#[verifier::external_body]
fn fresh_rng() -> rand::rngs::ThreadRng {
    rand::thread_rng()
}

/// Relies on rand::Rng::gen_range: a value in `[low, high)`, inclusive of
/// `low` and exclusive of `high`; it panics if `low >= high`.
#[verifier::external_body]
fn gen_range_i8(rng: &mut rand::rngs::ThreadRng, low: i8, high: i8) -> (r: i8)
    requires
        low < high,
    ensures
        low <= r < high,
{
    rand::Rng::gen_range(rng, low, high)
}

/// Relies on rand::Rng::gen_range: a value in `[low, high)`, inclusive of
/// `low` and exclusive of `high`; it panics if `low >= high`.
#[verifier::external_body]
fn gen_range_u8(rng: &mut rand::rngs::ThreadRng, low: u8, high: u8) -> (r: u8)
    requires
        low < high,
    ensures
        low <= r < high,
{
    rand::Rng::gen_range(rng, low, high)
}

/// What an inventory item and a pickup produce when they react: opposed
/// pairs cancel into a new pickup, anything else does not react.
pub open spec fn match_kind(item: Item, pickup: Item) -> Option<Item> {
    match (item, pickup) {
        (Item::Nourishment(_), Item::Hunger(_)) | (Item::Hunger(_), Item::Nourishment(_)) => Some(
            Item::Health(HEALTH_TIMER),
        ),
        (Item::Health(_), Item::Damage) | (Item::Damage, Item::Health(_)) => Some(
            Item::Hunger(HUNGER_TIMER),
        ),
        _ => None,
    }
}

/// The highest inventory index whose item reacts with `pickup`, if any: the
/// inventory is searched newest first.
pub open spec fn last_match(items: Seq<Item>, pickup: Item) -> Option<int>
    decreases items.len(),
{
    if items.len() == 0 {
        None
    } else if match_kind(items.last(), pickup) is Some {
        Some(items.len() - 1)
    } else {
        last_match(items.drop_last(), pickup)
    }
}

/// A [`last_match`] result is a valid index of a reacting item, and a `None`
/// means no item reacts.
proof fn lemma_last_match_props(items: Seq<Item>, pickup: Item)
    ensures
        match last_match(items, pickup) {
            Some(i) => 0 <= i < items.len() && match_kind(items[i], pickup) is Some,
            None => forall|j: int|
                0 <= j < items.len() ==> match_kind(#[trigger] items[j], pickup) is None,
        },
    decreases items.len(),
{
    if items.len() > 0 && match_kind(items.last(), pickup) is None {
        lemma_last_match_props(items.drop_last(), pickup);
        match last_match(items.drop_last(), pickup) {
            Some(i) => {
                assert(items.drop_last()[i] == items[i]);
            },
            None => {
                assert forall|j: int| 0 <= j < items.len() implies match_kind(
                    #[trigger] items[j],
                    pickup,
                ) is None by {
                    if j < items.len() - 1 {
                        assert(items.drop_last()[j] == items[j]);
                    } else {
                        assert(items[j] == items.last());
                    }
                }
            },
        }
    }
}

/// Work a pickup stack into the inventory, newest pickup first: a pickup
/// reacts with the newest matching item, removing it and stacking the
/// product as a further pickup; a pickup with no match joins the inventory
/// if there is room and is discarded otherwise.
pub open spec fn spec_react(items: Seq<Item>, pickups: Seq<Item>) -> Seq<Item>
    decreases items.len() + pickups.len(), pickups.len(),
        via spec_react_decreases
{
    if pickups.len() == 0 {
        items
    } else {
        let p = pickups.last();
        let rest = pickups.drop_last();
        match last_match(items, p) {
            Some(i) => spec_react(items.remove(i), rest.push(match_kind(items[i], p)->Some_0)),
            None => if items.len() < INV_CAP {
                spec_react(items.push(p), rest)
            } else {
                spec_react(items, rest)
            },
        }
    }
}

#[via_fn]
proof fn spec_react_decreases(items: Seq<Item>, pickups: Seq<Item>) {
    if pickups.len() > 0 {
        lemma_last_match_props(items, pickups.last());
    }
}

/// One tick of a single item: the surviving item, if any, and the pickup its
/// expiry emits, if any.
pub open spec fn spec_decay_item(item: Item) -> (Option<Item>, Option<Item>) {
    match item {
        Item::Hunger(n) => if n > 0 {
            (Some(Item::Hunger((n - 1) as u8)), None)
        } else {
            (None, Some(Item::Damage))
        },
        Item::Nourishment(n) => if n > 0 {
            (Some(Item::Nourishment((n - 1) as u8)), None)
        } else {
            (None, None)
        },
        Item::Health(n) => if n > 0 {
            (Some(Item::Health((n - 1) as u8)), None)
        } else {
            (None, Some(Item::Nourishment(NOURISH_TIMER)))
        },
        Item::Damage => (Some(Item::Damage), None),
    }
}

/// The inventory after one decay tick, in order: each item's timer counts
/// down, and an item whose timer already ran out leaves the inventory.
pub open spec fn spec_decay_items(items: Seq<Item>) -> Seq<Item>
    decreases items.len(),
{
    if items.len() == 0 {
        Seq::empty()
    } else {
        let rest = spec_decay_items(items.drop_last());
        match spec_decay_item(items.last()).0 {
            Some(it) => rest.push(it),
            None => rest,
        }
    }
}

/// The pickups one decay tick emits, in inventory order: expired hunger
/// turns to damage, expired health to nourishment.
pub open spec fn spec_decay_emitted(items: Seq<Item>) -> Seq<Item>
    decreases items.len(),
{
    if items.len() == 0 {
        Seq::empty()
    } else {
        let rest = spec_decay_emitted(items.drop_last());
        match spec_decay_item(items.last()).1 {
            Some(p) => rest.push(p),
            None => rest,
        }
    }
}

/// The board entries that do not lie at `pos`, in board order.
pub open spec fn spec_world_without(
    world: Seq<([i8; 2], Displacement, PickupFlavor)>,
    pos: Seq<i8>,
) -> Seq<([i8; 2], Displacement, PickupFlavor)>
    decreases world.len(),
{
    if world.len() == 0 {
        Seq::empty()
    } else {
        let rest = spec_world_without(world.drop_last(), pos);
        if world.last().0@ == pos {
            rest
        } else {
            rest.push(world.last())
        }
    }
}

/// The items collected from the board entries lying at `pos`, in board
/// order.
pub open spec fn spec_picked_at(
    world: Seq<([i8; 2], Displacement, PickupFlavor)>,
    pos: Seq<i8>,
) -> Seq<Item>
    decreases world.len(),
{
    if world.len() == 0 {
        Seq::empty()
    } else {
        let rest = spec_picked_at(world.drop_last(), pos);
        if world.last().0@ == pos {
            rest.push(spec_pickup(world.last().2))
        } else {
            rest
        }
    }
}

/// The counting slot an inventory item falls in.
pub open spec fn item_slot(item: Item) -> int {
    match item {
        Item::Hunger(_) => 0,
        Item::Nourishment(_) => 1,
        Item::Health(_) => 2,
        Item::Damage => 3,
    }
}

/// The counting slot a board pickup falls in.
pub open spec fn flavor_slot(f: PickupFlavor) -> int {
    match f {
        PickupFlavor::Hunger => 0,
        PickupFlavor::Nourishment => 1,
    }
}

/// How many board entries fall in counting slot `slot`.
pub open spec fn spec_world_count(
    world: Seq<([i8; 2], Displacement, PickupFlavor)>,
    slot: int,
) -> int
    decreases world.len(),
{
    if world.len() == 0 {
        0
    } else {
        spec_world_count(world.drop_last(), slot) + if flavor_slot(world.last().2) == slot {
            1int
        } else {
            0int
        }
    }
}

/// How many inventory items fall in counting slot `slot`.
pub open spec fn spec_items_count(items: Seq<Item>, slot: int) -> int
    decreases items.len(),
{
    if items.len() == 0 {
        0
    } else {
        spec_items_count(items.drop_last(), slot) + if item_slot(items.last()) == slot {
            1int
        } else {
            0int
        }
    }
}

/// All four counts over a board and an inventory together.
pub open spec fn spec_counts(
    world: Seq<([i8; 2], Displacement, PickupFlavor)>,
    items: Seq<Item>,
) -> Seq<i32> {
    Seq::new(4, |k: int| (spec_world_count(world, k) + spec_items_count(items, k)) as i32)
}

/// The running maxima, raised wherever the new counts pass them.
pub open spec fn spec_max_counts(old_max: Seq<i32>, counts: Seq<i32>) -> Seq<i32> {
    Seq::new(
        3,
        |k: int|
            if old_max[k] < counts[k] {
                counts[k]
            } else {
                old_max[k]
            },
    )
}

/// The player's position after one movement input, wrapped onto the board.
pub open spec fn spec_move(pos: Seq<i8>, input: Dir) -> Seq<i8> {
    spec_wrap_pos(
        seq![
            (pos[0] + spec_to_vec(input)[0]) as i8,
            (pos[1] + spec_to_vec(input)[1]) as i8,
        ],
    )
}

/// The whole game state: player position, the pickups on the board, the
/// inventory, and running category counts.
pub struct Game {
    pub pos: [i8; 2],
    pub rng: rand::rngs::ThreadRng,
    pub world: World,
    pub items: Vec<Item>,
    pub counts: [i32; 4],
    pub max_counts: [i32; 3],
}

/// The mathematical state of a [`Game`]: every field the simulation rules
/// read or write, with the random generator handle left out.
#[verifier::ext_equal]
pub ghost struct GameState {
    pub pos: Seq<i8>,
    pub world: Seq<([i8; 2], Displacement, PickupFlavor)>,
    pub items: Seq<Item>,
    pub counts: Seq<i32>,
    pub max_counts: Seq<i32>,
}

impl View for Game {
    type V = GameState;

    open spec fn view(&self) -> GameState {
        GameState {
            pos: self.pos@,
            world: self.world@,
            items: self.items@,
            counts: self.counts@,
            max_counts: self.max_counts@,
        }
    }
}

impl Game {
    /// The simulation's invariant: the player stands on the board and the
    /// inventory respects its capacity.
    pub open spec fn wf(self) -> bool {
        &&& -7 <= self.pos[0] <= 7
        &&& -7 <= self.pos[1] <= 7
        &&& self.items@.len() <= INV_CAP
    }

    /// Start over with a fresh board, keeping only the best counts seen so
    /// far.
    pub fn reset(&mut self)
        ensures
            final(self)@.pos == seq![0i8, 0i8],
            final(self)@.world == Seq::<([i8; 2], Displacement, PickupFlavor)>::empty(),
            final(self)@.items == Seq::<Item>::empty(),
            final(self)@.counts == seq![0i32, 0i32, 0i32, 0i32],
            final(self)@.max_counts == old(self)@.max_counts,
            final(self).wf(),
    {
        self.pos = [0, 0];
        self.world = Vec::new();
        self.items = Vec::new();
        self.counts = [0, 0, 0, 0];
        proof {
            assert(self.pos@ =~= seq![0i8, 0i8]);
            assert(self.counts@ =~= seq![0i32, 0i32, 0i32, 0i32]);
        }
    }
}

/// One full simulation step from state `pre`: move by `input`, spawn the
/// given pickup, collect every pickup under the player, let the collected
/// pickups react with the inventory, tick the inventory's timers, let what
/// expiry emitted react in turn, and recount everything.
pub open spec fn spec_update(
    pre: GameState,
    input: Dir,
    spawn: ([i8; 2], Displacement, PickupFlavor),
) -> GameState {
    let pos2 = spec_move(pre.pos, input);
    let world1 = pre.world.push(spawn);
    let world2 = spec_world_without(world1, pos2);
    let items1 = spec_react(pre.items, spec_picked_at(world1, pos2));
    let items2 = spec_react(spec_decay_items(items1), spec_decay_emitted(items1));
    let counts = spec_counts(world2, items2);
    GameState {
        pos: pos2,
        world: world2,
        items: items2,
        counts: counts,
        max_counts: spec_max_counts(pre.max_counts, counts),
    }
}

/// Removing the entries at one position never lengthens the board.
proof fn lemma_world_without_len(
    world: Seq<([i8; 2], Displacement, PickupFlavor)>,
    pos: Seq<i8>,
)
    ensures
        spec_world_without(world, pos).len() <= world.len(),
    decreases world.len(),
{
    if world.len() > 0 {
        lemma_world_without_len(world.drop_last(), pos);
    }
}

/// What `item` and `pickup` produce when they react, if they do.
fn react_product(item: Item, pickup: Item) -> (r: Option<Item>)
    ensures
        r == match_kind(item, pickup),
{
    match (item, pickup) {
        (Item::Nourishment(_), Item::Hunger(_)) | (Item::Hunger(_), Item::Nourishment(_)) => Some(
            Item::Health(HEALTH_TIMER),
        ),
        (Item::Health(_), Item::Damage) | (Item::Damage, Item::Health(_)) => Some(
            Item::Hunger(HUNGER_TIMER),
        ),
        _ => None,
    }
}

/// One tick of a single item: what survives and what its expiry emits.
fn decay_item(item: Item) -> (r: (Option<Item>, Option<Item>))
    ensures
        r == spec_decay_item(item),
{
    match item {
        Item::Hunger(n) => if n > 0 {
            (Some(Item::Hunger(n - 1)), None)
        } else {
            (None, Some(Item::Damage))
        },
        Item::Nourishment(n) => if n > 0 {
            (Some(Item::Nourishment(n - 1)), None)
        } else {
            (None, None)
        },
        Item::Health(n) => if n > 0 {
            (Some(Item::Health(n - 1)), None)
        } else {
            (None, Some(Item::Nourishment(NOURISH_TIMER)))
        },
        Item::Damage => (Some(Item::Damage), None),
    }
}

/// Work the pickup stack into the game's inventory as [`spec_react`] says.
#[verifier::loop_isolation(false)]
fn react_pickups(game: &mut Game, pickups: Vec<Item>)
    requires
        old(game).items@.len() <= INV_CAP,
    ensures
        final(game).items@ == spec_react(old(game).items@, pickups@),
        final(game).items@.len() <= INV_CAP,
        final(game).pos == old(game).pos,
        final(game).world == old(game).world,
        final(game).counts == old(game).counts,
        final(game).max_counts == old(game).max_counts,
        final(game).rng == old(game).rng,
{
    let mut pickups = pickups;
    let ghost pickups0 = pickups@;
    while pickups.len() > 0
        invariant
            game.items@.len() <= INV_CAP,
            spec_react(game.items@, pickups@) == spec_react(old(game).items@, pickups0),
            game.pos == old(game).pos,
            game.world == old(game).world,
            game.counts == old(game).counts,
            game.max_counts == old(game).max_counts,
            game.rng == old(game).rng,
        decreases game.items@.len() + pickups@.len(), pickups@.len(),
    {
        let ghost items_b = game.items@;
        let ghost pickups_b = pickups@;
        let p = pickups.pop().unwrap();
        let mut found = false;
        let mut idx: usize = 0;
        let mut i = game.items.len();
        proof {
            assert(items_b.take(i as int) =~= items_b);
        }
        while !found && i > 0
            invariant
                i <= items_b.len(),
                game.items@ == items_b,
                !found ==> last_match(items_b, p) == last_match(items_b.take(i as int), p),
                found ==> last_match(items_b, p) == Some(idx as int) && idx < items_b.len()
                    && match_kind(items_b[idx as int], p) is Some,
            decreases i,
        {
            i = i - 1;
            let it = game.items[i];
            if react_product(it, p).is_some() {
                found = true;
                idx = i;
                proof {
                    assert(items_b.take(i + 1int).last() == items_b[i as int]);
                }
            } else {
                proof {
                    assert(items_b.take(i + 1int).last() == items_b[i as int]);
                    assert(items_b.take(i + 1int).drop_last() =~= items_b.take(i as int));
                }
            }
        }
        if found {
            let prod = react_product(game.items[idx], p);
            game.items.remove(idx);
            pickups.push(prod.unwrap());
            proof {
                assert(pickups@ =~= pickups_b.drop_last().push(
                    match_kind(items_b[idx as int], p)->Some_0,
                ));
            }
        } else {
            proof {
                assert(items_b.take(0) =~= Seq::<Item>::empty());
                assert(last_match(items_b, p) is None);
            }
            if game.items.len() < INV_CAP {
                game.items.push(p);
            }
        }
    }
    proof {
        assert(pickups@ =~= Seq::<Item>::empty());
    }
}

impl Game {
    /// One deterministic simulation step, with the spawned pickup given by
    /// the caller: move by `input`, spawn, collect every pickup under the
    /// player, let the collected pickups react with the inventory, tick the
    /// inventory's timers, let what expiry emitted react in turn, and
    /// recount everything.
    #[verifier::loop_isolation(false)]
    pub fn update_with(
        &mut self,
        input: Dir,
        spawn_pos: [i8; 2],
        disp: Displacement,
        flav: PickupFlavor,
    )
        requires
            old(self).wf(),
            old(self).world@.len() + (INV_CAP as int) + 1 <= i32::MAX,
        ensures
            final(self)@ == spec_update(old(self)@, input, (spawn_pos, disp, flav)),
            final(self).wf(),
            final(self).world@.len() <= old(self).world@.len() + 1,
    {
        let ghost pre = self@;
        // move
        let dv = input.to_vec();
        proof {
            assert(-1 <= dv@[0] <= 1 && -1 <= dv@[1] <= 1);
        }
        let moved: [i8; 2] = [self.pos[0] + dv[0], self.pos[1] + dv[1]];
        proof {
            assert(moved@ =~= seq![
                (pre.pos[0] + spec_to_vec(input)[0]) as i8,
                (pre.pos[1] + spec_to_vec(input)[1]) as i8,
            ]);
        }
        let npos = wrap_pos(moved);
        self.pos = npos;
        let ghost pos2 = spec_move(pre.pos, input);
        proof {
            assert(self.pos@ == pos2);
        }
        // spawn
        self.world.push((spawn_pos, disp, flav));
        let ghost world1 = pre.world.push((spawn_pos, disp, flav));
        // collect everything under the player
        let mut new_world: World = Vec::new();
        let mut collected: Vec<Item> = Vec::new();
        proof {
            assert(world1.take(0) =~= Seq::<([i8; 2], Displacement, PickupFlavor)>::empty());
        }
        let mut j: usize = 0;
        while j < self.world.len()
            invariant
                j <= world1.len(),
                self.world@ == world1,
                self.pos@ == pos2,
                new_world@ == spec_world_without(world1.take(j as int), pos2),
                collected@ == spec_picked_at(world1.take(j as int), pos2),
            decreases world1.len() - j,
        {
            let e = self.world[j];
            let at_player = e.0[0] == self.pos[0] && e.0[1] == self.pos[1];
            proof {
                assert(world1.take(j + 1int).last() == world1[j as int]);
                assert(world1.take(j + 1int).drop_last() =~= world1.take(j as int));
                assert(at_player <==> (e.0@ == pos2)) by {
                    if e.0@ =~= pos2 {
                    }
                }
            }
            if at_player {
                collected.push(e.2.pickup());
            } else {
                new_world.push(e);
            }
            j = j + 1;
        }
        self.world = new_world;
        proof {
            assert(world1.take(world1.len() as int) =~= world1);
            lemma_world_without_len(world1, pos2);
        }
        // first reaction: the collected pickups meet the inventory
        react_pickups(self, collected);
        // decay tick
        let ghost items1 = self.items@;
        let mut new_items: Vec<Item> = Vec::new();
        let mut emitted: Vec<Item> = Vec::new();
        proof {
            assert(items1.take(0) =~= Seq::<Item>::empty());
        }
        let mut j2: usize = 0;
        while j2 < self.items.len()
            invariant
                j2 <= items1.len(),
                self.items@ == items1,
                new_items@ == spec_decay_items(items1.take(j2 as int)),
                emitted@ == spec_decay_emitted(items1.take(j2 as int)),
                new_items@.len() <= j2,
                emitted@.len() <= j2,
            decreases items1.len() - j2,
        {
            let stepped = decay_item(self.items[j2]);
            proof {
                assert(items1.take(j2 + 1int).last() == items1[j2 as int]);
                assert(items1.take(j2 + 1int).drop_last() =~= items1.take(j2 as int));
            }
            if let Some(kept) = stepped.0 {
                new_items.push(kept);
            }
            if let Some(out) = stepped.1 {
                emitted.push(out);
            }
            j2 = j2 + 1;
        }
        self.items = new_items;
        proof {
            assert(items1.take(items1.len() as int) =~= items1);
        }
        // second reaction: what expiry emitted meets the decayed inventory
        react_pickups(self, emitted);
        // recount world and inventory
        let ghost world2 = self.world@;
        let ghost items2 = self.items@;
        let mut c0: i32 = 0;
        let mut c1: i32 = 0;
        let mut c2: i32 = 0;
        let mut c3: i32 = 0;
        proof {
            assert(world2.take(0) =~= Seq::<([i8; 2], Displacement, PickupFlavor)>::empty());
            assert(world2.len() <= pre.world.len() + 1);
        }
        let mut j3: usize = 0;
        while j3 < self.world.len()
            invariant
                j3 <= world2.len(),
                self.world@ == world2,
                c0 as int == spec_world_count(world2.take(j3 as int), 0),
                c1 as int == spec_world_count(world2.take(j3 as int), 1),
                c2 as int == spec_world_count(world2.take(j3 as int), 2),
                c3 as int == spec_world_count(world2.take(j3 as int), 3),
                c0 as int + c1 as int == j3 as int,
                c0 >= 0 && c1 >= 0,
                c2 == 0 && c3 == 0,
            decreases world2.len() - j3,
        {
            let e = self.world[j3];
            proof {
                assert(world2.take(j3 + 1int).last() == world2[j3 as int]);
                assert(world2.take(j3 + 1int).drop_last() =~= world2.take(j3 as int));
            }
            match e.2 {
                PickupFlavor::Hunger => {
                    c0 = c0 + 1;
                },
                PickupFlavor::Nourishment => {
                    c1 = c1 + 1;
                },
            }
            j3 = j3 + 1;
        }
        proof {
            assert(world2.take(world2.len() as int) =~= world2);
            assert(items2.take(0) =~= Seq::<Item>::empty());
        }
        let mut j4: usize = 0;
        while j4 < self.items.len()
            invariant
                j4 <= items2.len(),
                self.items@ == items2,
                c0 as int == spec_world_count(world2, 0) + spec_items_count(
                    items2.take(j4 as int),
                    0,
                ),
                c1 as int == spec_world_count(world2, 1) + spec_items_count(
                    items2.take(j4 as int),
                    1,
                ),
                c2 as int == spec_world_count(world2, 2) + spec_items_count(
                    items2.take(j4 as int),
                    2,
                ),
                c3 as int == spec_world_count(world2, 3) + spec_items_count(
                    items2.take(j4 as int),
                    3,
                ),
                c0 as int + c1 as int + c2 as int + c3 as int == world2.len() + j4 as int,
                c0 >= 0 && c1 >= 0 && c2 >= 0 && c3 >= 0,
            decreases items2.len() - j4,
        {
            let it = self.items[j4];
            proof {
                assert(items2.take(j4 + 1int).last() == items2[j4 as int]);
                assert(items2.take(j4 + 1int).drop_last() =~= items2.take(j4 as int));
            }
            match it {
                Item::Hunger(_) => {
                    c0 = c0 + 1;
                },
                Item::Nourishment(_) => {
                    c1 = c1 + 1;
                },
                Item::Health(_) => {
                    c2 = c2 + 1;
                },
                Item::Damage => {
                    c3 = c3 + 1;
                },
            }
            j4 = j4 + 1;
        }
        proof {
            assert(items2.take(items2.len() as int) =~= items2);
        }
        self.counts = [c0, c1, c2, c3];
        proof {
            assert(self.counts@ =~= spec_counts(world2, items2));
        }
        let m0 = if self.max_counts[0] < self.counts[0] {
            self.counts[0]
        } else {
            self.max_counts[0]
        };
        let m1 = if self.max_counts[1] < self.counts[1] {
            self.counts[1]
        } else {
            self.max_counts[1]
        };
        let m2 = if self.max_counts[2] < self.counts[2] {
            self.counts[2]
        } else {
            self.max_counts[2]
        };
        self.max_counts = [m0, m1, m2];
        proof {
            assert(self.max_counts@ =~= spec_max_counts(pre.max_counts, spec_counts(
                world2,
                items2,
            )));
            assert(self@ =~= spec_update(pre, input, (spawn_pos, disp, flav)));
        }
    }

    /// One simulation step: move by `input` and spawn one pickup with a
    /// random position, cell displacement and flavor, then run the
    /// deterministic step. Whatever the generator returned, the new state is
    /// [`spec_update`] of the old for some spawned pickup on the board.
    pub fn update(&mut self, input: Dir)
        requires
            old(self).wf(),
            old(self).world@.len() + (INV_CAP as int) + 1 <= i32::MAX,
        ensures
            final(self).wf(),
            final(self).world@.len() <= old(self).world@.len() + 1,
            exists|spawn: ([i8; 2], Displacement, PickupFlavor)|
                #![trigger spec_update(old(self)@, input, spawn)]
                -7 <= spawn.0[0] <= 7 && -7 <= spawn.0[1] <= 7 && final(self)@ == spec_update(
                    old(self)@,
                    input,
                    spawn,
                ),
    {
        let sx = gen_range_i8(&mut self.rng, -7, 8);
        let sy = gen_range_i8(&mut self.rng, -7, 8);
        let f = gen_range_u8(&mut self.rng, 0, NUM_FLAVORS);
        let flav = if f == 0 {
            PickupFlavor::Hunger
        } else {
            PickupFlavor::Nourishment
        };
        let d = gen_range_u8(&mut self.rng, 0, 5);
        let disp = match d {
            0 => Displacement::TL,
            1 => Displacement::TR,
            2 => Displacement::M,
            3 => Displacement::BL,
            _ => Displacement::BR,
        };
        let spawn_pos: [i8; 2] = [sx, sy];
        self.update_with(input, spawn_pos, disp, flav);
        proof {
            let spawn = (spawn_pos, disp, flav);
            assert(-7 <= spawn.0[0] <= 7 && -7 <= spawn.0[1] <= 7 && self@ == spec_update(
                old(self)@,
                input,
                spawn,
            ));
            assert(exists|spawn: ([i8; 2], Displacement, PickupFlavor)|
                #![trigger spec_update(old(self)@, input, spawn)]
                -7 <= spawn.0[0] <= 7 && -7 <= spawn.0[1] <= 7 && self@ == spec_update(
                    old(self)@,
                    input,
                    spawn,
                ));
        }
    }
}

impl Default for Game {
    /// A fresh game: everything zero or empty.
    fn default() -> (g: Game)
        ensures
            g@.pos == seq![0i8, 0i8],
            g@.world == Seq::<([i8; 2], Displacement, PickupFlavor)>::empty(),
            g@.items == Seq::<Item>::empty(),
            g@.counts == seq![0i32, 0i32, 0i32, 0i32],
            g@.max_counts == seq![0i32, 0i32, 0i32],
            g.wf(),
    {
        let g = Game {
            pos: [0, 0],
            rng: fresh_rng(),
            world: Vec::new(),
            items: Vec::new(),
            counts: [0, 0, 0, 0],
            max_counts: [0, 0, 0],
        };
        proof {
            assert(g.pos@ =~= seq![0i8, 0i8]);
            assert(g.counts@ =~= seq![0i32, 0i32, 0i32, 0i32]);
            assert(g.max_counts@ =~= seq![0i32, 0i32, 0i32]);
        }
        g
    }
}

} // verus!

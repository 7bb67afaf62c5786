use vstd::prelude::*;
use crate::geometry::{
    abs, clamp, clamp_i64, div_toward_zero, div_toward_zero_i64, is_unit, lemma_unit_components,
    negate, normalize_or, normalized_or, Vec2, UNIT,
};
use crate::random::random_range;
use vstd::arithmetic::div_mod::{lemma_fundamental_div_mod, lemma_mod_pos_bound};
use crate::timer::{RepeatingTimer, MAX_FRAME_MS, MAX_PERIOD_MS};

verus! {

/// Number of ants in a new colony.
pub const NUM_ANTS: usize = 20;
/// Ant speed, in arena units per second.
pub const ANT_SPEED: i64 = 100;
/// Largest wander offset added to each direction component (0.2 of a unit).
pub const SEARCH_FACTOR: i64 = 200;
/// Period of the steering timer, in milliseconds.
pub const SEARCH_INTERVAL_MS: u64 = 10;
/// Period between two trail markers of one ant, in milliseconds.
pub const TRAIL_INTERVAL_MS: u64 = 100;
/// Time for a trail marker to fade from full intensity, in milliseconds.
pub const TRAIL_LIFESPAN_MS: u64 = 15000;
/// Intensity of a fresh trail marker.
pub const FULL_INTENSITY: i64 = 1_000_000;
/// Per-axis distance within which a searching ant heads for food.
pub const FOOD_DISTANCE: i64 = 150_000;
/// Per-axis distance within which an ant eats food.
pub const EAT_DISTANCE: i64 = 1000;
/// Per-axis distance within which a returning ant is home.
pub const HOME_TOLERANCE: i64 = 4000;
/// Home point, x coordinate.
pub const HOME_X: i64 = 0;
/// Home point, y coordinate.
pub const HOME_Y: i64 = 0;
/// Largest half extent of the arena.
pub const MAX_HALF_EXTENT: i64 = 0x4000_0000;
/// Largest coordinate magnitude of a food source.
pub const MAX_FOOD_COORD: i64 = 0x4000_0000;

/// What an ant is doing.
#[derive(Clone, Copy, Debug, PartialEq, Eq, Structural)]
pub enum AntState {
    Searching,
    Returning,
}

/// A foraging agent.
#[derive(Clone, Copy, Debug, PartialEq, Eq, Structural)]
pub struct Ant {
    pub position: Vec2,
    /// Heading, a unit vector.
    pub direction: Vec2,
    pub state: AntState,
    /// Gates steering updates.
    pub search_timer: RepeatingTimer,
    /// Gates trail emission.
    pub trail_timer: RepeatingTimer,
}

/// A trail marker left behind by an ant.
#[derive(Clone, Copy, Debug, PartialEq, Eq, Structural)]
pub struct HomeTrail {
    pub position: Vec2,
    /// Remaining intensity, `FULL_INTENSITY` when fresh.
    pub intensity: i64,
    /// State of the ant that left it.
    pub origin: AntState,
}

/// A food source.
#[derive(Clone, Copy, Debug, PartialEq, Eq, Structural)]
pub struct Food {
    pub position: Vec2,
}

/// The arena and its tunable lifetimes.
#[derive(Clone, Copy, Debug, PartialEq, Eq, Structural)]
pub struct World {
    pub half_width: i64,
    pub half_height: i64,
    pub trail_lifespan_ms: u64,
}

impl World {
    pub open spec fn wf(self) -> bool {
        0 < self.half_width <= MAX_HALF_EXTENT && 0 < self.half_height <= MAX_HALF_EXTENT
            && 0 < self.trail_lifespan_ms <= MAX_PERIOD_MS
    }

    pub open spec fn contains(self, p: Vec2) -> bool {
        -self.half_width <= p.x <= self.half_width && -self.half_height <= p.y <= self.half_height
    }

    /// An arena of the given half extents, with the default trail lifespan.
    pub fn new(half_width: i64, half_height: i64) -> (r: World)
        requires
            0 < half_width <= MAX_HALF_EXTENT,
            0 < half_height <= MAX_HALF_EXTENT,
        ensures
            r.wf(),
            r.half_width == half_width,
            r.half_height == half_height,
            r.trail_lifespan_ms == TRAIL_LIFESPAN_MS,
    {
        World { half_width, half_height, trail_lifespan_ms: TRAIL_LIFESPAN_MS }
    }
}

impl Ant {
    /// Unit heading, position inside the arena, and running timers.
    pub open spec fn wf(self, world: World) -> bool {
        is_unit(self.direction) && world.contains(self.position) && self.search_timer.wf()
            && self.trail_timer.wf()
    }
}

impl Food {
    pub open spec fn wf(self) -> bool {
        abs(self.position.x as int) <= MAX_FOOD_COORD && abs(self.position.y as int) <= MAX_FOOD_COORD
    }
}

impl HomeTrail {
    /// A live marker has intensity in `(0, FULL_INTENSITY]`.
    pub open spec fn wf(self) -> bool {
        0 < self.intensity <= FULL_INTENSITY
    }
}

/// The home point.
pub open spec fn home() -> Vec2 {
    Vec2 { x: HOME_X, y: HOME_Y }
}

/// `a` and `b` are closer than `eps` along each axis.
pub open spec fn near(a: Vec2, b: Vec2, eps: int) -> bool {
    abs(a.x - b.x) < eps && abs(a.y - b.y) < eps
}

pub fn is_near(a: Vec2, b: Vec2, eps: i64) -> (r: bool)
    requires
        abs(a.x as int) <= MAX_FOOD_COORD,
        abs(a.y as int) <= MAX_FOOD_COORD,
        abs(b.x as int) <= MAX_FOOD_COORD,
        abs(b.y as int) <= MAX_FOOD_COORD,
    ensures
        r == near(a, b, eps as int),
{
    let dx: i64 = a.x - b.x;
    let dy: i64 = a.y - b.y;
    let ax: i64 = if dx < 0 { -dx } else { dx };
    let ay: i64 = if dy < 0 { -dy } else { dy };
    ax < eps && ay < eps
}

// ---------------------------------------------------------------- trails

/// Intensity lost by every marker over a frame of `dt_ms`: the fraction
/// `dt_ms / lifespan_ms` of full intensity, rounded up.
pub open spec fn decay_amount(dt_ms: int, lifespan_ms: int) -> int {
    (dt_ms * FULL_INTENSITY + lifespan_ms - 1) / lifespan_ms
}

pub open spec fn decayed(t: HomeTrail, amount: int) -> HomeTrail {
    HomeTrail { intensity: (t.intensity - amount) as i64, ..t }
}

/// The first `n` markers of `trails`, each faded by `amount`, without those
/// that faded to zero or below.
pub open spec fn surviving(trails: Seq<HomeTrail>, amount: int, n: int) -> Seq<HomeTrail>
    decreases n,
{
    if n <= 0 {
        Seq::empty()
    } else {
        let rest = surviving(trails, amount, n - 1);
        let t = decayed(trails[n - 1], amount);
        if t.intensity > 0 { rest.push(t) } else { rest }
    }
}

pub open spec fn all_trails_wf(trails: Seq<HomeTrail>) -> bool {
    forall|i: int| 0 <= i < trails.len() ==> #[trigger] trails[i].wf()
}

proof fn lemma_surviving_wf(trails: Seq<HomeTrail>, amount: int, n: int)
    requires
        all_trails_wf(trails),
        0 <= amount <= 0x40_0000_0000_0000,
        0 <= n <= trails.len(),
    ensures
        all_trails_wf(surviving(trails, amount, n)),
        surviving(trails, amount, n).len() <= n,
    decreases n,
{
    if n > 0 {
        lemma_surviving_wf(trails, amount, n - 1);
        assert(trails[n - 1].wf());
        let rest = surviving(trails, amount, n - 1);
        let t = decayed(trails[n - 1], amount);
        if t.intensity > 0 {
            assert(forall|i: int| 0 <= i < rest.len() ==> rest.push(t)[i] == rest[i]);
            assert(rest.push(t)[rest.len() as int] == t);
        }
    }
}

/// Fades every marker by `dt_ms / lifespan` of full intensity and removes
/// the markers that faded to zero or below.
pub fn update_trails(trails: &mut Vec<HomeTrail>, world: World, dt_ms: u64)
    requires
        world.wf(),
        dt_ms <= MAX_FRAME_MS,
        all_trails_wf(old(trails)@),
    ensures
        final(trails)@ == surviving(
            old(trails)@,
            decay_amount(dt_ms as int, world.trail_lifespan_ms as int),
            old(trails)@.len() as int,
        ),
        all_trails_wf(final(trails)@),
{
    proof {
        let l = world.trail_lifespan_ms as int;
        assert(dt_ms * FULL_INTENSITY <= 0x1_0000_0000 * FULL_INTENSITY) by (nonlinear_arith)
            requires dt_ms <= 0x1_0000_0000;
        assert((dt_ms * FULL_INTENSITY + l - 1) / l <= dt_ms * FULL_INTENSITY + l - 1) by (nonlinear_arith)
            requires l >= 1, dt_ms * FULL_INTENSITY + l - 1 >= 0;
    }
    let amount: i64 = ((dt_ms * (FULL_INTENSITY as u64) + world.trail_lifespan_ms - 1)
        / world.trail_lifespan_ms) as i64;
    let ghost amt = decay_amount(dt_ms as int, world.trail_lifespan_ms as int);
    let mut kept: Vec<HomeTrail> = Vec::new();
    let mut i: usize = 0;
    while i < trails.len()
        invariant
            0 <= i <= trails@.len(),
            amount == amt,
            0 <= amt <= 0x40_0000_0000_0000,
            all_trails_wf(trails@),
            kept@ == surviving(trails@, amt, i as int),
        decreases trails@.len() - i,
    {
        let t = trails[i];
        assert(t.wf());
        let faded = HomeTrail { intensity: t.intensity - amount, ..t };
        if faded.intensity > 0 {
            kept.push(faded);
        }
        i = i + 1;
    }
    proof {
        lemma_surviving_wf(trails@, amt, trails@.len() as int);
    }
    *trails = kept;
}

// ------------------------------------------------------------------ food

pub open spec fn all_food_wf(foods: Seq<Food>) -> bool {
    forall|i: int| 0 <= i < foods.len() ==> #[trigger] foods[i].wf()
}

pub open spec fn all_ants_wf(ants: Seq<Ant>, world: World) -> bool {
    forall|i: int| 0 <= i < ants.len() ==> #[trigger] ants[i].wf(world)
}

/// Index of the first of the first `n` foods that is not yet `taken` and
/// lies within eating distance of `pos`, or -1.
pub open spec fn first_free_near(pos: Vec2, foods: Seq<Food>, taken: Seq<bool>, n: int) -> int
    decreases n,
{
    if n <= 0 {
        -1
    } else {
        let f = first_free_near(pos, foods, taken, n - 1);
        if f >= 0 {
            f
        } else if !taken[n - 1] && near(foods[n - 1].position, pos, EAT_DISTANCE as int) {
            n - 1
        } else {
            -1
        }
    }
}

/// Which foods the first `n` ants have claimed, each ant in turn taking the
/// first free food within eating distance.
pub open spec fn claimed_after(ants: Seq<Ant>, foods: Seq<Food>, n: int) -> Seq<bool>
    decreases n,
{
    if n <= 0 {
        Seq::new(foods.len(), |k: int| false)
    } else {
        let t = claimed_after(ants, foods, n - 1);
        let k = first_free_near(ants[n - 1].position, foods, t, foods.len() as int);
        if k >= 0 { t.update(k, true) } else { t }
    }
}

/// The food that ant `i` eats this frame, or -1.
pub open spec fn claim_of(ants: Seq<Ant>, foods: Seq<Food>, i: int) -> int {
    first_free_near(ants[i].position, foods, claimed_after(ants, foods, i), foods.len() as int)
}

/// An ant that has just eaten: it turns to carry the food home.
pub open spec fn fed(ant: Ant) -> Ant {
    Ant { state: AntState::Returning, ..ant }
}

/// The foods among the first `n` whose flag in `taken` is unset.
pub open spec fn uneaten(foods: Seq<Food>, taken: Seq<bool>, n: int) -> Seq<Food>
    decreases n,
{
    if n <= 0 {
        Seq::empty()
    } else {
        let rest = uneaten(foods, taken, n - 1);
        if taken[n - 1] { rest } else { rest.push(foods[n - 1]) }
    }
}

proof fn lemma_first_free_near_bounds(pos: Vec2, foods: Seq<Food>, taken: Seq<bool>, n: int)
    requires
        0 <= n <= foods.len(),
        taken.len() == foods.len(),
    ensures
        -1 <= first_free_near(pos, foods, taken, n) < n,
        first_free_near(pos, foods, taken, n) >= 0 ==> !taken[first_free_near(pos, foods, taken, n)],
    decreases n,
{
    if n > 0 {
        lemma_first_free_near_bounds(pos, foods, taken, n - 1);
    }
}

proof fn lemma_claimed_len(ants: Seq<Ant>, foods: Seq<Food>, n: int)
    requires
        0 <= n <= ants.len(),
    ensures
        claimed_after(ants, foods, n).len() == foods.len(),
    decreases n,
{
    if n > 0 {
        lemma_claimed_len(ants, foods, n - 1);
        lemma_first_free_near_bounds(
            ants[n - 1].position,
            foods,
            claimed_after(ants, foods, n - 1),
            foods.len() as int,
        );
    }
}

proof fn lemma_uneaten_wf(foods: Seq<Food>, taken: Seq<bool>, n: int)
    requires
        all_food_wf(foods),
        0 <= n <= foods.len(),
        taken.len() == foods.len(),
    ensures
        all_food_wf(uneaten(foods, taken, n)),
    decreases n,
{
    if n > 0 {
        lemma_uneaten_wf(foods, taken, n - 1);
        let rest = uneaten(foods, taken, n - 1);
        assert(forall|i: int| 0 <= i < rest.len() ==> rest.push(foods[n - 1])[i] == rest[i]);
        assert(foods[n - 1].wf());
    }
}

/// Lets each ant in turn eat the first food within eating distance that no
/// earlier ant has eaten this frame; returns which foods were eaten.
pub fn claim_food(ants: &mut Vec<Ant>, foods: &Vec<Food>, world: World) -> (taken: Vec<bool>)
    requires
        all_ants_wf(old(ants)@, world),
        all_food_wf(foods@),
        world.wf(),
    ensures
        taken@ == claimed_after(old(ants)@, foods@, old(ants)@.len() as int),
        final(ants)@.len() == old(ants)@.len(),
        forall|i: int| 0 <= i < old(ants)@.len() ==> #[trigger] final(ants)@[i] == (
            if claim_of(old(ants)@, foods@, i) >= 0 { fed(old(ants)@[i]) } else { old(ants)@[i] }),
        all_ants_wf(final(ants)@, world),
{
    let ghost ants0 = ants@;
    let mut taken: Vec<bool> = Vec::new();
    let mut k: usize = 0;
    while k < foods.len()
        invariant
            k <= foods@.len(),
            taken@ == Seq::new(k as nat, |j: int| false),
        decreases foods@.len() - k,
    {
        taken.push(false);
        k = k + 1;
    }
    assert(taken@ =~= claimed_after(ants0, foods@, 0));
    let mut i: usize = 0;
    while i < ants.len()
        invariant
            0 <= i <= ants@.len(),
            ants@.len() == ants0.len(),
            all_ants_wf(ants0, world),
            all_ants_wf(ants@, world),
            all_food_wf(foods@),
            world.wf(),
            taken@ == claimed_after(ants0, foods@, i as int),
            forall|j: int| 0 <= j < i ==> #[trigger] ants@[j] == (
                if claim_of(ants0, foods@, j) >= 0 { fed(ants0[j]) } else { ants0[j] }),
            forall|j: int| i <= j < ants@.len() ==> #[trigger] ants@[j] == ants0[j],
        decreases ants@.len() - i,
    {
        let ghost t0 = taken@;
        proof {
            lemma_claimed_len(ants0, foods@, i as int);
        }
        let mut ant = ants[i];
        assert(ant.wf(world));
        let mut j: usize = 0;
        let mut found: bool = false;
        while j < foods.len() && !found
            invariant
                0 <= j <= foods@.len(),
                taken@ == t0,
                t0.len() == foods@.len(),
                i < ants0.len(),
                ant == ants0[i as int],
                ant.wf(world),
                world.wf(),
                all_food_wf(foods@),
                !found ==> first_free_near(ant.position, foods@, t0, j as int) == -1,
                found ==> j >= 1 && first_free_near(ant.position, foods@, t0, j as int) == j - 1,
            decreases foods@.len() - j + (if found { 0int } else { 1int }),
        {
            assert(foods@[j as int].wf());
            if !taken[j] && is_near(foods[j].position, ant.position, EAT_DISTANCE) {
                found = true;
            }
            j = j + 1;
        }
        proof {
            let n = foods@.len() as int;
            if found {
                let f = j - 1;
                assert forall|m: int| j <= m <= n implies first_free_near(ant.position, foods@, t0, m) == f by {
                    lemma_first_free_near_stable(ant.position, foods@, t0, j as int, m);
                }
            }
        }
        if found {
            taken.set(j - 1, true);
            ant.state = AntState::Returning;
        }
        ants.set(i, ant);
        i = i + 1;
    }
    taken
}

proof fn lemma_first_free_near_stable(pos: Vec2, foods: Seq<Food>, taken: Seq<bool>, j: int, m: int)
    requires
        0 <= j <= m,
        first_free_near(pos, foods, taken, j) >= 0,
    ensures
        first_free_near(pos, foods, taken, m) == first_free_near(pos, foods, taken, j),
    decreases m - j,
{
    if m > j {
        lemma_first_free_near_stable(pos, foods, taken, j, m - 1);
    }
}

/// Removes the foods whose flag in `taken` is set, keeping the order of
/// the others.
pub fn remove_eaten(foods: &mut Vec<Food>, taken: &Vec<bool>)
    requires
        taken@.len() == old(foods)@.len(),
        all_food_wf(old(foods)@),
    ensures
        final(foods)@ == uneaten(old(foods)@, taken@, old(foods)@.len() as int),
        all_food_wf(final(foods)@),
{
    let mut kept: Vec<Food> = Vec::new();
    let mut i: usize = 0;
    while i < foods.len()
        invariant
            0 <= i <= foods@.len(),
            taken@.len() == foods@.len(),
            kept@ == uneaten(foods@, taken@, i as int),
        decreases foods@.len() - i,
    {
        if !taken[i] {
            kept.push(foods[i]);
        }
        i = i + 1;
    }
    proof {
        lemma_uneaten_wf(foods@, taken@, foods@.len() as int);
    }
    *foods = kept;
}

proof fn lemma_claims_persist(ants: Seq<Ant>, foods: Seq<Food>, m: int, n: int, k: int)
    requires
        0 <= m <= n <= ants.len(),
        0 <= k < foods.len(),
        claimed_after(ants, foods, m)[k],
    ensures
        claimed_after(ants, foods, n)[k],
    decreases n - m,
{
    if n > m {
        lemma_claims_persist(ants, foods, m, n - 1, k);
        lemma_claimed_len(ants, foods, n - 1);
        lemma_first_free_near_bounds(
            ants[n - 1].position,
            foods,
            claimed_after(ants, foods, n - 1),
            foods.len() as int,
        );
    }
}

/// Food is eaten at most once: two different ants never eat the same food in
/// one frame, and the food an ant eats is marked eaten once all ants have
/// had their turn, so that it is removed exactly once.
pub proof fn lemma_food_eaten_at_most_once(ants: Seq<Ant>, foods: Seq<Food>, i: int, j: int)
    requires
        0 <= i < j < ants.len(),
        claim_of(ants, foods, i) >= 0,
    ensures
        claim_of(ants, foods, j) != claim_of(ants, foods, i),
        claimed_after(ants, foods, ants.len() as int)[claim_of(ants, foods, i)],
{
    let k = claim_of(ants, foods, i);
    lemma_claimed_len(ants, foods, i);
    lemma_claimed_len(ants, foods, j);
    lemma_first_free_near_bounds(
        ants[i].position,
        foods,
        claimed_after(ants, foods, i),
        foods.len() as int,
    );
    assert(claimed_after(ants, foods, i + 1)[k]);
    lemma_claims_persist(ants, foods, i + 1, j, k);
    lemma_claims_persist(ants, foods, i + 1, ants.len() as int, k);
    lemma_first_free_near_bounds(
        ants[j].position,
        foods,
        claimed_after(ants, foods, j),
        foods.len() as int,
    );
}

// ---------------------------------------------------------- trail laying

/// The marker that `ant` leaves where it stands.
pub open spec fn trail_of(ant: Ant) -> HomeTrail {
    HomeTrail { position: ant.position, intensity: FULL_INTENSITY, origin: ant.state }
}

/// `ant` after its trail timer advanced by `dt_ms`.
pub open spec fn trail_ticked(ant: Ant, dt_ms: int) -> Ant {
    Ant { trail_timer: ant.trail_timer.ticked(dt_ms), ..ant }
}

/// The markers that the first `n` ants leave over a frame of `dt_ms`: one
/// for each ant whose trail timer ends a period.
pub open spec fn emitted(ants: Seq<Ant>, dt_ms: int, n: int) -> Seq<HomeTrail>
    decreases n,
{
    if n <= 0 {
        Seq::empty()
    } else {
        let rest = emitted(ants, dt_ms, n - 1);
        if ants[n - 1].trail_timer.ticked(dt_ms).finished {
            rest.push(trail_of(ants[n - 1]))
        } else {
            rest
        }
    }
}

/// Advances every ant's trail timer and appends a fresh marker at each ant
/// whose timer ended a period, after the existing markers.
pub fn emit_trails(ants: &mut Vec<Ant>, trails: &mut Vec<HomeTrail>, world: World, dt_ms: u64)
    requires
        all_ants_wf(old(ants)@, world),
        all_trails_wf(old(trails)@),
        dt_ms <= MAX_FRAME_MS,
    ensures
        final(ants)@.len() == old(ants)@.len(),
        forall|i: int| 0 <= i < old(ants)@.len() ==> #[trigger] final(ants)@[i] == trail_ticked(
            old(ants)@[i], dt_ms as int),
        final(trails)@ == old(trails)@ + emitted(old(ants)@, dt_ms as int, old(ants)@.len() as int),
        all_ants_wf(final(ants)@, world),
        all_trails_wf(final(trails)@),
{
    let ghost ants0 = ants@;
    let ghost trails0 = trails@;
    let mut i: usize = 0;
    while i < ants.len()
        invariant
            0 <= i <= ants@.len(),
            ants@.len() == ants0.len(),
            dt_ms <= MAX_FRAME_MS,
            all_ants_wf(ants0, world),
            all_ants_wf(ants@, world),
            forall|j: int| 0 <= j < i ==> #[trigger] ants@[j] == trail_ticked(ants0[j], dt_ms as int),
            forall|j: int| i <= j < ants@.len() ==> #[trigger] ants@[j] == ants0[j],
            trails@ == trails0 + emitted(ants0, dt_ms as int, i as int),
            all_trails_wf(trails@),
        decreases ants@.len() - i,
    {
        let mut ant = ants[i];
        assert(ant.wf(world));
        ant.trail_timer.tick(dt_ms);
        if ant.trail_timer.finished {
            trails.push(HomeTrail { position: ant.position, intensity: FULL_INTENSITY, origin: ant.state });
        }
        ants.set(i, ant);
        i = i + 1;
    }
}

// ------------------------------------------------------------ locomotion

/// Distance covered along one axis in `dt_ms` with direction component `d`.
pub open spec fn travel(d: int, dt_ms: int) -> int {
    div_toward_zero(d * ANT_SPEED * dt_ms, 1000)
}

/// `ant` after moving for `dt_ms` and being stopped at the arena's edge. On
/// an axis where it ends exactly on the edge, its direction component is
/// scaled by the factor `bounce / UNIT` and the heading renormalized (turned
/// around where the scaled heading vanishes).
pub open spec fn moved(ant: Ant, world: World, dt_ms: int, bounce_x: int, bounce_y: int) -> Ant {
    let x = clamp(ant.position.x + travel(ant.direction.x as int, dt_ms), -world.half_width as int, world.half_width as int);
    let y = clamp(ant.position.y + travel(ant.direction.y as int, dt_ms), -world.half_height as int, world.half_height as int);
    let hit_x = abs(x) == world.half_width;
    let hit_y = abs(y) == world.half_height;
    let v = Vec2 {
        x: if hit_x { div_toward_zero(ant.direction.x * bounce_x, UNIT as int) as i64 } else { ant.direction.x },
        y: if hit_y { div_toward_zero(ant.direction.y * bounce_y, UNIT as int) as i64 } else { ant.direction.y },
    };
    Ant {
        position: Vec2 { x: x as i64, y: y as i64 },
        direction: if hit_x || hit_y { normalized_or(v, negate(ant.direction)) } else { ant.direction },
        ..ant
    }
}

proof fn lemma_travel_bound(d: int, dt_ms: int)
    requires
        -UNIT <= d <= UNIT,
        0 <= dt_ms <= MAX_FRAME_MS,
    ensures
        -0x4_0000_0000_0000 <= d * ANT_SPEED * dt_ms <= 0x4_0000_0000_0000,
{
    assert(-0x4_0000_0000_0000 <= d * ANT_SPEED * dt_ms <= 0x4_0000_0000_0000) by (nonlinear_arith)
        requires -UNIT <= d <= UNIT, 0 <= dt_ms <= MAX_FRAME_MS;
}

/// Moves `ant` for `dt_ms`, keeps it inside the arena, and at an edge scales
/// the direction component across it by `bounce / UNIT` before renormalizing.
pub fn move_ant(ant: &mut Ant, world: World, dt_ms: u64, bounce_x: i64, bounce_y: i64)
    requires
        old(ant).wf(world),
        world.wf(),
        dt_ms <= MAX_FRAME_MS,
        -UNIT <= bounce_x <= UNIT,
        -UNIT <= bounce_y <= UNIT,
    ensures
        *final(ant) == moved(*old(ant), world, dt_ms as int, bounce_x as int, bounce_y as int),
        final(ant).wf(world),
{
    let d = ant.direction;
    proof {
        lemma_unit_components(d);
        lemma_travel_bound(d.x as int, dt_ms as int);
        lemma_travel_bound(d.y as int, dt_ms as int);
        assert(-UNIT * UNIT <= d.x * bounce_x <= UNIT * UNIT) by (nonlinear_arith)
            requires -UNIT <= d.x <= UNIT, -UNIT <= bounce_x <= UNIT;
        assert(-UNIT * UNIT <= d.y * bounce_y <= UNIT * UNIT) by (nonlinear_arith)
            requires -UNIT <= d.y <= UNIT, -UNIT <= bounce_y <= UNIT;
    }
    let dx: i64 = div_toward_zero_i64(d.x * ANT_SPEED * (dt_ms as i64), 1000);
    let dy: i64 = div_toward_zero_i64(d.y * ANT_SPEED * (dt_ms as i64), 1000);
    let x: i64 = clamp_i64(ant.position.x + dx, world.half_width);
    let y: i64 = clamp_i64(ant.position.y + dy, world.half_height);
    let hit_x: bool = x == world.half_width || x == -world.half_width;
    let hit_y: bool = y == world.half_height || y == -world.half_height;
    ant.position = Vec2 { x, y };
    if hit_x || hit_y {
        let vx: i64 = if hit_x { div_toward_zero_i64(d.x * bounce_x, UNIT) } else { d.x };
        let vy: i64 = if hit_y { div_toward_zero_i64(d.y * bounce_y, UNIT) } else { d.y };
        proof {
            assert(abs(vx as int) <= UNIT * UNIT && abs(vy as int) <= UNIT * UNIT);
        }
        ant.direction = normalize_or(Vec2 { x: vx, y: vy }, Vec2 { x: -d.x, y: -d.y });
    }
}

// -------------------------------------------------------------- steering

/// Vector from `from` to `to`.
pub open spec fn offset(from: Vec2, to: Vec2) -> Vec2 {
    Vec2 { x: (to.x - from.x) as i64, y: (to.y - from.y) as i64 }
}

/// A returning ant within `HOME_TOLERANCE` of home turns around and starts
/// searching again; a returning ant elsewhere heads for home. A searching
/// ant is left as it is.
pub open spec fn homecoming(ant: Ant) -> Ant {
    if ant.state == AntState::Returning {
        if near(home(), ant.position, HOME_TOLERANCE as int) {
            Ant { state: AntState::Searching, direction: negate(ant.direction), ..ant }
        } else {
            Ant { direction: normalized_or(offset(ant.position, home()), ant.direction), ..ant }
        }
    } else {
        ant
    }
}

/// Index of the last of the first `n` foods within `FOOD_DISTANCE` of
/// `pos` along each axis, or -1.
pub open spec fn last_food_within(pos: Vec2, foods: Seq<Food>, n: int) -> int
    decreases n,
{
    if n <= 0 {
        -1
    } else if near(foods[n - 1].position, pos, FOOD_DISTANCE as int) {
        n - 1
    } else {
        last_food_within(pos, foods, n - 1)
    }
}

/// Heading before wander: toward the last food in sight for a searching
/// ant that sees one, else the current direction.
pub open spec fn food_heading(ant: Ant, foods: Seq<Food>) -> Vec2 {
    let k = last_food_within(ant.position, foods, foods.len() as int);
    if ant.state == AntState::Searching && k >= 0 {
        normalized_or(offset(ant.position, foods[k].position), ant.direction)
    } else {
        ant.direction
    }
}

/// `ant` after one steering update over `dt_ms`: the homecoming rule, then,
/// when the search timer ends a period, the food heading with the wander
/// offsets `(jitter_x, jitter_y)` added, renormalized, and the timer reset.
pub open spec fn steered(ant: Ant, foods: Seq<Food>, dt_ms: int, jitter_x: int, jitter_y: int) -> Ant {
    let a = homecoming(ant);
    let t = a.search_timer.ticked(dt_ms);
    if !t.finished {
        Ant { search_timer: t, ..a }
    } else {
        let base = food_heading(a, foods);
        let wander = Vec2 { x: (base.x + jitter_x) as i64, y: (base.y + jitter_y) as i64 };
        Ant {
            direction: normalized_or(wander, base),
            search_timer: RepeatingTimer { elapsed_ms: 0, finished: false, ..t },
            ..a
        }
    }
}

proof fn lemma_last_food_within_bounds(pos: Vec2, foods: Seq<Food>, n: int)
    requires
        0 <= n <= foods.len(),
    ensures
        -1 <= last_food_within(pos, foods, n) < n,
    decreases n,
{
    if n > 0 {
        lemma_last_food_within_bounds(pos, foods, n - 1);
    }
}

/// Applies the homecoming rule to `ant`.
pub fn come_home(ant: &mut Ant, world: World)
    requires
        old(ant).wf(world),
        world.wf(),
    ensures
        *final(ant) == homecoming(*old(ant)),
        final(ant).wf(world),
{
    proof {
        lemma_unit_components(ant.direction);
    }
    if ant.state == AntState::Returning {
        let home = Vec2 { x: HOME_X, y: HOME_Y };
        if is_near(home, ant.position, HOME_TOLERANCE) {
            ant.state = AntState::Searching;
            ant.direction = Vec2 { x: -ant.direction.x, y: -ant.direction.y };
        } else {
            let to_home = Vec2 { x: HOME_X - ant.position.x, y: HOME_Y - ant.position.y };
            ant.direction = normalize_or(to_home, ant.direction);
        }
    }
}

/// One steering update of `ant` over `dt_ms`, with the wander offsets
/// `(jitter_x, jitter_y)`, each within `SEARCH_FACTOR`.
pub fn steer_ant(ant: &mut Ant, foods: &Vec<Food>, world: World, dt_ms: u64, jitter_x: i64, jitter_y: i64)
    requires
        old(ant).wf(world),
        world.wf(),
        all_food_wf(foods@),
        dt_ms <= MAX_FRAME_MS,
        -SEARCH_FACTOR <= jitter_x <= SEARCH_FACTOR,
        -SEARCH_FACTOR <= jitter_y <= SEARCH_FACTOR,
    ensures
        *final(ant) == steered(*old(ant), foods@, dt_ms as int, jitter_x as int, jitter_y as int),
        final(ant).wf(world),
{
    come_home(ant, world);
    ant.search_timer.tick(dt_ms);
    if ant.search_timer.finished {
        let mut last: usize = 0;
        let mut seen: bool = false;
        let mut j: usize = 0;
        while j < foods.len()
            invariant
                0 <= j <= foods@.len(),
                ant.wf(world),
                world.wf(),
                all_food_wf(foods@),
                seen == (last_food_within(ant.position, foods@, j as int) >= 0),
                seen ==> last as int == last_food_within(ant.position, foods@, j as int),
            decreases foods@.len() - j,
        {
            assert(foods@[j as int].wf());
            if is_near(foods[j].position, ant.position, FOOD_DISTANCE) {
                last = j;
                seen = true;
            }
            j = j + 1;
        }
        proof {
            lemma_last_food_within_bounds(ant.position, foods@, foods@.len() as int);
            lemma_unit_components(ant.direction);
        }
        let mut base = ant.direction;
        if ant.state == AntState::Searching && seen {
            let f = foods[last].position;
            assert(foods@[last as int].wf());
            let to_food = Vec2 { x: f.x - ant.position.x, y: f.y - ant.position.y };
            base = normalize_or(to_food, ant.direction);
        }
        proof {
            lemma_unit_components(base);
        }
        let wander = Vec2 { x: base.x + jitter_x, y: base.y + jitter_y };
        ant.direction = normalize_or(wander, base);
        ant.search_timer.reset();
    }
}

// ---------------------------------------------------------------- frames

/// `after` is `before` moved for `dt_ms` with some pair of bounce factors
/// in `[-UNIT, UNIT]`.
pub open spec fn moved_by_some_bounce(before: Ant, after: Ant, world: World, dt_ms: int) -> bool {
    exists|bx: int, by: int|
        -UNIT <= bx <= UNIT && -UNIT <= by <= UNIT && after == #[trigger] moved(before, world, dt_ms, bx, by)
}

/// `after` is `before` steered over `dt_ms` with some wander offsets within
/// `SEARCH_FACTOR`.
pub open spec fn steered_by_some_jitter(before: Ant, after: Ant, foods: Seq<Food>, dt_ms: int) -> bool {
    exists|jx: int, jy: int|
        -SEARCH_FACTOR <= jx <= SEARCH_FACTOR && -SEARCH_FACTOR <= jy <= SEARCH_FACTOR
            && after == #[trigger] steered(before, foods, dt_ms, jx, jy)
}

/// Moves every ant for `dt_ms`, drawing each ant's bounce factors at random.
pub fn move_ants(ants: &mut Vec<Ant>, world: World, dt_ms: u64)
    requires
        all_ants_wf(old(ants)@, world),
        world.wf(),
        dt_ms <= MAX_FRAME_MS,
    ensures
        final(ants)@.len() == old(ants)@.len(),
        forall|i: int| 0 <= i < old(ants)@.len() ==> #[trigger] moved_by_some_bounce(
            old(ants)@[i], final(ants)@[i], world, dt_ms as int),
        all_ants_wf(final(ants)@, world),
{
    let ghost ants0 = ants@;
    let mut i: usize = 0;
    while i < ants.len()
        invariant
            0 <= i <= ants@.len(),
            ants@.len() == ants0.len(),
            world.wf(),
            dt_ms <= MAX_FRAME_MS,
            all_ants_wf(ants0, world),
            all_ants_wf(ants@, world),
            forall|j: int| 0 <= j < i ==> #[trigger] moved_by_some_bounce(ants0[j], ants@[j], world, dt_ms as int),
            forall|j: int| i <= j < ants@.len() ==> #[trigger] ants@[j] == ants0[j],
        decreases ants@.len() - i,
    {
        let mut ant = ants[i];
        assert(ant.wf(world));
        let bx = random_range(-UNIT, UNIT);
        let by = random_range(-UNIT, UNIT);
        move_ant(&mut ant, world, dt_ms, bx, by);
        assert(moved_by_some_bounce(ants0[i as int], ant, world, dt_ms as int));
        ants.set(i, ant);
        i = i + 1;
    }
}

/// Steers every ant over `dt_ms`, drawing each ant's wander offsets at
/// random.
pub fn update_ant_direction(ants: &mut Vec<Ant>, foods: &Vec<Food>, world: World, dt_ms: u64)
    requires
        all_ants_wf(old(ants)@, world),
        all_food_wf(foods@),
        world.wf(),
        dt_ms <= MAX_FRAME_MS,
    ensures
        final(ants)@.len() == old(ants)@.len(),
        forall|i: int| 0 <= i < old(ants)@.len() ==> #[trigger] steered_by_some_jitter(
            old(ants)@[i], final(ants)@[i], foods@, dt_ms as int),
        all_ants_wf(final(ants)@, world),
{
    let ghost ants0 = ants@;
    let mut i: usize = 0;
    while i < ants.len()
        invariant
            0 <= i <= ants@.len(),
            ants@.len() == ants0.len(),
            world.wf(),
            all_food_wf(foods@),
            dt_ms <= MAX_FRAME_MS,
            all_ants_wf(ants0, world),
            all_ants_wf(ants@, world),
            forall|j: int| 0 <= j < i ==> #[trigger] steered_by_some_jitter(ants0[j], ants@[j], foods@, dt_ms as int),
            forall|j: int| i <= j < ants@.len() ==> #[trigger] ants@[j] == ants0[j],
        decreases ants@.len() - i,
    {
        let mut ant = ants[i];
        assert(ant.wf(world));
        let jx = random_range(-SEARCH_FACTOR, SEARCH_FACTOR);
        let jy = random_range(-SEARCH_FACTOR, SEARCH_FACTOR);
        steer_ant(&mut ant, foods, world, dt_ms, jx, jy);
        assert(steered_by_some_jitter(ants0[i as int], ant, foods@, dt_ms as int));
        ants.set(i, ant);
        i = i + 1;
    }
}

/// Lets the ants eat (see `claim_food`) and removes the eaten food at the
/// end of the step; returns which of the former foods were eaten.
pub fn consume_food(ants: &mut Vec<Ant>, foods: &mut Vec<Food>, world: World) -> (taken: Vec<bool>)
    requires
        all_ants_wf(old(ants)@, world),
        all_food_wf(old(foods)@),
        world.wf(),
    ensures
        taken@ == claimed_after(old(ants)@, old(foods)@, old(ants)@.len() as int),
        final(ants)@.len() == old(ants)@.len(),
        forall|i: int| 0 <= i < old(ants)@.len() ==> #[trigger] final(ants)@[i] == (
            if claim_of(old(ants)@, old(foods)@, i) >= 0 { fed(old(ants)@[i]) } else { old(ants)@[i] }),
        final(foods)@ == uneaten(old(foods)@, taken@, old(foods)@.len() as int),
        all_ants_wf(final(ants)@, world),
        all_food_wf(final(foods)@),
{
    let taken = claim_food(ants, foods, world);
    proof {
        lemma_claimed_len(old(ants)@, old(foods)@, old(ants)@.len() as int);
    }
    remove_eaten(foods, &taken);
    taken
}

/// The whole simulation: arena, ants, food and trail markers.
pub struct Colony {
    pub world: World,
    pub ants: Vec<Ant>,
    pub food: Vec<Food>,
    pub trails: Vec<HomeTrail>,
}

impl Colony {
    /// Every ant has a unit heading and stands inside the arena, every food
    /// lies within range, and every marker's intensity is in `(0, FULL_INTENSITY]`.
    pub open spec fn wf(&self) -> bool {
        self.world.wf() && all_ants_wf(self.ants@, self.world) && all_food_wf(self.food@)
            && all_trails_wf(self.trails@)
    }

    /// A colony of `NUM_ANTS` ants at home and three clusters of food.
    pub fn new(world: World) -> (r: Colony)
        requires
            world.wf(),
        ensures
            r.wf(),
            r.world == world,
            r.ants@.len() == NUM_ANTS,
            forall|i: int| 0 <= i < NUM_ANTS ==> #[trigger] r.ants@[i] == fresh_ant(r.ants@[i].direction),
            r.food@.len() == 3 * FOOD_PER_CLUSTER,
            r.trails@.len() == 0,
    {
        let ants = spawn_ants(NUM_ANTS);
        let food = spawn_food();
        Colony { world, ants, food, trails: Vec::new() }
    }

    /// Advances the simulation by one frame of `dt_ms`, in order: trail
    /// fading, eating, trail laying, moving, steering. Eaten food is removed
    /// and new markers are added only once their step has run over all ants.
    pub fn step(&mut self, dt_ms: u64)
        requires
            old(self).wf(),
            dt_ms <= MAX_FRAME_MS,
        ensures
            final(self).wf(),
            final(self).world == old(self).world,
            final(self).food@ == uneaten(
                old(self).food@,
                claimed_after(old(self).ants@, old(self).food@, old(self).ants@.len() as int),
                old(self).food@.len() as int,
            ),
            final(self).trails@ == surviving(
                old(self).trails@,
                decay_amount(dt_ms as int, old(self).world.trail_lifespan_ms as int),
                old(self).trails@.len() as int,
            ) + emitted(
                after_meals(old(self).ants@, old(self).food@),
                dt_ms as int,
                old(self).ants@.len() as int,
            ),
            final(self).ants@.len() == old(self).ants@.len(),
            forall|i: int| 0 <= i < old(self).ants@.len() ==> #[trigger] frame_step(
                after_meals(old(self).ants@, old(self).food@)[i],
                final(self).ants@[i],
                final(self).food@,
                old(self).world,
                dt_ms as int,
            ),
            final(self).food@.len() <= old(self).food@.len(),
    {
        let world = self.world;
        let ghost ants0 = self.ants@;
        let ghost food0 = self.food@;
        update_trails(&mut self.trails, world, dt_ms);
        let taken = consume_food(&mut self.ants, &mut self.food, world);
        proof {
            lemma_uneaten_len(food0, taken@, food0.len() as int);
            assert(self.ants@ =~= after_meals(ants0, food0));
        }
        let ghost fed_ants = self.ants@;
        emit_trails(&mut self.ants, &mut self.trails, world, dt_ms);
        let ghost laid = self.ants@;
        move_ants(&mut self.ants, world, dt_ms);
        let ghost walked = self.ants@;
        update_ant_direction(&mut self.ants, &self.food, world, dt_ms);
        proof {
            assert forall|i: int| 0 <= i < ants0.len() implies #[trigger] frame_step(
                fed_ants[i], self.ants@[i], self.food@, world, dt_ms as int) by {
                assert(laid[i] == trail_ticked(fed_ants[i], dt_ms as int));
                assert(moved_by_some_bounce(laid[i], walked[i], world, dt_ms as int));
                assert(steered_by_some_jitter(walked[i], self.ants@[i], self.food@, dt_ms as int));
            }
        }
    }
}

/// The ants after eating: each ant that ate (see `claim_of`) is `fed`.
pub open spec fn after_meals(ants: Seq<Ant>, foods: Seq<Food>) -> Seq<Ant> {
    Seq::new(ants.len(), |i: int| if claim_of(ants, foods, i) >= 0 { fed(ants[i]) } else { ants[i] })
}

/// `after` follows from `before` (an ant that has had its meal) by the rest
/// of a frame: its trail timer advanced, then a move with some bounce, then
/// a steering update with some wander over the remaining food.
pub open spec fn frame_step(before: Ant, after: Ant, foods: Seq<Food>, world: World, dt_ms: int) -> bool {
    exists|walked: Ant|
        #[trigger] moved_by_some_bounce(trail_ticked(before, dt_ms), walked, world, dt_ms)
            && steered_by_some_jitter(walked, after, foods, dt_ms)
}

proof fn lemma_uneaten_len(foods: Seq<Food>, taken: Seq<bool>, n: int)
    requires
        0 <= n <= foods.len(),
    ensures
        uneaten(foods, taken, n).len() <= n,
    decreases n,
{
    if n > 0 {
        lemma_uneaten_len(foods, taken, n - 1);
    }
}

// -------------------------------------------------------------- spawning

/// Number of food sources in each cluster.
pub const FOOD_PER_CLUSTER: usize = 32;

/// A fresh ant at home, searching, heading along `direction`.
pub open spec fn fresh_ant(direction: Vec2) -> Ant {
    Ant {
        position: home(),
        direction,
        state: AntState::Searching,
        search_timer: RepeatingTimer { period_ms: SEARCH_INTERVAL_MS, elapsed_ms: 0, finished: false },
        trail_timer: RepeatingTimer { period_ms: TRAIL_INTERVAL_MS, elapsed_ms: 0, finished: false },
    }
}

/// `count` ants at home, searching, each with a random unit heading.
pub fn spawn_ants(count: usize) -> (r: Vec<Ant>)
    ensures
        r@.len() == count,
        forall|i: int| 0 <= i < count ==> #[trigger] r@[i] == fresh_ant(r@[i].direction)
            && is_unit(r@[i].direction),
        forall|world: World| world.wf() ==> all_ants_wf(r@, world),
{
    let mut ants: Vec<Ant> = Vec::new();
    let mut i: usize = 0;
    while i < count
        invariant
            0 <= i <= count,
            ants@.len() == i,
            forall|j: int| 0 <= j < i ==> #[trigger] ants@[j] == fresh_ant(ants@[j].direction)
                && is_unit(ants@[j].direction),
        decreases count - i,
    {
        let x = random_range(-UNIT, UNIT);
        let y = random_range(-UNIT, UNIT);
        let direction = normalize_or(Vec2 { x, y }, Vec2 { x: UNIT, y: 0 });
        ants.push(Ant {
            position: Vec2 { x: HOME_X, y: HOME_Y },
            direction,
            state: AntState::Searching,
            search_timer: RepeatingTimer::new(SEARCH_INTERVAL_MS),
            trail_timer: RepeatingTimer::new(TRAIL_INTERVAL_MS),
        });
        i = i + 1;
    }
    ants
}

/// A rectangle, in fixed-point coordinates, that a cluster of food fills.
pub open spec fn in_box(p: Vec2, x_lo: int, x_hi: int, y_lo: int, y_hi: int) -> bool {
    x_lo <= p.x <= x_hi && y_lo <= p.y <= y_hi
}

/// Appends `FOOD_PER_CLUSTER` foods at random points of the given rectangle.
fn spawn_cluster(foods: &mut Vec<Food>, x_lo: i64, x_hi: i64, y_lo: i64, y_hi: i64)
    requires
        -MAX_FOOD_COORD <= x_lo <= x_hi <= MAX_FOOD_COORD,
        -MAX_FOOD_COORD <= y_lo <= y_hi <= MAX_FOOD_COORD,
    ensures
        final(foods)@.len() == old(foods)@.len() + FOOD_PER_CLUSTER,
        forall|i: int| 0 <= i < old(foods)@.len() ==> #[trigger] final(foods)@[i] == old(foods)@[i],
        forall|i: int| old(foods)@.len() <= i < final(foods)@.len() ==> in_box(
            #[trigger] final(foods)@[i].position, x_lo as int, x_hi as int, y_lo as int, y_hi as int),
{
    let ghost n0 = foods@.len();
    let mut k: usize = 0;
    while k < FOOD_PER_CLUSTER
        invariant
            0 <= k <= FOOD_PER_CLUSTER,
            -MAX_FOOD_COORD <= x_lo <= x_hi <= MAX_FOOD_COORD,
            -MAX_FOOD_COORD <= y_lo <= y_hi <= MAX_FOOD_COORD,
            foods@.len() == n0 + k,
            forall|i: int| 0 <= i < n0 ==> #[trigger] foods@[i] == old(foods)@[i],
            forall|i: int| n0 <= i < foods@.len() ==> in_box(
                #[trigger] foods@[i].position, x_lo as int, x_hi as int, y_lo as int, y_hi as int),
        decreases FOOD_PER_CLUSTER - k,
    {
        let x = random_range(x_lo, x_hi);
        let y = random_range(y_lo, y_hi);
        foods.push(Food { position: Vec2 { x, y } });
        k = k + 1;
    }
}

/// Three clusters of `FOOD_PER_CLUSTER` foods each, at random points of
/// the squares `[-210, -200] x [-210, -200]`, `[-190, -180] x [210, 220]`
/// and `[150, 160] x [180, 190]` (in arena units), in that order.
pub fn spawn_food() -> (r: Vec<Food>)
    ensures
        r@.len() == 3 * FOOD_PER_CLUSTER,
        forall|i: int| 0 <= i < FOOD_PER_CLUSTER ==> in_box(
            #[trigger] r@[i].position, -210_000, -200_000, -210_000, -200_000),
        forall|i: int| FOOD_PER_CLUSTER <= i < 2 * FOOD_PER_CLUSTER ==> in_box(
            #[trigger] r@[i].position, -190_000, -180_000, 210_000, 220_000),
        forall|i: int| 2 * FOOD_PER_CLUSTER <= i < 3 * FOOD_PER_CLUSTER ==> in_box(
            #[trigger] r@[i].position, 150_000, 160_000, 180_000, 190_000),
        all_food_wf(r@),
{
    let mut foods: Vec<Food> = Vec::new();
    spawn_cluster(&mut foods, -210_000, -200_000, -210_000, -200_000);
    spawn_cluster(&mut foods, -190_000, -180_000, 210_000, 220_000);
    spawn_cluster(&mut foods, 150_000, 160_000, 180_000, 190_000);
    foods
}

// ------------------------------------------------------------------ laws

/// Total time of a run of frames, in milliseconds.
pub open spec fn total_time(frames: Seq<u64>) -> int
    decreases frames.len(),
{
    if frames.len() == 0 { 0 } else { total_time(frames.drop_last()) + frames.last() }
}

/// Total intensity that a marker loses over a run of frames.
pub open spec fn total_decay(frames: Seq<u64>, lifespan_ms: int) -> int
    decreases frames.len(),
{
    if frames.len() == 0 {
        0
    } else {
        total_decay(frames.drop_last(), lifespan_ms) + decay_amount(frames.last() as int, lifespan_ms)
    }
}

/// A marker never brightens: one frame of fading leaves it no brighter, and
/// every marker that survives the frame is still alive (positive intensity).
pub proof fn lemma_trail_never_brightens(trails: Seq<HomeTrail>, world: World, dt_ms: u64, i: int)
    requires
        world.wf(),
        dt_ms <= MAX_FRAME_MS,
        all_trails_wf(trails),
        0 <= i < trails.len(),
    ensures
        decayed(trails[i], decay_amount(dt_ms as int, world.trail_lifespan_ms as int)).intensity
            <= trails[i].intensity,
        all_trails_wf(surviving(
            trails,
            decay_amount(dt_ms as int, world.trail_lifespan_ms as int),
            trails.len() as int,
        )),
{
    let l = world.trail_lifespan_ms as int;
    let amt = decay_amount(dt_ms as int, l);
    assert(0 <= amt) by (nonlinear_arith)
        requires amt == (dt_ms * FULL_INTENSITY + l - 1) / l, l >= 1, dt_ms >= 0;
    assert(dt_ms * FULL_INTENSITY <= 0x1_0000_0000 * FULL_INTENSITY) by (nonlinear_arith)
        requires dt_ms <= 0x1_0000_0000;
    assert(amt <= dt_ms * FULL_INTENSITY + l - 1) by (nonlinear_arith)
        requires amt == (dt_ms * FULL_INTENSITY + l - 1) / l, l >= 1, dt_ms * FULL_INTENSITY + l - 1 >= 0;
    assert(trails[i].wf());
    lemma_surviving_wf(trails, amt, trails.len() as int);
}

proof fn lemma_decay_covers_time(frames: Seq<u64>, lifespan_ms: int)
    requires
        0 < lifespan_ms,
    ensures
        total_decay(frames, lifespan_ms) * lifespan_ms >= total_time(frames) * FULL_INTENSITY,
    decreases frames.len(),
{
    if frames.len() > 0 {
        lemma_decay_covers_time(frames.drop_last(), lifespan_ms);
        let a = frames.last() * FULL_INTENSITY;
        let l = lifespan_ms;
        let q = (a + l - 1) / l;
        lemma_fundamental_div_mod(a + l - 1, l);
        lemma_mod_pos_bound(a + l - 1, l);
        assert(q * l >= a) by (nonlinear_arith)
            requires a + l - 1 == l * q + (a + l - 1) % l, (a + l - 1) % l < l;
        let d0 = total_decay(frames.drop_last(), l);
        let t0 = total_time(frames.drop_last());
        assert((d0 + q) * l >= (t0 + frames.last()) * FULL_INTENSITY) by (nonlinear_arith)
            requires d0 * l >= t0 * FULL_INTENSITY, q * l >= a, a == frames.last() * FULL_INTENSITY;
    }
}

/// A fresh marker is gone once its lifespan has elapsed: over any run of
/// frames lasting at least the lifespan, the fading adds up to at least the
/// full intensity.
pub proof fn lemma_trail_gone_after_lifespan(frames: Seq<u64>, world: World)
    requires
        world.wf(),
        total_time(frames) >= world.trail_lifespan_ms,
    ensures
        FULL_INTENSITY - total_decay(frames, world.trail_lifespan_ms as int) <= 0,
{
    let l = world.trail_lifespan_ms as int;
    lemma_decay_covers_time(frames, l);
    let d = total_decay(frames, l);
    assert(d >= FULL_INTENSITY) by (nonlinear_arith)
        requires d * l >= total_time(frames) * FULL_INTENSITY, total_time(frames) >= l, l > 0;
}

/// Round trip of the two states: a searching ant that eats turns to carry
/// the food home, keeping its heading; once home, it searches again with
/// exactly that heading reversed rather than one recomputed toward home.
pub proof fn lemma_round_trip_reverses_heading(ant: Ant)
    requires
        ant.state == AntState::Searching,
        near(home(), ant.position, HOME_TOLERANCE as int),
    ensures
        fed(ant).state == AntState::Returning,
        fed(ant).direction == ant.direction,
        homecoming(fed(ant)).state == AntState::Searching,
        homecoming(fed(ant)).direction == negate(ant.direction),
        homecoming(fed(ant)).position == ant.position,
{
}

} // verus!

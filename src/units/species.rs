use vstd::prelude::*;

verus! {

#[derive(Clone, Copy, Debug, PartialEq, Eq, Structural)]
pub enum Species {
    Squirrel,
    Deer,
    Bird,
    Fox,
    Bear,
}

/// Which of the two plant foods a tile offers.
#[derive(Clone, Copy, Debug, PartialEq, Eq, Structural)]
pub enum FoodKind {
    Nuts,
    Berries,
}

pub open spec fn predator(sp: Species) -> bool {
    sp == Species::Fox || sp == Species::Bear
}

pub open spec fn prey_of(pred: Species, prey: Species) -> bool {
    match pred {
        Species::Fox => prey == Species::Squirrel || prey == Species::Bird,
        Species::Bear => prey == Species::Squirrel || prey == Species::Deer || prey == Species::Fox,
        _ => false,
    }
}

pub open spec fn nut_eater(sp: Species) -> bool {
    sp == Species::Squirrel || sp == Species::Bird
}

pub open spec fn berry_eater(sp: Species) -> bool {
    sp == Species::Squirrel || sp == Species::Bird || sp == Species::Deer
}

/// Satiation a predator gains from eating prey of this species, in millionths.
pub open spec fn meat_of(prey: Species) -> i64 {
    match prey {
        Species::Bird => 1_200_000,
        Species::Squirrel => 1_500_000,
        Species::Fox => 2_200_000,
        Species::Deer => 3_000_000,
        Species::Bear => 0,
    }
}

pub fn is_predator(sp: Species) -> (r: bool)
    ensures
        r == predator(sp),
{
    match sp {
        Species::Fox | Species::Bear => true,
        _ => false,
    }
}

/// Fox hunts squirrels and birds; bear hunts squirrels, deer and foxes.
pub fn is_prey_of(pred: Species, prey: Species) -> (r: bool)
    ensures
        r == prey_of(pred, prey),
{
    match pred {
        Species::Fox => match prey {
            Species::Squirrel | Species::Bird => true,
            _ => false,
        },
        Species::Bear => match prey {
            Species::Squirrel | Species::Deer | Species::Fox => true,
            _ => false,
        },
        _ => false,
    }
}

pub fn eats_nuts(sp: Species) -> (r: bool)
    ensures
        r == nut_eater(sp),
{
    match sp {
        Species::Squirrel | Species::Bird => true,
        _ => false,
    }
}

pub fn eats_berries(sp: Species) -> (r: bool)
    ensures
        r == berry_eater(sp),
{
    match sp {
        Species::Squirrel | Species::Bird | Species::Deer => true,
        _ => false,
    }
}

pub fn meat_gain(prey: Species) -> (r: i64)
    ensures
        r == meat_of(prey),
{
    match prey {
        Species::Bird => 1_200_000,
        Species::Squirrel => 1_500_000,
        Species::Fox => 2_200_000,
        Species::Deer => 3_000_000,
        Species::Bear => 0,
    }
}

/// A creature's food reserve and appetite: amounts in millionths, rates in
/// thousandths per second, so a rate times a tick in milliseconds is exact.
#[derive(Clone, Copy, Debug, PartialEq, Eq, Structural)]
pub struct Needs {
    pub satiation: i64,
    pub cap: i64,
    pub hungry_threshold: i64,
    pub hunger_rate: i64,
    pub eat_rate: i64,
}

/// Reserve within `0 ..= cap` and rates small enough for the arithmetic.
pub open spec fn needs_ok(n: Needs) -> bool {
    &&& 0 <= n.satiation <= n.cap <= 1_000_000_000_000
    &&& 0 <= n.hunger_rate <= 1_000_000_000
    &&& 0 <= n.eat_rate <= 1_000_000_000
}

impl Needs {
    pub open spec fn hungry(&self) -> bool {
        self.satiation < self.hungry_threshold
    }

    pub fn is_hungry(&self) -> (r: bool)
        ensures
            r == self.hungry(),
    {
        self.satiation < self.hungry_threshold
    }
}

pub open spec fn default_needs_spec(sp: Species) -> Needs {
    match sp {
        Species::Squirrel => Needs { satiation: 2_500_000, cap: 4_000_000, hungry_threshold: 2_000_000, hunger_rate: 50, eat_rate: 800 },
        Species::Deer => Needs { satiation: 3_000_000, cap: 6_000_000, hungry_threshold: 2_500_000, hunger_rate: 70, eat_rate: 1000 },
        Species::Bird => Needs { satiation: 2_000_000, cap: 3_500_000, hungry_threshold: 1_800_000, hunger_rate: 40, eat_rate: 600 },
        Species::Fox => Needs { satiation: 2_500_000, cap: 5_000_000, hungry_threshold: 2_200_000, hunger_rate: 60, eat_rate: 900 },
        Species::Bear => Needs { satiation: 3_500_000, cap: 8_000_000, hungry_threshold: 3_000_000, hunger_rate: 80, eat_rate: 1200 },
    }
}

/// The needs a creature of each species starts with.
pub fn default_needs(sp: Species) -> (r: Needs)
    ensures
        r == default_needs_spec(sp),
        needs_ok(r),
        sp == Species::Squirrel ==> r == (Needs { satiation: 2_500_000, cap: 4_000_000, hungry_threshold: 2_000_000, hunger_rate: 50, eat_rate: 800 }),
        sp == Species::Deer ==> r == (Needs { satiation: 3_000_000, cap: 6_000_000, hungry_threshold: 2_500_000, hunger_rate: 70, eat_rate: 1000 }),
        sp == Species::Bird ==> r == (Needs { satiation: 2_000_000, cap: 3_500_000, hungry_threshold: 1_800_000, hunger_rate: 40, eat_rate: 600 }),
        sp == Species::Fox ==> r == (Needs { satiation: 2_500_000, cap: 5_000_000, hungry_threshold: 2_200_000, hunger_rate: 60, eat_rate: 900 }),
        sp == Species::Bear ==> r == (Needs { satiation: 3_500_000, cap: 8_000_000, hungry_threshold: 3_000_000, hunger_rate: 80, eat_rate: 1200 }),
{
    match sp {
        Species::Squirrel => Needs { satiation: 2_500_000, cap: 4_000_000, hungry_threshold: 2_000_000, hunger_rate: 50, eat_rate: 800 },
        Species::Deer => Needs { satiation: 3_000_000, cap: 6_000_000, hungry_threshold: 2_500_000, hunger_rate: 70, eat_rate: 1000 },
        Species::Bird => Needs { satiation: 2_000_000, cap: 3_500_000, hungry_threshold: 1_800_000, hunger_rate: 40, eat_rate: 600 },
        Species::Fox => Needs { satiation: 2_500_000, cap: 5_000_000, hungry_threshold: 2_200_000, hunger_rate: 60, eat_rate: 900 },
        Species::Bear => Needs { satiation: 3_500_000, cap: 8_000_000, hungry_threshold: 3_000_000, hunger_rate: 80, eat_rate: 1200 },
    }
}

/// The reserve after `dt_ms` milliseconds of hunger: drained at `hunger_rate` per
/// second, never below 0.
pub open spec fn drained(n: Needs, dt_ms: int) -> i64 {
    let s = n.satiation - n.hunger_rate * dt_ms;
    if s < 0 { 0 } else { s as i64 }
}

/// Drains the reserve for one tick.
pub fn drain(n: &mut Needs, dt_ms: i64)
    requires
        needs_ok(*old(n)),
        0 <= dt_ms <= 1_000_000,
    ensures
        *final(n) == (Needs { satiation: drained(*old(n), dt_ms as int), ..*old(n) }),
        needs_ok(*final(n)),
        0 <= final(n).satiation <= old(n).satiation,
{
    assert(0 <= n.hunger_rate * dt_ms <= 1_000_000_000_000_000) by (nonlinear_arith)
        requires 0 <= n.hunger_rate <= 1_000_000_000, 0 <= dt_ms <= 1_000_000;
    let loss = n.hunger_rate * dt_ms;
    let s = n.satiation - loss;
    n.satiation = if s < 0 { 0 } else { s };
}

/// Hunger never raises the reserve and never takes it below zero: without
/// eating, a creature's satiation is non-increasing and stays at least 0.
pub proof fn lemma_drain_monotone(n: Needs, dt_ms: int)
    requires
        needs_ok(n),
        0 <= dt_ms,
    ensures
        0 <= drained(n, dt_ms) <= n.satiation,
{
    assert(0 <= n.hunger_rate * dt_ms) by (nonlinear_arith)
        requires 0 <= n.hunger_rate, 0 <= dt_ms;
}

} // verus!

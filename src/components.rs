use vstd::prelude::*;

verus! {

/// Marks the hero.
#[derive(Clone, Copy, Debug, Default)]
pub struct Hero;

/// Marks the hero's hull.
#[derive(Clone, Copy, Debug, Default)]
pub struct HeroHull;

/// Whether the hero's head lights are on.
#[derive(Clone, Copy, Debug, Default)]
pub struct HeadLights(pub bool);

/// Marks an entity that follows the hero.
#[derive(Clone, Copy, Debug)]
pub struct HeroFollower;

/// Marks an entity that shoots at the hero.
#[derive(Clone, Copy, Debug)]
pub struct HeroShooter;

/// Starting health of a life cycle.
pub const FULL_HEALTH: u16 = 100;

/// The health of an entity that can be hurt.
#[derive(Clone, Copy, Debug)]
pub struct LifeCycle {
    health: u16,
}

impl Default for LifeCycle {
    fn default() -> (r: LifeCycle)
        ensures
            r.spec_health() == FULL_HEALTH,
    {
        LifeCycle { health: FULL_HEALTH }
    }
}

impl LifeCycle {
    pub closed spec fn spec_health(&self) -> u16 {
        self.health
    }

    pub fn health(&self) -> (r: u16)
        ensures
            r == self.spec_health(),
    {
        self.health
    }

    pub fn is_alive(&self) -> (r: bool)
        ensures
            r == (self.spec_health() > 0),
    {
        self.health > 0
    }

    /// Takes `amount` off the health, which must hold it.
    pub fn deduct(&mut self, amount: u16)
        requires
            amount <= old(self).spec_health(),
        ensures
            final(self).spec_health() == old(self).spec_health() - amount,
    {
        self.health = self.health - amount;
    }

    pub fn terminate(&mut self)
        ensures
            final(self).spec_health() == 0,
    {
        self.health = 0;
    }
}

} // verus!

use vstd::prelude::*;
use crate::tilemap::{ParseError, Tilemap};

verus! {

/// A named terrain text.
#[derive(Debug)]
pub struct Level {
    pub name: &'static str,
    pub terrain: &'static str,
}

/// The levels that can be played, by name.
#[derive(Debug)]
pub struct Levels {
    levels: Vec<Level>,
}

/// The level registered last under `name` among `levels`.
pub open spec fn lookup(levels: Seq<Level>, name: Seq<char>) -> Option<Level>
    decreases levels.len(),
{
    if levels.len() == 0 {
        None
    } else if levels.last().name@ == name {
        Some(levels.last())
    } else {
        lookup(levels.drop_last(), name)
    }
}

/// Collects the characters of a text.
fn chars_of(s: &str) -> (r: Vec<char>)
    ensures
        r@ == s@,
{
    let mut r: Vec<char> = Vec::new();
    for c in it: s.chars()
        invariant
            r@ == it.seq().take(it.index() as int),
    {
        proof {
            assert(it.seq().take(it.index() + 1) == r@.push(c));
        }
        r.push(c);
    }
    r
}

/// Whether two texts hold the same characters.
fn same_text(a: &str, b: &str) -> (r: bool)
    ensures
        r == (a@ == b@),
{
    let x = chars_of(a);
    let y = chars_of(b);
    if x.len() != y.len() {
        return false;
    }
    let mut i: usize = 0;
    while i < x.len()
        invariant
            x@ == a@,
            y@ == b@,
            x@.len() == y@.len(),
            i <= x@.len(),
            forall|k: int| 0 <= k < i ==> x@[k] == y@[k],
        decreases x@.len() - i,
    {
        if x[i] != y[i] {
            return false;
        }
        i = i + 1;
    }
    assert(x@ =~= y@);
    true
}

impl Level {
    fn new(name: &'static str, terrain: &'static str) -> (r: Level)
        ensures
            r.name == name && r.terrain == terrain,
    {
        Level { name, terrain }
    }

    /// The tile map of this level's terrain.
    pub fn create_tilemap(&self, tile_size: u32) -> (r: Result<Tilemap, ParseError>)
        ensures
            r matches Ok(tm) ==> tm.parsed_from(self.terrain@) && tm.tile_size == tile_size,
    {
        Tilemap::new(self.terrain, tile_size)
    }
}

impl Levels {
    pub closed spec fn view(&self) -> Seq<Level> {
        self.levels@
    }

    /// The level named `name`, if one is registered.
    pub open spec fn level_named(&self, name: Seq<char>) -> Option<Level> {
        lookup(self.view(), name)
    }

    /// A catalogue with no levels.
    pub fn new() -> (r: Levels)
        ensures
            forall|name: Seq<char>| #[trigger] r.level_named(name) is None,
    {
        Levels { levels: Vec::new() }
    }

    /// Registers `terrain` under `name`, in place of any level of that name.
    pub fn add_level(&mut self, name: &'static str, terrain: &'static str)
        ensures
            final(self).level_named(name@) == Some(Level { name, terrain }),
            forall|other: Seq<char>|
                other != name@ ==> #[trigger] final(self).level_named(other) == old(
                    self,
                ).level_named(other),
    {
        add_level(&mut self.levels, name, terrain);
        proof {
            assert forall|other: Seq<char>| other != name@ implies #[trigger] lookup(
                self.levels@,
                other,
            ) == lookup(old(self).levels@, other) by {
                assert(self.levels@.drop_last() == old(self).levels@);
            }
        }
    }

    pub fn is_valid_level(&self, level_name: &str) -> (r: bool)
        ensures
            r == self.level_named(level_name@) is Some,
    {
        self.get_level(level_name).is_some()
    }

    pub fn get_level(&self, level_name: &str) -> (r: Option<&Level>)
        ensures
            r matches Some(l) ==> self.level_named(level_name@) == Some(*l),
            r is None ==> self.level_named(level_name@) is None,
    {
        let mut i: usize = self.levels.len();
        assert(self.levels@.subrange(0, i as int) == self.levels@);
        while i > 0
            invariant
                i <= self.levels@.len(),
                lookup(self.levels@, level_name@) == lookup(self.levels@.subrange(0, i as int), level_name@),
            decreases i,
        {
            let l = &self.levels[i - 1];
            assert(self.levels@.subrange(0, i as int).drop_last() == self.levels@.subrange(0, i - 1));
            if same_text(l.name, level_name) {
                return Some(l);
            }
            i = i - 1;
        }
        None
    }
}

fn add_level(levels: &mut Vec<Level>, name: &'static str, terrain: &'static str)
    ensures
        final(levels)@ == old(levels)@.push(Level { name, terrain }),
{
    levels.push(Level::new(name, terrain));
}

} // verus!

//! Built-in character generator, customisable by games.
//!
//! Generic on purpose: genres and periods plug in their own name pools and stat ranges.
//! Generation is deterministic in the seed.

use vstd::prelude::*;
use crate::characters::{Character, CharacterStats};
use crate::world::NationId;

verus! {

/// What a generator is told.
#[derive(Clone, Copy, Debug, PartialEq, Eq, Structural)]
pub struct GenContext {
    pub nation: Option<NationId>,
    /// Role hint (leader, general, advisor, custom, ...).
    pub role_hint: u32,
    /// Current year (calendar dependent).
    pub year: i32,
    /// Seed that determines the result.
    pub seed: u64,
}

impl Default for GenContext {
    fn default() -> (r: Self)
        ensures
            r == (GenContext { nation: None, role_hint: 0, year: 0, seed: 0 }),
    {
        GenContext { nation: None, role_hint: 0, year: 0, seed: 0 }
    }
}

/// A character generator; games may supply their own.
pub trait CharacterGenerator {
    fn generate(&self, ctx: GenContext) -> (Character, CharacterStats);
}

/// Settings of the default generator.
pub struct CharacterGenConfig {
    /// Name ids (string table) to draw from.
    pub name_pool: Vec<u32>,
    /// Inclusive stat ranges.
    pub military_min: i16,
    pub military_max: i16,
    pub diplomacy_min: i16,
    pub diplomacy_max: i16,
    pub administration_min: i16,
    pub administration_max: i16,
}

impl Default for CharacterGenConfig {
    fn default() -> (r: Self)
        ensures
            r.name_pool@ == seq![0u32],
            r.military_min == 0,
            r.military_max == 6,
            r.diplomacy_min == 0,
            r.diplomacy_max == 6,
            r.administration_min == 0,
            r.administration_max == 6,
    {
        CharacterGenConfig {
            name_pool: vec![0],
            military_min: 0,
            military_max: 6,
            diplomacy_min: 0,
            diplomacy_max: 6,
            administration_min: 0,
            administration_max: 6,
        }
    }
}

/// The state after one xorshift step from `x`.
pub open spec fn xs_state(x: u64) -> u64 {
    let a = x ^ (x >> 12u64);
    let b = a ^ (a << 25u64);
    b ^ (b >> 27u64)
}

/// The number drawn with state `s` (the state just stepped to).
pub open spec fn xs_out(s: u64) -> u64 {
    s.wrapping_mul(0x2545F4914F6CDD1Du64)
}

/// Number of values in `min..=max` (for `min < max`).
pub open spec fn range_span(min: i16, max: i16) -> int {
    max - min + 1
}

/// A stat drawn from `min..=max` with state `state`, and the state after: no draw when
/// `min >= max` (the result is `min`).
pub open spec fn draw_range(state: u64, min: i16, max: i16) -> (i16, u64) {
    if min >= max {
        (min, state)
    } else {
        let s = xs_state(state);
        ((min + (xs_out(s) % (range_span(min, max) as u64))) as i16, s)
    }
}

/// A name drawn from `pool` with state `state`, and the state after: 0 and no draw for
/// an empty pool.
pub open spec fn draw_choice(state: u64, pool: Seq<u32>) -> (u32, u64) {
    if pool.len() == 0 {
        (0, state)
    } else {
        let s = xs_state(state);
        (pool[(xs_out(s) % (pool.len() as u64)) as int], s)
    }
}

/// The first state for seed `seed` and role hint `role` (zero is replaced by one).
pub open spec fn first_state(seed: u64, role: u32) -> u64 {
    let x = seed ^ (role as u64);
    if x >= 1 { x } else { 1 }
}

/// Deterministic pseudo-random numbers (xorshift64*).
struct XorShift64 {
    state: u64,
}

impl XorShift64 {
    fn new(seed: u64) -> (r: Self)
        ensures
            r.state == (if seed >= 1 { seed } else { 1 }),
    {
        XorShift64 { state: if seed < 1 { 1 } else { seed } }
    }

    fn next_u64(&mut self) -> (r: u64)
        ensures
            final(self).state == xs_state(old(self).state),
            r == xs_out(final(self).state),
    {
        let mut x = self.state;
        x = x ^ (x >> 12u64);
        x = x ^ (x << 25u64);
        x = x ^ (x >> 27u64);
        self.state = x;
        x.wrapping_mul(0x2545F4914F6CDD1Du64)
    }

    fn gen_range_i16(&mut self, min: i16, max: i16) -> (r: i16)
        ensures
            (r, final(self).state) == draw_range(old(self).state, min, max),
            min <= max ==> min <= r <= max,
    {
        if min >= max {
            return min;
        }
        let span = ((max as i32) - (min as i32) + 1) as u64;
        let n = self.next_u64();
        let r = (n % span) as i32;
        (min as i32 + r) as i16
    }

    fn choose_u32(&mut self, v: &[u32]) -> (r: u32)
        ensures
            (r, final(self).state) == draw_choice(old(self).state, v@),
    {
        if v.len() == 0 {
            return 0;
        }
        let n = self.next_u64();
        let i = (n % (v.len() as u64)) as usize;
        v[i]
    }
}

/// The default generator: draws from its settings.
pub struct DefaultCharacterGenerator {
    pub config: CharacterGenConfig,
}

impl DefaultCharacterGenerator {
    pub fn from_config(config: CharacterGenConfig) -> (r: Self)
        ensures
            r.config == config,
    {
        DefaultCharacterGenerator { config }
    }

    /// What `generate` gives for `ctx`: the name, then military, diplomacy and
    /// administration, each drawn in turn from one random sequence seeded by
    /// `ctx.seed ^ ctx.role_hint`.
    pub open spec fn generated(&self, ctx: GenContext) -> (Character, (i16, i16, i16)) {
        let s0 = first_state(ctx.seed, ctx.role_hint);
        let (name_id, s1) = draw_choice(s0, self.config.name_pool@);
        let (mil, s2) = draw_range(s1, self.config.military_min, self.config.military_max);
        let (dip, s3) = draw_range(s2, self.config.diplomacy_min, self.config.diplomacy_max);
        let (adm, s4) = draw_range(s3, self.config.administration_min, self.config.administration_max);
        (
            Character {
                name_id,
                persistent_id: ctx.seed,
                birth_year: Some(if ctx.year - 30 < i32::MIN { i32::MIN } else { (ctx.year - 30) as i32 }),
                death_year: None,
            },
            (mil, dip, adm),
        )
    }
}

impl CharacterGenerator for DefaultCharacterGenerator {
    fn generate(&self, ctx: GenContext) -> (r: (Character, CharacterStats))
        ensures
            r.0 == self.generated(ctx).0,
            (r.1.military, r.1.diplomacy, r.1.administration) == self.generated(ctx).1,
            r.1.custom@ == Map::<u32, i32>::empty(),
            self.config.military_min <= self.config.military_max ==> self.config.military_min <= r.1.military <= self.config.military_max,
            self.config.diplomacy_min <= self.config.diplomacy_max ==> self.config.diplomacy_min <= r.1.diplomacy <= self.config.diplomacy_max,
            self.config.administration_min <= self.config.administration_max
                ==> self.config.administration_min <= r.1.administration <= self.config.administration_max,
    {
        let mut rng = XorShift64::new(ctx.seed ^ (ctx.role_hint as u64));
        let name_id = rng.choose_u32(self.config.name_pool.as_slice());
        let military = rng.gen_range_i16(self.config.military_min, self.config.military_max);
        let diplomacy = rng.gen_range_i16(self.config.diplomacy_min, self.config.diplomacy_max);
        let administration = rng.gen_range_i16(self.config.administration_min, self.config.administration_max);
        let mut stats = CharacterStats::default();
        stats.military = military;
        stats.diplomacy = diplomacy;
        stats.administration = administration;
        let c = Character {
            name_id,
            persistent_id: ctx.seed,
            birth_year: Some(if ctx.year < i32::MIN + 30 { i32::MIN } else { ctx.year - 30 }),
            death_year: None,
        };
        (c, stats)
    }
}


/// Generation is deterministic: two contexts with the same seed, role hint and year give
/// the same character and stats (the nation plays no part).
pub proof fn law_generation_deterministic(g: DefaultCharacterGenerator, a: GenContext, b: GenContext)
    requires
        a.seed == b.seed,
        a.role_hint == b.role_hint,
        a.year == b.year,
    ensures
        g.generated(a) == g.generated(b),
{
}

/// A generated name comes from the name pool, when the pool is not empty.
pub proof fn law_generated_name_in_pool(g: DefaultCharacterGenerator, ctx: GenContext)
    requires
        0 < g.config.name_pool@.len() <= usize::MAX,
    ensures
        g.config.name_pool@.contains(g.generated(ctx).0.name_id),
{
    let s0 = first_state(ctx.seed, ctx.role_hint);
    let s = xs_state(s0);
    let n = g.config.name_pool@.len() as u64;
    assert(n as int == g.config.name_pool@.len());
    let k = (xs_out(s) % n) as int;
    assert(0 <= k < g.config.name_pool@.len());
    assert(g.config.name_pool@[k] == g.generated(ctx).0.name_id);
}

} // verus!

use teleology_core::character_gen::{CharacterGenConfig, CharacterGenerator, DefaultCharacterGenerator, GenContext};
use teleology_core::characters::{Character, CharacterRole, CharacterStats};
use teleology_core::world::{NationId, ScopeId};

#[test]
fn character_default() {
    let c = Character::default();
    assert_eq!(c.name_id, 0);
    assert_eq!(c.persistent_id, 0);
    assert!(c.birth_year.is_none());
    assert!(c.death_year.is_none());
}

#[test]
fn character_stats_default() {
    let s = CharacterStats::default();
    assert_eq!(s.military, 0);
    assert_eq!(s.diplomacy, 0);
    assert_eq!(s.administration, 0);
    assert!(s.custom.is_empty());
}

#[test]
fn character_role_variants() {
    let nid = NationId::from_raw(1);
    let leader = CharacterRole::Leader(nid);
    let general = CharacterRole::General { nation: nid, army_raw: 5 };
    let advisor = CharacterRole::Advisor(nid);
    let custom = CharacterRole::Custom(99);
    match leader {
        CharacterRole::Leader(n) => assert_eq!(n, nid),
        _ => panic!("expected Leader"),
    }
    match general {
        CharacterRole::General { nation, army_raw } => {
            assert_eq!(nation, nid);
            assert_eq!(army_raw, 5);
        },
        _ => panic!("expected General"),
    }
    match advisor {
        CharacterRole::Advisor(n) => assert_eq!(n, nid),
        _ => panic!("expected Advisor"),
    }
    match custom {
        CharacterRole::Custom(id) => assert_eq!(id, 99),
        _ => panic!("expected Custom"),
    }
}

#[test]
fn character_stats_custom() {
    let mut stats = CharacterStats::default();
    stats.custom.insert(1, 50);
    stats.custom.insert(2, -10);
    assert_eq!(stats.custom[&1], 50);
    assert_eq!(stats.custom[&2], -10);
}

#[test]
fn gen_context_default() {
    let ctx = GenContext::default();
    assert!(ctx.nation.is_none());
    assert_eq!(ctx.role_hint, 0);
    assert_eq!(ctx.year, 0);
    assert_eq!(ctx.seed, 0);
}

#[test]
fn character_gen_config_default() {
    let config = CharacterGenConfig::default();
    assert_eq!(config.military_min, 0);
    assert_eq!(config.military_max, 6);
    assert_eq!(config.diplomacy_min, 0);
    assert_eq!(config.diplomacy_max, 6);
}

#[test]
fn default_generator_produces_character() {
    let gen = DefaultCharacterGenerator::from_config(CharacterGenConfig::default());
    let ctx = GenContext { nation: None, role_hint: 0, year: 1444, seed: 42 };
    let (c, stats) = gen.generate(ctx);
    assert_eq!(c.persistent_id, 42);
    assert_eq!(c.birth_year, Some(1414));
    assert!(stats.military >= 0 && stats.military <= 6);
    assert!(stats.diplomacy >= 0 && stats.diplomacy <= 6);
    assert!(stats.administration >= 0 && stats.administration <= 6);
}

#[test]
fn default_generator_deterministic() {
    let gen = DefaultCharacterGenerator::from_config(CharacterGenConfig::default());
    let ctx = GenContext { nation: None, role_hint: 0, year: 1444, seed: 123 };
    let (c1, s1) = gen.generate(ctx);
    let (c2, s2) = gen.generate(ctx);
    assert_eq!(c1.name_id, c2.name_id);
    assert_eq!(s1.military, s2.military);
    assert_eq!(s1.diplomacy, s2.diplomacy);
    assert_eq!(s1.administration, s2.administration);
}

#[test]
fn default_generator_different_seeds() {
    let config = CharacterGenConfig {
        name_pool: vec![1, 2, 3, 4, 5],
        military_min: 0,
        military_max: 100,
        diplomacy_min: 0,
        diplomacy_max: 100,
        administration_min: 0,
        administration_max: 100,
    };
    let gen = DefaultCharacterGenerator::from_config(config);
    let (_, s1) = gen.generate(GenContext { seed: 1, ..Default::default() });
    let (_, s2) = gen.generate(GenContext { seed: 999, ..Default::default() });
    let same = s1.military == s2.military && s1.diplomacy == s2.diplomacy && s1.administration == s2.administration;
    assert!(!same, "different seeds should produce different stats");
}

#[test]
fn default_generator_custom_ranges() {
    let config = CharacterGenConfig {
        name_pool: vec![10, 20],
        military_min: 5,
        military_max: 5,
        diplomacy_min: 3,
        diplomacy_max: 3,
        administration_min: 1,
        administration_max: 1,
    };
    let gen = DefaultCharacterGenerator::from_config(config);
    let (_, stats) = gen.generate(GenContext { seed: 42, ..Default::default() });
    assert_eq!(stats.military, 5);
    assert_eq!(stats.diplomacy, 3);
    assert_eq!(stats.administration, 1);
}

fn reference_xorshift(state: &mut u64) -> u64 {
    let mut x = *state;
    x ^= x >> 12;
    x ^= x << 25;
    x ^= x >> 27;
    *state = x;
    x.wrapping_mul(0x2545F4914F6CDD1D)
}

#[test]
fn default_generator_matches_the_xorshift_sequence() {
    let config = CharacterGenConfig {
        name_pool: vec![11, 22, 33],
        military_min: -3,
        military_max: 9,
        diplomacy_min: 4,
        diplomacy_max: 4,
        administration_min: 0,
        administration_max: 2,
    };
    let gen = DefaultCharacterGenerator::from_config(config);
    let (c, s) = gen.generate(GenContext { nation: None, role_hint: 6, year: -5, seed: 77 });
    let mut st: u64 = 77 ^ 6;
    let name = [11u32, 22, 33][(reference_xorshift(&mut st) % 3) as usize];
    let mil = (-3i32 + (reference_xorshift(&mut st) % 13) as i32) as i16;
    let adm = (reference_xorshift(&mut st) % 3) as i16;
    assert_eq!(c.name_id, name);
    assert_eq!(s.military, mil);
    assert_eq!(s.diplomacy, 4);
    assert_eq!(s.administration, adm);
    assert_eq!(c.birth_year, Some(-35));
}

#[test]
fn default_generator_empty_pool_and_zero_seed() {
    let config = CharacterGenConfig {
        name_pool: vec![],
        military_min: 0,
        military_max: 0,
        diplomacy_min: 0,
        diplomacy_max: 0,
        administration_min: 0,
        administration_max: 0,
    };
    let gen = DefaultCharacterGenerator::from_config(config);
    let (c, _) = gen.generate(GenContext { year: i32::MIN + 5, ..Default::default() });
    assert_eq!(c.name_id, 0);
    assert_eq!(c.birth_year, Some(i32::MIN));
}

use h1emu_ai::clock::{accept, MAX_TICK_TIME};
use h1emu_ai::commands::{Animation, HostCommand};
use h1emu_ai::components::{
    CharacterId, Cooldown, DespawnCooldown, Eating, EntityHandle, EntityKind, HungerLevel,
    IsAttacking, Life, Position, Trap,
};
use h1emu_ai::ressources::HungerTimer;
use h1emu_ai::systems::common::{
    despawn_inactive, is_pos_in_radius, track_positions, HostReport,
};
use h1emu_ai::systems::traps::trap_sys;
use h1emu_ai::systems::zombies::{
    attack_hit_sys, carnivore_eating_sys, check_aliveness_sys, check_player_revived_sys,
    coward_sys, finish_eating_sys, hostile_to_player_sys, hunger_sys, hungry_sys,
    remove_hungry_sys, test_follow, Chase, FleeSignal,
};
use h1emu_ai::world::{EntityRecord, Filter, Presence, World};
use h1emu_ai::{AiManager, EntityType};

fn pos(x: i32, y: i32, z: i32) -> Position {
    Position { x, y, z }
}

fn name(s: &str) -> CharacterId {
    CharacterId(s.to_string())
}

fn manager_with(kinds: &[(EntityType, Position)]) -> (AiManager, Vec<u64>) {
    let mut ai = AiManager::initialize_at(Some(true), 1_000_000);
    let mut ids = Vec::new();
    for (i, (kind, at)) in kinds.iter().enumerate() {
        let id = ai
            .add_entity(EntityHandle(100 + i as u64), *kind, *at, name(&format!("char{}", i)))
            .unwrap();
        ids.push(id);
    }
    (ai, ids)
}

#[test]
fn radius_test_is_a_square_on_x_and_z() {
    let a = pos(0, 0, 0);
    assert!(is_pos_in_radius(1500, &a, &pos(1500, 0, 1500)));
    assert!(is_pos_in_radius(1500, &a, &pos(-1500, 0, -1500)));
    assert!(!is_pos_in_radius(1500, &a, &pos(1501, 0, 0)));
    assert!(!is_pos_in_radius(1500, &a, &pos(0, 0, -1501)));
}

#[test]
fn radius_test_ignores_height_and_order() {
    let a = pos(10, 5, -20);
    let b = pos(900, 700_000, 400);
    assert!(is_pos_in_radius(1000, &a, &b));
    assert!(is_pos_in_radius(1000, &b, &a));
    assert!(is_pos_in_radius(1000, &pos(10, -9, -20), &pos(900, 3, 400)));
    let far = pos(5000, 5, -20);
    assert_eq!(is_pos_in_radius(1000, &a, &far), is_pos_in_radius(1000, &far, &a));
    assert!(!is_pos_in_radius(1000, &a, &far));
}

#[test]
fn radius_test_with_negative_radius_holds_nowhere() {
    assert!(!is_pos_in_radius(-1, &pos(0, 0, 0), &pos(0, 0, 0)));
}

#[test]
fn radius_test_at_the_ends_of_the_axis() {
    assert!(!is_pos_in_radius(i32::MAX, &pos(i32::MIN, 0, 0), &pos(i32::MAX, 0, 0)));
    assert!(is_pos_in_radius(i32::MAX, &pos(0, 0, 0), &pos(i32::MAX, 0, i32::MIN + 1)));
}

#[test]
fn distance_is_the_rounded_down_straight_line() {
    assert_eq!(pos(0, 0, 0).distance(&pos(3000, 4000, 0)), 5000);
    assert_eq!(pos(0, 0, 0).distance(&pos(1, 1, 0)), 1);
    assert_eq!(pos(7, 7, 7).distance(&pos(7, 7, 7)), 0);
    assert_eq!(pos(1, 2, 3).distance(&pos(3, 5, 9)), 7);
    assert_eq!(pos(0, 0, 0).distance(&pos(1, 1, 1)), 1);
    assert_eq!(pos(0, 0, 0).distance(&pos(2, 2, 1)), 3);
}

#[test]
fn distance_between_the_corners_of_the_world() {
    let d = pos(i32::MIN, i32::MIN, i32::MIN).distance(&pos(i32::MAX, i32::MAX, i32::MAX));
    assert_eq!(d, 7_439_101_571);
}

#[test]
fn hunger_level_is_clamped() {
    assert_eq!(HungerLevel::new(100).0, 100);
    assert_eq!(HungerLevel::new(101).0, 100);
    assert_eq!(HungerLevel::new(255).0, 100);
    assert_eq!(HungerLevel::new(0).0, 0);
    assert_eq!(HungerLevel::new(42).0, 42);
}

#[test]
fn hunger_decays_by_one_down_to_zero() {
    let mut level = HungerLevel::new(100);
    for n in 1..=150u32 {
        level = level.decay();
        let expected = if n >= 100 { 0 } else { 100 - n };
        assert_eq!(level.0 as u32, expected);
    }
}

#[test]
fn cooldown_runs_until_last_plus_period() {
    let c = Cooldown { last: 1000, cooldown: 5000 };
    assert!(c.is_in_cooldown(1000));
    assert!(c.is_in_cooldown(5999));
    assert!(!c.is_in_cooldown(6000));
    assert!(!Cooldown::new(5000).is_in_cooldown(5000));
    assert!(Cooldown::new(5000).is_in_cooldown(4999));
}

#[test]
fn cooldown_at_the_ends_of_time() {
    let c = Cooldown { last: i64::MAX, cooldown: i64::MAX };
    assert!(c.is_in_cooldown(i64::MAX));
    let c = Cooldown { last: i64::MIN, cooldown: i64::MIN };
    assert!(!c.is_in_cooldown(i64::MIN));
}

#[test]
fn despawn_timer_expires_after_its_lifetime() {
    let mut d = DespawnCooldown::new(30_000, 1000);
    assert_eq!(d, DespawnCooldown { last_activity: 1000, ttl: 30_000 });
    assert!(!d.has_expired(1000));
    assert!(!d.has_expired(31_000));
    assert!(d.has_expired(31_001));
    d.register_activity(20_000);
    assert_eq!(d, DespawnCooldown { last_activity: 20_000, ttl: 30_000 });
    assert!(!d.has_expired(50_000));
    assert!(d.has_expired(50_001));
}

#[test]
fn despawn_timer_at_the_ends_of_time() {
    let d = DespawnCooldown { last_activity: i64::MIN, ttl: i64::MAX };
    assert!(d.has_expired(i64::MAX));
    assert!(!d.has_expired(-2));
}

#[test]
fn hunger_timer_is_due_from_its_time_on() {
    assert!(HungerTimer(10).is_due(10));
    assert!(HungerTimer(10).is_due(11));
    assert!(!HungerTimer(10).is_due(9));
}

#[test]
fn animations_have_the_names_the_host_knows() {
    assert_eq!(Animation::KnifeSlash.name(), "KnifeSlash");
    assert_eq!(Animation::Eating.name(), "Eating");
    assert_eq!(Animation::EatingDone.name(), "EatingDone");
}

#[test]
fn character_id_duplicate_is_equal() {
    assert_eq!(name("abc").duplicate().0, "abc");
}

#[test]
fn world_gives_identifiers_in_order_and_never_again() {
    let mut w = World::new();
    assert_eq!(w.len(), 0);
    let a = w.spawn(EntityRecord::new(EntityHandle(1), EntityKind::Player, pos(0, 0, 0), None));
    let b = w.spawn(EntityRecord::new(EntityHandle(2), EntityKind::Deer, pos(0, 0, 0), None));
    assert_eq!(a, Some(0));
    assert_eq!(b, Some(1));
    assert!(w.despawn(1));
    assert!(!w.despawn(1));
    assert!(!w.contains(1));
    let c = w.spawn(EntityRecord::new(EntityHandle(3), EntityKind::Wolf, pos(0, 0, 0), None));
    assert_eq!(c, Some(2));
    assert_eq!(w.len(), 2);
    assert_eq!(w.index_of(0), Some(0));
    assert_eq!(w.index_of(2), Some(1));
    assert_eq!(w.index_of(1), None);
    assert_eq!(w.get(2).unwrap().handle, EntityHandle(3));
    assert!(w.get(7).is_none());
}

#[test]
fn world_refuses_when_identifiers_have_run_out() {
    let mut w = World::new();
    w.next_id = u64::MAX;
    let id = w.spawn(EntityRecord::new(EntityHandle(1), EntityKind::Player, pos(0, 0, 0), None));
    assert_eq!(id, None);
    assert_eq!(w.len(), 0);
    assert_eq!(w.next_id, u64::MAX);
}

#[test]
fn spawned_entity_is_alive_and_just_placed() {
    let mut w = World::new();
    let mut record = EntityRecord::new(EntityHandle(9), EntityKind::Bear, pos(1, 2, 3), Some(name("b")));
    record.id = 77;
    let id = w.spawn(record).unwrap();
    let e = w.get(id).unwrap();
    assert_eq!(e.id, 0);
    assert_eq!(e.life, Life::Alive);
    assert!(e.moved);
    assert_eq!(e.position, pos(1, 2, 3));
    assert_eq!(e.kind, EntityKind::Bear);
    assert!(e.is_attacking.is_none() && e.eating.is_none() && e.hunger_level.is_none());
    assert_eq!(e.character_id.as_ref().unwrap().0, "b");
}

#[test]
fn query_gives_matching_identifiers_in_spawn_order() {
    let (ai, ids) = manager_with(&[
        (EntityType::Player, pos(0, 0, 0)),
        (EntityType::Zombie, pos(0, 0, 0)),
        (EntityType::Deer, pos(0, 0, 0)),
        (EntityType::Wolf, pos(0, 0, 0)),
        (EntityType::Screamer, pos(0, 0, 0)),
    ]);
    let hostile = Filter { hostile_to_player: Presence::With, ..Filter::any() };
    assert_eq!(ai.world.query(&hostile), vec![ids[1], ids[3], ids[4]]);
    let peaceful = Filter { hostile_to_player: Presence::Without, alive: Presence::With, ..Filter::any() };
    assert_eq!(ai.world.query(&peaceful), vec![ids[0], ids[2]]);
    let zombies = Filter { zombie: Presence::With, carnivore: Presence::Without, ..Filter::any() };
    assert_eq!(ai.world.query(&zombies), vec![ids[4]]);
    assert_eq!(ai.world.query(&Filter::any()), ids);
    let nobody = Filter { alive: Presence::With, dead: Presence::With, ..Filter::any() };
    assert_eq!(ai.world.query(&nobody), Vec::<u64>::new());
}

#[test]
fn first_near_finds_the_first_match_in_spawn_order() {
    let (ai, _) = manager_with(&[
        (EntityType::Zombie, pos(0, 0, 0)),
        (EntityType::Player, pos(5000, 0, 0)),
        (EntityType::Player, pos(1000, 0, 0)),
        (EntityType::Player, pos(100, 0, 0)),
    ]);
    let players = Filter { player: Presence::With, ..Filter::any() };
    assert_eq!(ai.world.first_near(&players, &pos(0, 0, 0), 1500), Some(2));
    assert_eq!(ai.world.first_near(&players, &pos(0, 0, 0), 500), Some(3));
    assert_eq!(ai.world.first_near(&players, &pos(0, 0, 0), 50), None);
    assert_eq!(ai.world.first_near(&Filter::any(), &pos(0, 0, 0), 50), Some(0));
}

#[test]
fn add_entity_sets_the_tags_of_each_sort() {
    let (ai, ids) = manager_with(&[
        (EntityType::Player, pos(0, 0, 0)),
        (EntityType::Zombie, pos(0, 0, 0)),
        (EntityType::Screamer, pos(0, 0, 0)),
        (EntityType::Wolf, pos(0, 0, 0)),
        (EntityType::Bear, pos(0, 0, 0)),
        (EntityType::Deer, pos(0, 0, 0)),
    ]);
    let tags = |id: u64| {
        let e = ai.world.get(id).unwrap();
        (e.kind, e.hostile_to_player, e.coward, e.carnivore, e.hunger_level)
    };
    assert_eq!(tags(ids[0]), (EntityKind::Player, false, false, false, None));
    assert_eq!(tags(ids[1]), (EntityKind::Zombie, true, false, true, Some(HungerLevel(0))));
    assert_eq!(tags(ids[2]), (EntityKind::Zombie, true, false, false, None));
    assert_eq!(tags(ids[3]), (EntityKind::Wolf, true, false, false, None));
    assert_eq!(tags(ids[4]), (EntityKind::Bear, true, false, false, None));
    assert_eq!(tags(ids[5]), (EntityKind::Deer, false, true, false, None));
    assert_eq!(ai.get_stats().entities, 6);
    assert_eq!(ai.world.get(ids[3]).unwrap().handle, EntityHandle(103));
    assert_eq!(ai.world.get(ids[3]).unwrap().character_id.as_ref().unwrap().0, "char3");
}

#[test]
fn initialize_allows_zombies_only_on_some_true() {
    assert!(AiManager::initialize_at(Some(true), 5).allow_zombies);
    assert!(!AiManager::initialize_at(Some(false), 5).allow_zombies);
    assert!(!AiManager::initialize_at(None, 5).allow_zombies);
    let ai = AiManager::initialize_at(None, 5);
    assert_eq!(ai.hunger_timer, HungerTimer(5));
    assert_eq!(ai.get_stats().entities, 0);
    assert!(ai.navmesh.is_none());
    let ai = AiManager::initialize(Some(true));
    assert!(ai.allow_zombies);
    assert!(ai.hunger_timer.0 > 1_600_000_000_000);
}

#[test]
fn unknown_identifiers_are_reported() {
    let (mut ai, ids) = manager_with(&[(EntityType::Player, pos(0, 0, 0))]);
    assert!(!ai.update_pos(99, pos(1, 1, 1)));
    assert!(!ai.entity_dead(99));
    assert!(!ai.entity_alive(99));
    assert!(!ai.remove_entity(99));
    assert_eq!(ai.get_stats().entities, 1);
    assert!(ai.remove_entity(ids[0]));
    assert!(!ai.remove_entity(ids[0]));
    assert!(!ai.update_pos(ids[0], pos(1, 1, 1)));
    assert_eq!(ai.get_stats().entities, 0);
}

#[test]
fn update_pos_marks_moved_only_on_a_new_position() {
    let (mut ai, ids) = manager_with(&[(EntityType::Player, pos(0, 0, 0))]);
    ai.world.settle();
    assert!(!ai.world.get(ids[0]).unwrap().moved);
    assert!(ai.update_pos(ids[0], pos(0, 0, 0)));
    assert!(!ai.world.get(ids[0]).unwrap().moved);
    assert!(ai.update_pos(ids[0], pos(0, 1, 0)));
    assert!(ai.world.get(ids[0]).unwrap().moved);
    assert_eq!(ai.world.get(ids[0]).unwrap().position, pos(0, 1, 0));
}

#[test]
fn entity_dead_and_alive_flip_the_state() {
    let (mut ai, ids) = manager_with(&[(EntityType::Player, pos(0, 0, 0))]);
    assert!(ai.entity_dead(ids[0]));
    assert_eq!(ai.world.get(ids[0]).unwrap().life, Life::Dead);
    assert!(ai.entity_dead(ids[0]));
    assert_eq!(ai.world.get(ids[0]).unwrap().life, Life::Dead);
    assert!(ai.entity_alive(ids[0]));
    assert_eq!(ai.world.get(ids[0]).unwrap().life, Life::Alive);
}

#[test]
fn hungry_tag_has_hysteresis() {
    let (mut ai, ids) = manager_with(&[(EntityType::Zombie, pos(0, 0, 0))]);
    let z = ids[0];
    let set = |ai: &mut AiManager, level: u8| {
        let k = ai.world.index_of(z).unwrap();
        ai.world.entities[k].hunger_level = Some(HungerLevel(level));
        hungry_sys(&mut ai.world);
        remove_hungry_sys(&mut ai.world);
        ai.world.entities[k].hungry
    };
    assert!(!set(&mut ai, 10));
    assert!(set(&mut ai, 9));
    assert!(set(&mut ai, 30));
    assert!(set(&mut ai, 50));
    assert!(!set(&mut ai, 51));
    assert!(!set(&mut ai, 30));
    assert!(!set(&mut ai, 10));
    assert!(set(&mut ai, 0));
}

#[test]
fn hungry_systems_leave_the_dead_alone() {
    let (mut ai, ids) = manager_with(&[(EntityType::Zombie, pos(0, 0, 0))]);
    ai.entity_dead(ids[0]);
    hungry_sys(&mut ai.world);
    assert!(!ai.world.get(ids[0]).unwrap().hungry);
    ai.world.entities[0].hungry = true;
    ai.world.entities[0].hunger_level = Some(HungerLevel(90));
    remove_hungry_sys(&mut ai.world);
    assert!(ai.world.get(ids[0]).unwrap().hungry);
}

#[test]
fn hunger_decays_once_per_interval() {
    let (mut ai, ids) = manager_with(&[(EntityType::Zombie, pos(0, 0, 0))]);
    ai.world.entities[0].hunger_level = Some(HungerLevel(100));
    let mut timer = HungerTimer(1_000_000);
    let level = |ai: &AiManager| ai.world.get(ids[0]).unwrap().hunger_level.unwrap().0;
    hunger_sys(&mut ai.world, &mut timer, 999_999);
    assert_eq!((level(&ai), timer), (100, HungerTimer(1_000_000)));
    hunger_sys(&mut ai.world, &mut timer, 1_000_000);
    assert_eq!((level(&ai), timer), (99, HungerTimer(1_010_000)));
    hunger_sys(&mut ai.world, &mut timer, 1_000_001);
    hunger_sys(&mut ai.world, &mut timer, 1_009_999);
    assert_eq!((level(&ai), timer), (99, HungerTimer(1_010_000)));
    hunger_sys(&mut ai.world, &mut timer, 1_012_345);
    assert_eq!((level(&ai), timer), (98, HungerTimer(1_022_345)));
}

#[test]
fn hunger_from_full_reaches_zero_and_stays() {
    let (mut ai, ids) = manager_with(&[(EntityType::Zombie, pos(0, 0, 0))]);
    ai.world.entities[0].hunger_level = Some(HungerLevel(100));
    let mut timer = HungerTimer(0);
    for n in 1..=120i64 {
        hunger_sys(&mut ai.world, &mut timer, n * 10_000);
        let expected = std::cmp::max(0, 100 - n) as u8;
        assert_eq!(ai.world.get(ids[0]).unwrap().hunger_level, Some(HungerLevel(expected)));
    }
}

#[test]
fn hunger_does_not_grow_in_the_dead() {
    let (mut ai, ids) = manager_with(&[(EntityType::Zombie, pos(0, 0, 0))]);
    ai.world.entities[0].hunger_level = Some(HungerLevel(40));
    ai.entity_dead(ids[0]);
    let mut timer = HungerTimer(0);
    hunger_sys(&mut ai.world, &mut timer, 5);
    assert_eq!(ai.world.get(ids[0]).unwrap().hunger_level, Some(HungerLevel(40)));
    assert_eq!(timer, HungerTimer(10_005));
}

#[test]
fn hostile_engages_the_first_living_player_in_range() {
    let (mut ai, ids) = manager_with(&[
        (EntityType::Player, pos(9000, 0, 0)),
        (EntityType::Wolf, pos(0, 0, 0)),
        (EntityType::Player, pos(1500, 50_000, -1500)),
        (EntityType::Player, pos(0, 0, 0)),
    ]);
    let mut out = Vec::new();
    hostile_to_player_sys(&mut ai.world, 2000, &mut out);
    assert_eq!(
        ai.world.get(ids[1]).unwrap().is_attacking,
        Some(IsAttacking { target: ids[2], time_to_hit: 3000 })
    );
    assert_eq!(out.len(), 1);
    match &out[0] {
        HostCommand::PlayAnimation { handle, animation } => {
            assert_eq!(*handle, EntityHandle(101));
            assert_eq!(*animation, Animation::KnifeSlash);
        }
        other => panic!("unexpected command {:?}", other),
    }
    hostile_to_player_sys(&mut ai.world, 2500, &mut out);
    assert_eq!(out.len(), 1);
    assert_eq!(
        ai.world.get(ids[1]).unwrap().is_attacking,
        Some(IsAttacking { target: ids[2], time_to_hit: 3000 })
    );
}

#[test]
fn hostile_ignores_dead_and_distant_players() {
    let (mut ai, ids) = manager_with(&[
        (EntityType::Zombie, pos(0, 0, 0)),
        (EntityType::Player, pos(100, 0, 0)),
        (EntityType::Player, pos(1501, 0, 0)),
        (EntityType::Deer, pos(0, 0, 0)),
    ]);
    ai.entity_dead(ids[1]);
    let mut out = Vec::new();
    hostile_to_player_sys(&mut ai.world, 2000, &mut out);
    assert!(out.is_empty());
    assert_eq!(ai.world.get(ids[0]).unwrap().is_attacking, None);
    ai.entity_alive(ids[1]);
    ai.entity_dead(ids[0]);
    hostile_to_player_sys(&mut ai.world, 2000, &mut out);
    assert!(out.is_empty());
}

#[test]
fn attack_never_lands_before_its_time() {
    let (mut ai, ids) = manager_with(&[
        (EntityType::Zombie, pos(0, 0, 0)),
        (EntityType::Player, pos(1000, 0, 0)),
    ]);
    let mut out = Vec::new();
    hostile_to_player_sys(&mut ai.world, 2000, &mut out);
    out.clear();
    attack_hit_sys(&mut ai.world, 2000, &mut out);
    attack_hit_sys(&mut ai.world, 2999, &mut out);
    assert!(out.is_empty());
    assert!(ai.world.get(ids[0]).unwrap().is_attacking.is_some());
    attack_hit_sys(&mut ai.world, 3000, &mut out);
    assert_eq!(out.len(), 1);
    match &out[0] {
        HostCommand::ApplyDamage { handle, character_id } => {
            assert_eq!(*handle, EntityHandle(100));
            assert_eq!(character_id.0, "char1");
        }
        other => panic!("unexpected command {:?}", other),
    }
    assert!(ai.world.get(ids[0]).unwrap().is_attacking.is_none());
    attack_hit_sys(&mut ai.world, 4000, &mut out);
    assert_eq!(out.len(), 1);
}

#[test]
fn attack_misses_a_target_that_moved_away() {
    let (mut ai, ids) = manager_with(&[
        (EntityType::Zombie, pos(0, 0, 0)),
        (EntityType::Player, pos(1000, 0, 0)),
    ]);
    let mut out = Vec::new();
    hostile_to_player_sys(&mut ai.world, 2000, &mut out);
    out.clear();
    ai.update_pos(ids[1], pos(1000, 0, 1501));
    attack_hit_sys(&mut ai.world, 3000, &mut out);
    assert!(out.is_empty());
    assert!(ai.world.get(ids[0]).unwrap().is_attacking.is_none());
}

#[test]
fn attack_misses_a_target_that_died_or_left() {
    let (mut ai, ids) = manager_with(&[
        (EntityType::Zombie, pos(0, 0, 0)),
        (EntityType::Player, pos(1000, 0, 0)),
        (EntityType::Wolf, pos(0, 0, 0)),
        (EntityType::Player, pos(0, 0, 0)),
    ]);
    let mut out = Vec::new();
    hostile_to_player_sys(&mut ai.world, 2000, &mut out);
    assert_eq!(out.len(), 2);
    out.clear();
    ai.entity_dead(ids[1]);
    ai.remove_entity(ids[3]);
    ai.world.entities[2].is_attacking = Some(IsAttacking { target: ids[3], time_to_hit: 3000 });
    attack_hit_sys(&mut ai.world, 5000, &mut out);
    assert!(out.is_empty());
    assert!(ai.world.get(ids[0]).unwrap().is_attacking.is_none());
    assert!(ai.world.get(ids[2]).unwrap().is_attacking.is_none());
}

#[test]
fn attack_of_a_dead_attacker_waits() {
    let (mut ai, ids) = manager_with(&[
        (EntityType::Zombie, pos(0, 0, 0)),
        (EntityType::Player, pos(1000, 0, 0)),
    ]);
    let mut out = Vec::new();
    hostile_to_player_sys(&mut ai.world, 2000, &mut out);
    out.clear();
    ai.entity_dead(ids[0]);
    attack_hit_sys(&mut ai.world, 9000, &mut out);
    assert!(out.is_empty());
    assert!(ai.world.get(ids[0]).unwrap().is_attacking.is_some());
}

#[test]
fn attack_started_in_a_tick_is_not_resolved_in_it() {
    let (mut ai, ids) = manager_with(&[
        (EntityType::Wolf, pos(0, 0, 0)),
        (EntityType::Player, pos(1000, 0, 0)),
    ]);
    let tick = ai.run_at(2_000_000);
    assert_eq!(tick.commands.len(), 1);
    assert!(matches!(tick.commands[0], HostCommand::PlayAnimation { .. }));
    assert_eq!(
        ai.world.get(ids[0]).unwrap().is_attacking,
        Some(IsAttacking { target: ids[1], time_to_hit: 2_001_000 })
    );
    let tick = ai.run_at(2_000_999);
    assert!(tick.commands.is_empty());
    let tick = ai.run_at(2_001_000);
    assert_eq!(tick.commands.len(), 1);
    assert!(matches!(tick.commands[0], HostCommand::ApplyDamage { .. }));
    assert!(ai.world.get(ids[0]).unwrap().is_attacking.is_none());
}

fn hungry_zombie_by_a_corpse() -> (AiManager, Vec<u64>) {
    let (mut ai, ids) = manager_with(&[
        (EntityType::Player, pos(1000, 0, 0)),
        (EntityType::Zombie, pos(0, 0, 0)),
        (EntityType::Player, pos(-1000, 0, 0)),
    ]);
    ai.entity_dead(ids[0]);
    ai.entity_dead(ids[2]);
    ai.world.entities[1].hungry = true;
    (ai, ids)
}

#[test]
fn carnivore_starts_to_eat_once() {
    let (mut ai, ids) = hungry_zombie_by_a_corpse();
    let mut out = Vec::new();
    carnivore_eating_sys(&mut ai.world, 7000, &mut out);
    assert_eq!(ai.world.get(ids[1]).unwrap().eating, Some(Eating { time: 7000 }));
    assert_eq!(out.len(), 1);
    match &out[0] {
        HostCommand::PlayAnimation { handle, animation } => {
            assert_eq!(*handle, EntityHandle(101));
            assert_eq!(*animation, Animation::Eating);
        }
        other => panic!("unexpected command {:?}", other),
    }
    carnivore_eating_sys(&mut ai.world, 8000, &mut out);
    assert_eq!(out.len(), 1);
    assert_eq!(ai.world.get(ids[1]).unwrap().eating, Some(Eating { time: 7000 }));
}

#[test]
fn carnivore_does_not_eat_unless_hungry_and_near_a_dead_player() {
    let (mut ai, ids) = hungry_zombie_by_a_corpse();
    let mut out = Vec::new();
    ai.world.entities[1].hungry = false;
    carnivore_eating_sys(&mut ai.world, 7000, &mut out);
    ai.world.entities[1].hungry = true;
    ai.entity_alive(ids[0]);
    ai.entity_alive(ids[2]);
    carnivore_eating_sys(&mut ai.world, 7000, &mut out);
    ai.entity_dead(ids[0]);
    ai.update_pos(ids[0], pos(1501, 0, 0));
    carnivore_eating_sys(&mut ai.world, 7000, &mut out);
    assert!(out.is_empty());
    assert!(ai.world.get(ids[1]).unwrap().eating.is_none());
}

#[test]
fn meal_ends_after_its_duration_and_fills() {
    let (mut ai, ids) = hungry_zombie_by_a_corpse();
    let mut out = Vec::new();
    carnivore_eating_sys(&mut ai.world, 7000, &mut out);
    out.clear();
    finish_eating_sys(&mut ai.world, 7000, &mut out);
    finish_eating_sys(&mut ai.world, 16_999, &mut out);
    assert!(out.is_empty());
    assert_eq!(ai.world.get(ids[1]).unwrap().eating, Some(Eating { time: 7000 }));
    assert_eq!(ai.world.get(ids[1]).unwrap().hunger_level, Some(HungerLevel(0)));
    finish_eating_sys(&mut ai.world, 17_000, &mut out);
    assert_eq!(out.len(), 1);
    match &out[0] {
        HostCommand::PlayAnimation { handle, animation } => {
            assert_eq!(*handle, EntityHandle(101));
            assert_eq!(*animation, Animation::EatingDone);
        }
        other => panic!("unexpected command {:?}", other),
    }
    assert_eq!(ai.world.get(ids[1]).unwrap().eating, None);
    assert_eq!(ai.world.get(ids[1]).unwrap().hunger_level, Some(HungerLevel(100)));
}

#[test]
fn meal_of_the_dead_does_not_end() {
    let (mut ai, ids) = hungry_zombie_by_a_corpse();
    let mut out = Vec::new();
    carnivore_eating_sys(&mut ai.world, 7000, &mut out);
    out.clear();
    ai.entity_dead(ids[1]);
    finish_eating_sys(&mut ai.world, 99_000, &mut out);
    assert!(out.is_empty());
    assert!(ai.world.get(ids[1]).unwrap().eating.is_some());
}

#[test]
fn meal_at_the_end_of_time_does_not_overflow() {
    let (mut ai, ids) = hungry_zombie_by_a_corpse();
    ai.world.entities[1].eating = Some(Eating { time: i64::MAX });
    let mut out = Vec::new();
    finish_eating_sys(&mut ai.world, i64::MAX, &mut out);
    assert!(out.is_empty());
    assert!(ai.world.get(ids[1]).unwrap().eating.is_some());
}

#[test]
fn coward_flees_from_the_first_moving_threat() {
    let (mut ai, ids) = manager_with(&[
        (EntityType::Deer, pos(0, 0, 0)),
        (EntityType::Deer, pos(100, 0, 0)),
        (EntityType::Player, pos(2001, 0, 0)),
        (EntityType::Wolf, pos(2000, 0, -2000)),
        (EntityType::Player, pos(0, 0, 0)),
    ]);
    assert_eq!(
        coward_sys(&ai.world),
        vec![
            FleeSignal { coward: ids[0], threat: ids[3] },
            FleeSignal { coward: ids[1], threat: ids[2] },
        ]
    );
    ai.world.settle();
    assert_eq!(coward_sys(&ai.world), Vec::<FleeSignal>::new());
    ai.update_pos(ids[4], pos(0, 0, 1));
    ai.entity_dead(ids[1]);
    assert_eq!(coward_sys(&ai.world), vec![FleeSignal { coward: ids[0], threat: ids[4] }]);
    ai.entity_dead(ids[4]);
    assert_eq!(coward_sys(&ai.world), Vec::<FleeSignal>::new());
}

#[test]
fn liveness_follows_the_host_reports() {
    let (mut ai, ids) = manager_with(&[
        (EntityType::Player, pos(0, 0, 0)),
        (EntityType::Player, pos(0, 0, 0)),
        (EntityType::Player, pos(0, 0, 0)),
        (EntityType::Player, pos(0, 0, 0)),
    ]);
    ai.entity_dead(ids[1]);
    ai.entity_dead(ids[3]);
    let reports = vec![
        HostReport { id: ids[0], position: None, is_alive: Some(false) },
        HostReport { id: ids[1], position: None, is_alive: Some(true) },
        HostReport { id: ids[2], position: None, is_alive: None },
        HostReport { id: ids[0], position: None, is_alive: Some(true) },
        HostReport { id: 999, position: None, is_alive: Some(false) },
    ];
    let lives = |ai: &AiManager| ai.world.entities.iter().map(|e| e.life).collect::<Vec<_>>();
    check_aliveness_sys(&mut ai.world, &reports);
    assert_eq!(lives(&ai), vec![Life::Dead, Life::Dead, Life::Alive, Life::Dead]);
    check_player_revived_sys(&mut ai.world, &reports);
    assert_eq!(lives(&ai), vec![Life::Dead, Life::Alive, Life::Alive, Life::Dead]);
    check_player_revived_sys(&mut ai.world, &reports);
    check_aliveness_sys(&mut ai.world, &reports);
    assert_eq!(lives(&ai), vec![Life::Dead, Life::Alive, Life::Alive, Life::Dead]);
}

#[test]
fn positions_follow_the_host_reports() {
    let (mut ai, ids) = manager_with(&[
        (EntityType::Player, pos(0, 0, 0)),
        (EntityType::Player, pos(5, 5, 5)),
        (EntityType::Player, pos(7, 7, 7)),
    ]);
    ai.world.settle();
    ai.entity_dead(ids[2]);
    let reports = vec![
        HostReport { id: ids[0], position: Some(pos(1, 2, 3)), is_alive: None },
        HostReport { id: ids[1], position: Some(pos(5, 5, 5)), is_alive: None },
        HostReport { id: ids[2], position: Some(pos(9, 9, 9)), is_alive: None },
    ];
    track_positions(&mut ai.world, &reports);
    let seen: Vec<(Position, bool)> = ai.world.entities.iter().map(|e| (e.position, e.moved)).collect();
    assert_eq!(seen, vec![(pos(1, 2, 3), true), (pos(5, 5, 5), false), (pos(7, 7, 7), false)]);
}

fn trap_world() -> (AiManager, u64, Vec<u64>) {
    let mut ai = AiManager::initialize_at(Some(true), 0);
    let trap = ai.add_trap_at(EntityHandle(1), pos(0, 0, 0), 2000, 5000, Some(30_000), 100_000).unwrap();
    let a = ai.add_entity(EntityHandle(2), EntityType::Player, pos(9000, 0, 0), name("a")).unwrap();
    let b = ai.add_entity(EntityHandle(3), EntityType::Player, pos(9000, 0, 0), name("b")).unwrap();
    ai.world.settle();
    (ai, trap, vec![a, b])
}

#[test]
fn add_trap_sets_radius_and_timers() {
    let (ai, trap, _) = trap_world();
    let e = ai.world.get(trap).unwrap();
    assert_eq!(e.kind, EntityKind::Trap(Trap(2000)));
    assert_eq!(e.cooldown, Some(Cooldown { last: 0, cooldown: 5000 }));
    assert_eq!(e.despawn_cooldown, Some(DespawnCooldown { last_activity: 100_000, ttl: 30_000 }));
    assert!(e.character_id.is_none());
    assert_eq!(e.life, Life::Alive);
    let mut ai = AiManager::initialize_at(None, 0);
    let id = ai.add_trap(EntityHandle(1), pos(0, 0, 0), 10, 20, None).unwrap();
    assert_eq!(ai.world.get(id).unwrap().despawn_cooldown, None);
    let id = ai.add_trap(EntityHandle(1), pos(0, 0, 0), 10, 20, Some(7)).unwrap();
    let timer = ai.world.get(id).unwrap().despawn_cooldown.unwrap();
    assert_eq!(timer.ttl, 7);
    assert!(timer.last_activity > 1_600_000_000_000);
}

#[test]
fn trap_goes_off_once_then_rests_for_its_cooldown() {
    let (mut ai, trap, ids) = trap_world();
    let mut out = Vec::new();
    trap_sys(&mut ai.world, 100_000, &mut out);
    assert!(out.is_empty());
    ai.update_pos(ids[0], pos(2000, 0, -2000));
    trap_sys(&mut ai.world, 100_000, &mut out);
    assert_eq!(out.len(), 1);
    match &out[0] {
        HostCommand::Detonate { handle, character_id } => {
            assert_eq!(*handle, EntityHandle(1));
            assert_eq!(character_id.0, "a");
        }
        other => panic!("unexpected command {:?}", other),
    }
    assert_eq!(ai.world.get(trap).unwrap().cooldown, Some(Cooldown { last: 100_000, cooldown: 5000 }));
    ai.world.settle();
    ai.update_pos(ids[1], pos(100, 0, 100));
    trap_sys(&mut ai.world, 101_000, &mut out);
    trap_sys(&mut ai.world, 104_999, &mut out);
    assert_eq!(out.len(), 1);
    trap_sys(&mut ai.world, 105_000, &mut out);
    assert_eq!(out.len(), 2);
    match &out[1] {
        HostCommand::Detonate { handle, character_id } => {
            assert_eq!(*handle, EntityHandle(1));
            assert_eq!(character_id.0, "b");
        }
        other => panic!("unexpected command {:?}", other),
    }
    assert_eq!(
        ai.world.get(trap).unwrap().despawn_cooldown,
        Some(DespawnCooldown { last_activity: 105_000, ttl: 30_000 })
    );
}

#[test]
fn trap_ignores_the_still_the_dead_and_the_nameless() {
    let (mut ai, _, ids) = trap_world();
    let mut out = Vec::new();
    ai.update_pos(ids[0], pos(100, 0, 0));
    ai.world.settle();
    trap_sys(&mut ai.world, 100_000, &mut out);
    ai.update_pos(ids[0], pos(200, 0, 0));
    ai.entity_dead(ids[0]);
    trap_sys(&mut ai.world, 100_000, &mut out);
    ai.add_trap_at(EntityHandle(9), pos(0, 0, 0), 1, 1, None, 0);
    trap_sys(&mut ai.world, 100_000, &mut out);
    assert!(out.is_empty());
}

#[test]
fn trap_without_despawn_timer_still_goes_off() {
    let mut ai = AiManager::initialize_at(None, 0);
    let trap = ai.add_trap_at(EntityHandle(1), pos(0, 0, 0), 2000, 5000, None, 0).unwrap();
    ai.add_entity(EntityHandle(2), EntityType::Deer, pos(10, 0, 10), name("d")).unwrap();
    let tick = ai.run_at(50_000);
    assert_eq!(tick.commands.len(), 1);
    assert!(matches!(tick.commands[0], HostCommand::Detonate { .. }));
    assert_eq!(ai.world.get(trap).unwrap().despawn_cooldown, None);
    assert!(tick.fleeing.is_empty());
}

#[test]
fn inactive_trap_is_destroyed_exactly_once() {
    let (mut ai, trap, _) = trap_world();
    let mut out = Vec::new();
    despawn_inactive(&mut ai.world, 130_000, &mut out);
    assert!(out.is_empty());
    assert!(ai.world.contains(trap));
    despawn_inactive(&mut ai.world, 130_001, &mut out);
    assert_eq!(out.len(), 1);
    match &out[0] {
        HostCommand::Destroy { handle } => assert_eq!(*handle, EntityHandle(1)),
        other => panic!("unexpected command {:?}", other),
    }
    assert!(!ai.world.contains(trap));
    assert_eq!(ai.world.len(), 2);
    despawn_inactive(&mut ai.world, 999_999, &mut out);
    assert_eq!(out.len(), 1);
    assert_eq!(ai.world.len(), 2);
}

#[test]
fn despawn_removes_every_lapsed_trap_and_keeps_the_order() {
    let mut ai = AiManager::initialize_at(None, 0);
    let t0 = ai.add_trap_at(EntityHandle(10), pos(0, 0, 0), 1, 1, Some(100), 0).unwrap();
    let p = ai.add_entity(EntityHandle(11), EntityType::Player, pos(0, 0, 0), name("p")).unwrap();
    let t1 = ai.add_trap_at(EntityHandle(12), pos(0, 0, 0), 1, 1, Some(100), 0).unwrap();
    let t2 = ai.add_trap_at(EntityHandle(13), pos(0, 0, 0), 1, 1, Some(900), 0).unwrap();
    let t3 = ai.add_trap_at(EntityHandle(14), pos(0, 0, 0), 1, 1, None, 0).unwrap();
    ai.world.entities[1].despawn_cooldown = Some(DespawnCooldown { last_activity: 0, ttl: 1 });
    let mut out = Vec::new();
    despawn_inactive(&mut ai.world, 500, &mut out);
    let handles: Vec<u64> = out
        .iter()
        .map(|c| match c {
            HostCommand::Destroy { handle } => handle.0,
            other => panic!("unexpected command {:?}", other),
        })
        .collect();
    assert_eq!(handles, vec![10, 12]);
    assert_eq!(ai.world.query(&Filter::any()), vec![p, t2, t3]);
    assert!(!ai.world.contains(t0) && !ai.world.contains(t1));
}

#[test]
fn tick_runs_traps_even_without_zombies() {
    let mut ai = AiManager::initialize_at(Some(false), 0);
    let z = ai.add_entity(EntityHandle(1), EntityType::Zombie, pos(0, 0, 0), name("z")).unwrap();
    ai.add_entity(EntityHandle(2), EntityType::Player, pos(0, 0, 0), name("p")).unwrap();
    let trap = ai.add_trap_at(EntityHandle(3), pos(0, 0, 0), 500, 1000, Some(10), 0).unwrap();
    let tick = ai.run_at(5000);
    assert_eq!(tick.commands.len(), 1);
    assert!(matches!(tick.commands[0], HostCommand::Detonate { .. }));
    assert!(ai.world.get(z).unwrap().is_attacking.is_none());
    assert!(!ai.world.get(z).unwrap().hungry);
    assert!(ai.world.contains(trap));
    assert!(ai.world.entities.iter().all(|e| !e.moved));
    let tick = ai.run_at(5011);
    assert_eq!(tick.commands.len(), 1);
    assert!(matches!(tick.commands[0], HostCommand::Destroy { .. }));
    assert!(!ai.world.contains(trap));
}

#[test]
fn tick_issues_commands_in_the_order_of_the_systems() {
    let mut ai = AiManager::initialize_at(Some(true), 0);
    let trap = ai.add_trap_at(EntityHandle(1), pos(0, 0, 0), 500, 1000, None, 0).unwrap();
    let z = ai.add_entity(EntityHandle(2), EntityType::Zombie, pos(0, 0, 0), name("z")).unwrap();
    let p = ai.add_entity(EntityHandle(3), EntityType::Player, pos(100, 0, 0), name("p")).unwrap();
    let d = ai.add_entity(EntityHandle(4), EntityType::Deer, pos(100, 0, 0), name("d")).unwrap();
    let tick = ai.run_at(5000);
    let kinds: Vec<&str> = tick
        .commands
        .iter()
        .map(|c| match c {
            HostCommand::PlayAnimation { .. } => "animation",
            HostCommand::Detonate { .. } => "detonate",
            HostCommand::ApplyDamage { .. } => "damage",
            HostCommand::GoTo { .. } => "goto",
            HostCommand::Destroy { .. } => "destroy",
        })
        .collect();
    assert_eq!(kinds, vec!["animation", "detonate"]);
    assert_eq!(tick.fleeing, vec![FleeSignal { coward: d, threat: trap }]);
    let zombie = ai.world.get(z).unwrap();
    assert!(zombie.hungry);
    assert_eq!(zombie.is_attacking, Some(IsAttacking { target: p, time_to_hit: 6000 }));
    assert_eq!(ai.hunger_timer, HungerTimer(15_000));
}

#[test]
fn two_runs_from_the_same_state_agree() {
    let build = || {
        let mut ai = AiManager::initialize_at(Some(true), 0);
        ai.add_trap_at(EntityHandle(1), pos(0, 0, 0), 500, 1000, Some(5), 0).unwrap();
        ai.add_entity(EntityHandle(2), EntityType::Zombie, pos(0, 0, 0), name("z")).unwrap();
        ai.add_entity(EntityHandle(3), EntityType::Player, pos(100, 0, 0), name("p")).unwrap();
        ai
    };
    let (mut a, mut b) = (build(), build());
    for now in [10i64, 2000, 5000, 20_000] {
        let (ta, tb) = (a.run_at(now), b.run_at(now));
        assert_eq!(format!("{:?}", ta), format!("{:?}", tb));
        assert_eq!(format!("{:?}", a.world.entities), format!("{:?}", b.world.entities));
    }
}

#[test]
fn run_reads_the_clock() {
    let mut ai = AiManager::initialize_at(Some(true), 0);
    ai.add_entity(EntityHandle(2), EntityType::Zombie, pos(0, 0, 0), name("z")).unwrap();
    ai.add_entity(EntityHandle(3), EntityType::Player, pos(100, 0, 0), name("p")).unwrap();
    let tick = ai.run().unwrap();
    assert_eq!(tick.commands.len(), 1);
    let attack = ai.world.entities[0].is_attacking.unwrap();
    assert!(attack.time_to_hit > 1_600_000_000_000);
    assert_eq!(ai.hunger_timer.0, attack.time_to_hit + 9000);
}

#[test]
fn clock_shows_a_time_of_this_century() {
    let now = h1emu_ai::clock::tick_time().unwrap();
    assert!(now > 1_600_000_000_000);
    assert!(now < 4_102_444_800_000);
}

#[test]
fn every_zombie_follows_every_player() {
    let (ai, _) = manager_with(&[
        (EntityType::Player, pos(0, 0, 0)),
        (EntityType::Zombie, pos(0, 0, 0)),
        (EntityType::Wolf, pos(0, 0, 0)),
        (EntityType::Screamer, pos(0, 0, 0)),
        (EntityType::Player, pos(0, 0, 0)),
    ]);
    let chase = |f: u64, l: u64| Chase { follower: EntityHandle(f), leader: EntityHandle(l) };
    assert_eq!(
        test_follow(&ai.world),
        vec![chase(101, 100), chase(101, 104), chase(103, 100), chase(103, 104)]
    );
    let (ai, _) = manager_with(&[(EntityType::Zombie, pos(0, 0, 0)), (EntityType::Deer, pos(0, 0, 0))]);
    assert_eq!(test_follow(&ai.world), Vec::<Chase>::new());
}

#[test]
fn get_gives_the_entity_of_that_name() {
    let (ai, ids) = manager_with(&[(EntityType::Player, pos(1, 2, 3)), (EntityType::Deer, pos(4, 5, 6))]);
    assert_eq!(ai.world.get(ids[1]).unwrap().position, pos(4, 5, 6));
    assert_eq!(ai.world.get(ids[0]).unwrap().position, pos(1, 2, 3));
    assert!(ai.world.get(2).is_none());
}

#[test]
fn reading_up_to_the_latest_tick_time_is_accepted() {
    assert_eq!(MAX_TICK_TIME, 0x7FFF_FFFF_FFFF_0000);
    assert_eq!(accept(0), Some(0));
    assert_eq!(accept(-5), Some(-5));
    assert_eq!(accept(1_700_000_000_000), Some(1_700_000_000_000));
    assert_eq!(accept(MAX_TICK_TIME), Some(MAX_TICK_TIME));
    assert_eq!(accept(MAX_TICK_TIME + 1), None);
    assert_eq!(accept(i64::MAX), None);
}

#[test]
fn tick_on_an_accepted_reading_is_the_tick_at_that_time() {
    let creatures = [(EntityType::Zombie, pos(0, 0, 0)), (EntityType::Player, pos(1000, 0, 0))];
    let (mut a, _) = manager_with(&creatures);
    let (mut b, _) = manager_with(&creatures);
    let by_reading = a.try_run_at(2_000_000).unwrap();
    let at_time = b.run_at(2_000_000);
    assert_eq!(format!("{:?}", by_reading.commands), format!("{:?}", at_time.commands));
    assert_eq!(by_reading.fleeing, at_time.fleeing);
    assert_eq!(by_reading.commands.len(), 1);
    assert_eq!(format!("{:?}", a.world.entities), format!("{:?}", b.world.entities));
    assert_eq!(a.hunger_timer, b.hunger_timer);
    assert_eq!(a.world.entities[0].is_attacking.unwrap().time_to_hit, 2_001_000);
}

#[test]
fn tick_on_a_reading_beyond_the_latest_tick_time_changes_nothing() {
    let (mut ai, _) = manager_with(&[
        (EntityType::Zombie, pos(0, 0, 0)),
        (EntityType::Player, pos(1000, 0, 0)),
    ]);
    let before = format!("{:?}", ai.world.entities);
    let timer = ai.hunger_timer;
    assert!(ai.try_run_at(MAX_TICK_TIME + 1).is_none());
    assert!(ai.try_run_at(i64::MAX).is_none());
    assert_eq!(format!("{:?}", ai.world.entities), before);
    assert_eq!(ai.hunger_timer, timer);
    assert!(ai.try_run_at(MAX_TICK_TIME).is_some());
}

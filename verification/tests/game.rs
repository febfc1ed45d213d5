use parts_unknown::action::{ActionData, EventData, Meta, Path, to_creature};
use parts_unknown::card::{Behavior, Card, CardKind, TargetSpec};
use parts_unknown::error::Error;
use parts_unknown::hex::Hex;
use parts_unknown::id_map::Id;
use parts_unknown::creature::Creature;
use parts_unknown::npc::{IntentKind, move_to_melee};
use parts_unknown::part::PartTag;
use parts_unknown::status::Status;
use parts_unknown::vec_set::VecSet;
use parts_unknown::world::{GameState, Scope, World};

fn h(x: i32, y: i32) -> Hex {
    Hex { x, y }
}

fn enemies(w: &World) -> Vec<Id<Creature>> {
    w.creatures().keys().iter().cloned().filter(|id| *id != w.player_id()).collect()
}

fn part_named(w: &World, cid: Id<Creature>, name: &str) -> parts_unknown::id_map::Id<parts_unknown::part::Part> {
    let c = w.creatures().get(&cid).unwrap();
    let (ids, parts) = c.parts.map();
    for i in 0..ids.len() {
        if parts[i].name == name {
            return ids[i];
        }
    }
    panic!("no part named {}", name);
}

#[test]
fn new_world_setup() {
    let w = World::new();
    assert_eq!(w.player_id().value(), 0);
    assert_eq!(w.creatures().len(), 3);
    assert_eq!(w.map().creature_hex(w.player_id()), Some(h(0, 0)));
    let es = enemies(&w);
    assert_eq!(w.map().creature_hex(es[0]), Some(h(-4, 1)));
    assert_eq!(w.map().creature_hex(es[1]), Some(h(4, -1)));
    let player = w.creatures().get(&w.player_id()).unwrap();
    assert_eq!(player.name, "Player");
    assert_eq!(player.hand.len(), 5);
    assert_eq!(player.draw.len(), 3);
    assert_eq!(player.cur_ap, 3);
    assert_eq!(player.cur_mp, 2);
    let mono = w.creatures().get(&es[0]).unwrap();
    assert_eq!(mono.name, "Monopod");
    assert_eq!(mono.npc.as_ref().unwrap().intent.name, "Kick");
    assert_eq!(w.state(), GameState::Play);
}

#[test]
fn execute_simple_actions() {
    let mut w = World::new();
    let pid = w.player_id();
    let es = w.execute(&Meta::new(ActionData::Nothing));
    assert_eq!(es.len(), 1);
    assert!(matches!(es[0].data, EventData::Nothing));
    let es = w.execute(&Meta::new(ActionData::Fail { description: "no".to_string() }));
    assert!(matches!(&es[0].data, EventData::Failed { description } if description == "no"));
    let es = w.execute(&to_creature(pid, ActionData::AddStatus { status: Status::Rage }));
    let sid = match es[0].data {
        EventData::StatusAdded { id } => id,
        _ => panic!("no status added"),
    };
    assert_eq!(w.creatures().get(&pid).unwrap().entity.status.len(), 1);
    let es = w.execute(&to_creature(pid, ActionData::RemoveStatus { id: sid }));
    assert!(matches!(es[0].data, EventData::StatusRemoved { .. }));
    let es = w.execute(&to_creature(pid, ActionData::RemoveStatus { id: sid }));
    assert!(matches!(&es[0].data, EventData::Failed { description } if description == "NoSuchStatus"));
    let es = w.execute(&Meta::new(ActionData::GainAP { ap: 1 }));
    assert!(matches!(&es[0].data, EventData::Failed { description } if description == "UnhandledAction"));
    let es = w.execute(&to_creature(Id::invalid(), ActionData::GainAP { ap: 1 }));
    assert!(matches!(&es[0].data, EventData::Failed { description } if description == "NoSuchCreature"));
    let es = w.execute(&to_creature(pid, ActionData::GainAP { ap: i32::MAX }));
    assert!(matches!(&es[0].data, EventData::Failed { description } if description == "InvalidAction"));
}

#[test]
fn move_player_one_step() {
    let mut w = World::new();
    let pid = w.player_id();
    let es = w.move_creature(pid, h(1, 0));
    assert_eq!(es.len(), 2);
    assert!(matches!(es[0].data, EventData::ChangeMP { delta: -1 }));
    assert!(matches!(es[1].data, EventData::Moved { .. }));
    assert_eq!(w.map().creature_hex(pid), Some(h(1, 0)));
    assert_eq!(w.creatures().get(&pid).unwrap().cur_mp, 1);
    // Three steps away with one move point left: the walk stops when the points run out.
    let es = w.move_creature(pid, h(1, -3));
    assert!(matches!(es.last().unwrap().data, EventData::Failed { .. }));
    let es = w.move_creature(pid, h(9, 9));
    assert!(matches!(&es[0].data, EventData::Failed { description } if description == "OutOfBounds"));
    let es = w.move_creature(Id::invalid(), h(0, 0));
    assert!(matches!(&es[0].data, EventData::Failed { description } if description == "NoSuchCreature"));
}

#[test]
fn rage_scales_damage() {
    let mut w = World::new();
    let pid = w.player_id();
    let arm = part_named(&w, pid, "Arm");
    let source = Path::Part { cid: pid, pid: arm };
    let target = Path::Part { cid: enemies(&w)[0], pid: Id::invalid() };
    let scopes = [Scope::SourcePart, Scope::SourceCreature, Scope::World];
    assert_eq!(w.scale_damage(&source, &target, 10, &scopes), Some(10));
    w.execute(&to_creature(pid, ActionData::AddStatus { status: Status::Rage }));
    assert_eq!(w.scale_damage(&source, &target, 10, &scopes), Some(17));
    assert_eq!(w.scale_damage(&source, &target, 10, &[]), Some(10));
}

#[test]
fn start_play_errors_and_rage_card() {
    let mut w = World::new();
    let pid = w.player_id();
    assert!(matches!(w.start_play(Id::invalid(), 0, &[]), Err(Error::NoSuchCreature)));
    assert!(matches!(w.start_play(pid, 99, &[]), Err(Error::NoSuchCard)));
    let ip = w.start_play(pid, 0, &[]).unwrap();
    assert_eq!(ip.creature_id, pid);
    assert_eq!(ip.ap_cost, 1);
    assert!(ip.source().same(&Path::Part { cid: pid, pid: ip.part_id }));
    let hand_before = w.creatures().get(&pid).unwrap().hand.len();
    let target = match ip.behavior.target_spec() {
        TargetSpec::NoTarget => Path::Global,
        _ => Path::Global,
    };
    let events = w.finish_play(ip, &target);
    assert!(events.len() >= 2);
    assert!(matches!(events[0].data, EventData::Discarded));
    assert!(matches!(events[1].data, EventData::ChangeAP { delta: -1 }));
    let player = w.creatures().get(&pid).unwrap();
    assert_eq!(player.hand.len(), hand_before - 1);
    assert_eq!(player.discard.len(), 1);
    assert_eq!(player.cur_ap, 2);
}

#[test]
fn behaviors_check_their_targets() {
    let w = World::new();
    let pid = w.player_id();
    let enemy = enemies(&w)[0];
    let head = part_named(&w, pid, "Head");
    let arm = part_named(&w, pid, "Arm");
    let foot = part_named(&w, enemy, "Fut");
    let hed = part_named(&w, enemy, "Hed");
    let source = Path::Part { cid: pid, pid: arm };
    // Guard: another part of the player that is open.
    assert!(Behavior::Guard.target_valid(&w, &source, &Path::Part { cid: pid, pid: head }));
    assert!(!Behavior::Guard.target_valid(&w, &source, &source));
    assert!(!Behavior::Guard.target_valid(&w, &source, &Path::Part { cid: enemy, pid: foot }));
    // Heal: a hurt flesh part of the player.
    let heal = Behavior::Heal { amount: 5 };
    assert!(!heal.target_valid(&w, &source, &Path::Part { cid: pid, pid: head }));
    // Rage: the world.
    assert!(Behavior::Rage.target_valid(&w, &source, &Path::Global));
    assert!(!Behavior::Rage.target_valid(&w, &source, &Path::Creature { cid: pid }));
    // A punch reaches only the hexes around the player; the enemy is four away.
    let punch = Behavior::HitPart { damage: 10, tags: vec![vec![PartTag::Open]], range: VecSet::from_slice(&h(0, 0).neighbors()) };
    assert!(!punch.target_valid(&w, &source, &Path::Part { cid: enemy, pid: foot }));
    let far = Behavior::HitPart { damage: 10, tags: vec![vec![PartTag::Open]], range: VecSet::from_slice(&[h(-4, 1)]) };
    assert!(far.target_valid(&w, &source, &Path::Part { cid: enemy, pid: foot }));
    // The enemy's head is not open.
    assert!(!far.target_valid(&w, &source, &Path::Part { cid: enemy, pid: hed }));
    assert_eq!(punch.range(&source, &w).len(), 6);
    assert!(TargetSpec::Creature.matches(&w, &Path::Creature { cid: enemy }));
    assert!(!TargetSpec::Creature.matches(&w, &Path::Creature { cid: pid }));
}

#[test]
fn stagger_opens_a_part_until_the_player_turn_ends() {
    let mut w = World::new();
    let pid = w.player_id();
    let enemy = enemies(&w)[0];
    let leg = part_named(&w, pid, "Leg");
    let source = Path::Part { cid: pid, pid: leg };
    let events = Behavior::Stagger.apply(&mut w, &source, &Path::Creature { cid: enemy });
    let name = match &events[0].data {
        EventData::FloatText { text } => text.strip_prefix("Exposed: ").unwrap().to_string(),
        _ => panic!("no float text"),
    };
    assert!(name == "Hed" || name == "Fut");
    let chosen = part_named(&w, enemy, &name);
    assert!(events.iter().any(|e| matches!(e.data, EventData::StatusAdded { .. })));
    let mono = w.creatures().get(&enemy).unwrap();
    assert!(mono.parts.get(&chosen).unwrap().tags().contains(&PartTag::Open));
    assert_eq!(mono.parts.get(&chosen).unwrap().entity.status.len(), 1);
    let events = w.npc_turn();
    assert!(events.iter().any(|e| matches!(e.data, EventData::PlayerTurnEnd)));
    let mono = w.creatures().get(&enemy).unwrap();
    assert_eq!(mono.parts.get(&chosen).unwrap().entity.status.len(), 0);
    let hed = part_named(&w, enemy, "Hed");
    assert!(!mono.parts.get(&hed).unwrap().tags().contains(&PartTag::Open));
}

#[test]
fn guard_closes_a_part_until_the_enemy_turn_ends() {
    let mut w = World::new();
    let pid = w.player_id();
    let head = part_named(&w, pid, "Head");
    let arm = part_named(&w, pid, "Arm");
    let source = Path::Part { cid: pid, pid: arm };
    let events = Behavior::Guard.apply(&mut w, &source, &Path::Part { cid: pid, pid: head });
    assert_eq!(events.iter().filter(|e| matches!(e.data, EventData::StatusAdded { .. })).count(), 2);
    let player = w.creatures().get(&pid).unwrap();
    assert!(!player.parts.get(&head).unwrap().tags().contains(&PartTag::Open));
    let events = w.npc_turn();
    assert!(events.iter().any(|e| matches!(e.data, EventData::NpcTurnEnd)));
    let player = w.creatures().get(&pid).unwrap();
    assert!(player.parts.get(&head).unwrap().tags().contains(&PartTag::Open));
    assert_eq!(player.parts.get(&head).unwrap().entity.status.len(), 0);
    assert_eq!(player.parts.get(&arm).unwrap().cur_hp, 10);
}

#[test]
fn monopods_close_in_and_kick() {
    let mut w = World::new();
    let pid = w.player_id();
    let events = w.npc_turn();
    for e in enemies(&w) {
        let at = w.map().creature_hex(e).unwrap();
        assert_eq!(at.distance_to(h(0, 0)), 1);
    }
    let head = part_named(&w, pid, "Head");
    // Both kicks land on the open part with the fewest hit points: the head.
    assert!(w.creatures().get(&pid).unwrap().parts.get(&head).unwrap().cur_hp <= 0);
    assert!(events.iter().any(|e| matches!(e.data, EventData::Died)));
    assert_eq!(w.state(), GameState::Lost);
}

#[test]
fn killing_both_heads_wins() {
    let mut w = World::new();
    for e in enemies(&w) {
        let hed = part_named(&w, e, "Hed");
        w.execute(&Meta { source: Path::Global, target: Path::Part { cid: e, pid: hed }, tags: VecSet::new(), data: ActionData::Hit { damage: 50 } });
    }
    assert_eq!(w.state(), GameState::Won);
}

#[test]
fn melee_move_and_intents() {
    let mut w = World::new();
    let enemy = enemies(&w)[0];
    let es = move_to_melee(&mut w, enemy).unwrap();
    assert!(es.iter().any(|e| matches!(e.data, EventData::Moved { .. })));
    assert_eq!(w.map().creature_hex(enemy), Some(h(-1, 1)));
    assert!(move_to_melee(&mut w, enemy).unwrap().is_empty());
    let mono = w.creatures().get(&enemy).unwrap();
    let intent = mono.npc.as_ref().unwrap().intent.copy();
    assert!(intent.check(&w, enemy).is_ok());
    assert!(intent.kind.check(&w, enemy).is_ok());
    let scaled = w.scaled_intent(enemy).unwrap();
    assert!(matches!(scaled.kind, IntentKind::Attack { damage: 10, .. }));
    assert!(w.scaled_intent(w.player_id()).is_none());
    let r = intent.act(&mut w, enemy).unwrap();
    assert!(r.iter().any(|e| matches!(e.data, EventData::ChangeHP { delta: -10 })));
    // Out of action points now.
    assert!(matches!(intent.act(&mut w, enemy), Err(Error::NotEnough(_))));
}

#[test]
fn queries_for_display() {
    let w = World::new();
    let pid = w.player_id();
    let enemy = enemies(&w)[0];
    assert_eq!(w.creature_range(pid).len(), 1 + 6 + 12 - 6);
    assert!(w.creature_range(Id::invalid()).is_empty());
    assert!(w.check_spend_ap(pid, 3));
    assert!(!w.check_spend_ap(pid, 4));
    let head = part_named(&w, pid, "Head");
    assert!(w.is_playable(pid, head, 1));
    assert!(!w.is_playable(pid, head, 9));
    assert!(!w.is_playable(enemy, head, 9));
    let shade = w.shade_from(h(0, 0), pid, &[]);
    // With no lines of sight given, every other tile of empty ground is in shade.
    assert_eq!(shade.len(), 91 - 30 - 6 - 1);
}

#[test]
fn cards_of_the_library() {
    let c: Card = parts_unknown::library::card::throw_debris();
    assert_eq!(c.name, "Throw Debris");
    assert_eq!(c.kind, CardKind::ThrowDebris);
    assert_eq!(parts_unknown::library::card::heal().kind, CardKind::Heal);
    let p = parts_unknown::library::player::player();
    assert_eq!(p.parts.len(), 6);
    assert_eq!(p.all_cards().len(), 8);
}

#[test]
fn previews_leave_the_world_alone() {
    let w = World::new();
    let pid = w.player_id();
    let enemy = enemies(&w)[0];
    let leg = part_named(&w, pid, "Leg");
    let source = Path::Part { cid: pid, pid: leg };
    let mut scratch = w.duplicate();
    let events = Behavior::Stagger.preview(&mut scratch, &source, &Path::Creature { cid: enemy });
    assert_eq!(events.len(), 1);
    assert!(matches!(&events[0].data, EventData::FloatText { text } if text == "Stagger!"));
    assert!(matches!(events[0].target, Path::Creature { cid } if cid == enemy));
    let mono = scratch.creatures().get(&enemy).unwrap();
    assert!(mono.parts.values().iter().all(|p| p.entity.status.len() == 0));

    let mut scratch = w.duplicate();
    let events = Behavior::Rage.preview(&mut scratch, &source, &Path::Global);
    assert!(events.iter().any(|e| matches!(e.data, EventData::StatusAdded { .. })));
    assert_eq!(scratch.creatures().get(&pid).unwrap().entity.status.len(), 1);
    assert_eq!(w.creatures().get(&pid).unwrap().entity.status.len(), 0);
}

#[test]
fn ids_read_back_by_number() {
    let w = World::new();
    let pid = w.player_id();
    let again: Id<Creature> = Id::from_value(pid.value());
    assert!(again == pid);
    assert!(w.creatures().get(&again).is_some());
    assert!(w.creatures().get(&Id::from_value(4000)).is_none());
}

#[test]
fn enemy_turn_runs_in_order() {
    let mut w = World::new();
    let events = w.npc_turn();
    let player_end = events.iter().position(|e| matches!(e.data, EventData::PlayerTurnEnd)).unwrap();
    let npc_end = events.iter().position(|e| matches!(e.data, EventData::NpcTurnEnd)).unwrap();
    assert!(player_end < npc_end);
    assert_eq!(events.iter().filter(|e| matches!(e.data, EventData::NpcTurnEnd)).count(), 1);
    assert_eq!(events.iter().filter(|e| matches!(e.data, EventData::PlayerTurnEnd)).count(), 1);
    // The player's new hand is drawn before its turn ends.
    assert!(events[..player_end].iter().any(|e| matches!(e.data, EventData::Drew)));
}

#[test]
fn a_duplicate_changes_alone() {
    let w = World::new();
    let pid = w.player_id();
    let mut copy = w.duplicate();
    assert_eq!(copy.player_id(), pid);
    assert_eq!(copy.creatures().len(), w.creatures().len());
    assert_eq!(copy.map().creature_hex(pid), w.map().creature_hex(pid));
    assert_eq!(copy.creatures().get(&pid).unwrap().hand.len(), w.creatures().get(&pid).unwrap().hand.len());
    let events = copy.move_creature(pid, h(1, 0));
    assert!(!events.is_empty());
    assert_eq!(copy.map().creature_hex(pid), Some(h(1, 0)));
    assert_eq!(w.map().creature_hex(pid), Some(h(0, 0)));
}

#[test]
fn failures_describe_their_error() {
    let e = parts_unknown::action::Event::failed(Error::not_enough("AP"));
    assert!(matches!(&e.data, EventData::Failed { description } if description == "NotEnough(\"AP\")"));
    let odd = parts_unknown::action::Event::failed(Error::NotEnough("a\"b".to_string()));
    assert!(matches!(&odd.data, EventData::Failed { description } if description == "NotEnough(\"a\\\"b\")"));
    let plain = parts_unknown::action::Event::failed(Error::Obstructed);
    assert!(matches!(&plain.data, EventData::Failed { description } if description == "Obstructed"));
}

//! The player's creature.
use vstd::prelude::*;
use crate::card::{Card, CardKind};
use crate::creature::{Creature, CardId, Stat, abs_sum, all_card_ids, unbroken_sum};
use crate::id_map::IdMap;
use crate::library::card::{guard, punch, stagger, throw_debris};
use crate::part::{Part, PartTag, lemma_tag_list4};
use crate::status::Status;

verus! {

/// The card kinds a part holds, in order.
pub open spec fn card_kinds(p: Part) -> Seq<CardKind> {
    p.cards.value_seq().map_values(|c: Card| c.kind)
}

/// A part just built: sound, at full hit points `hp`, with these name, tags and stats,
/// holding one card of each kind of `kinds` in order, and no statuses.
pub open spec fn fresh_part(
    p: Part,
    name: Seq<char>,
    tags: Set<PartTag>,
    hp: int,
    thought: int,
    memory: int,
    mp: int,
    kinds: Seq<CardKind>,
) -> bool {
    &&& p.wf()
    &&& p.name@ == name
    &&& p.spec_tags() == tags
    &&& p.max_hp == hp
    &&& p.cur_hp == hp
    &&& p.thought == thought
    &&& p.memory == memory
    &&& p.mp == mp
    &&& card_kinds(p) == kinds
    &&& p.cards.id_seq().len() == kinds.len()
    &&& p.entity.status@ == Map::<u32, Status>::empty()
}

pub open spec fn head_tags() -> Set<PartTag> {
    set![PartTag::Head, PartTag::Flesh, PartTag::Vital, PartTag::Open]
}

pub open spec fn torso_tags() -> Set<PartTag> {
    set![PartTag::Torso, PartTag::Flesh, PartTag::Vital, PartTag::Open]
}

pub open spec fn arm_tags() -> Set<PartTag> {
    set![PartTag::Limb, PartTag::Flesh, PartTag::Arm, PartTag::Open]
}

pub open spec fn leg_tags() -> Set<PartTag> {
    set![PartTag::Limb, PartTag::Flesh, PartTag::Leg, PartTag::Open]
}

/// The player's body and points as `player` builds them, whatever its piles hold: parts
/// numbered 0 to 5 (head, torso, two arms, two legs), three action points, a hand of
/// five and two move points, all of them full.
pub open spec fn is_player_body(c: Creature) -> bool {
    let ps = c.part_seq();
    &&& c.wf()
    &&& c.name@ == "Player"@
    &&& c.npc is None
    &&& !c.dead
    &&& c.parts.key_seq() == seq![0u32, 1u32, 2u32, 3u32, 4u32, 5u32]
    &&& ps.len() == 6
    &&& fresh_part(ps[0], "Head"@, head_tags(), 20, 3, 5, 0, Seq::empty())
    &&& fresh_part(ps[1], "Torso"@, torso_tags(), 50, 0, 0, 0, Seq::empty())
    &&& fresh_part(ps[2], "Arm"@, arm_tags(), 30, 0, 0, 0, seq![CardKind::ThrowDebris, CardKind::Punch, CardKind::Guard])
    &&& fresh_part(ps[3], "Arm"@, arm_tags(), 30, 0, 0, 0, seq![CardKind::ThrowDebris, CardKind::Punch, CardKind::Guard])
    &&& fresh_part(ps[4], "Leg"@, leg_tags(), 30, 0, 0, 1, seq![CardKind::Stagger])
    &&& fresh_part(ps[5], "Leg"@, leg_tags(), 30, 0, 0, 1, seq![CardKind::Stagger])
    &&& c.spec_max_ap() == 3
    &&& c.spec_hand_size() == 5
    &&& c.spec_max_mp() == 2
    &&& c.cur_ap == 3
    &&& c.cur_mp == 2
    &&& c.entity.status@ == Map::<u32, Status>::empty()
}

/// The player as `player` returns it: its body, an empty hand and discard pile, and a
/// draw pile of eight that holds each card of its parts once, in some order.
pub open spec fn is_player(c: Creature) -> bool {
    &&& is_player_body(c)
    &&& c.hand@ == Seq::<CardId>::empty()
    &&& c.discard@ == Seq::<CardId>::empty()
    &&& c.draw@.len() == 8
    &&& c.draw@.to_multiset() == all_card_ids(c.parts.id_seq(), c.part_seq(), 6).to_multiset()
}

fn arm() -> (r: Part)
    ensures
        fresh_part(r, "Arm"@, arm_tags(), 30, 0, 0, 0, seq![CardKind::ThrowDebris, CardKind::Punch, CardKind::Guard]),
{
    let tags = [PartTag::Limb, PartTag::Flesh, PartTag::Arm, PartTag::Open];
    let cards = IdMap::from_values(vec![throw_debris(), punch(), guard()]);
    let r = Part { cards, ..Part::new("Arm", &tags, 30) };
    proof {
        reveal_strlit("Arm");
        assert(tags@ == seq![PartTag::Limb, PartTag::Flesh, PartTag::Arm, PartTag::Open]);
        lemma_tag_list4(PartTag::Limb, PartTag::Flesh, PartTag::Arm, PartTag::Open);
        assert(card_kinds(r) =~= seq![CardKind::ThrowDebris, CardKind::Punch, CardKind::Guard]);
    }
    r
}

fn leg() -> (r: Part)
    ensures
        fresh_part(r, "Leg"@, leg_tags(), 30, 0, 0, 1, seq![CardKind::Stagger]),
{
    let tags = [PartTag::Limb, PartTag::Flesh, PartTag::Leg, PartTag::Open];
    let cards = IdMap::from_values(vec![stagger()]);
    let r = Part { cards, mp: 1, ..Part::new("Leg", &tags, 30) };
    proof {
        reveal_strlit("Leg");
        assert(tags@ == seq![PartTag::Limb, PartTag::Flesh, PartTag::Leg, PartTag::Open]);
        lemma_tag_list4(PartTag::Limb, PartTag::Flesh, PartTag::Leg, PartTag::Open);
        assert(card_kinds(r) =~= seq![CardKind::Stagger]);
    }
    r
}

/// The player: a head that thinks three and remembers five, a torso, two arms that throw,
/// punch and guard, and two legs that stagger and move one each; every part is flesh and
/// open to attack.
pub fn player() -> (r: Creature)
    ensures
        is_player(r),
{
    let head_tags = [PartTag::Head, PartTag::Flesh, PartTag::Vital, PartTag::Open];
    let head = Part { thought: 3, memory: 5, ..Part::new("Head", &head_tags, 20) };
    let torso_tags = [PartTag::Torso, PartTag::Flesh, PartTag::Vital, PartTag::Open];
    let torso = Part::new("Torso", &torso_tags, 50);
    let arm_l = arm();
    let arm_r = arm();
    let leg_l = leg();
    let leg_r = leg();
    let parts = vec![head, torso, arm_l, arm_r, leg_l, leg_r];
    proof {
        reveal_strlit("Head");
        reveal_strlit("Torso");
        reveal_strlit("Player");
        assert(head_tags@ == seq![PartTag::Head, PartTag::Flesh, PartTag::Vital, PartTag::Open]);
        lemma_tag_list4(PartTag::Head, PartTag::Flesh, PartTag::Vital, PartTag::Open);
        assert(torso_tags@ == seq![PartTag::Torso, PartTag::Flesh, PartTag::Vital, PartTag::Open]);
        lemma_tag_list4(PartTag::Torso, PartTag::Flesh, PartTag::Vital, PartTag::Open);
        assert(card_kinds(head) =~= Seq::<CardKind>::empty());
        assert(card_kinds(torso) =~= Seq::<CardKind>::empty());
        let ps = parts@;
        assert(ps.len() == 6);
        assert(abs_sum(ps, Stat::Thought) == 3) by {
            reveal_with_fuel(abs_sum, 7);
        }
        assert(abs_sum(ps, Stat::Memory) == 5) by {
            reveal_with_fuel(abs_sum, 7);
        }
        assert(abs_sum(ps, Stat::Mp) == 2) by {
            reveal_with_fuel(abs_sum, 7);
        }
    }
    let r = Creature::new("Player", parts, None);
    proof {
        assert(Seq::new(6, |i: int| i as u32) =~= seq![0u32, 1u32, 2u32, 3u32, 4u32, 5u32]);
        let ps = r.part_seq();
        assert(ps[0] == Part { cur_hp: head.max_hp, ..head });
        assert(ps[1] == Part { cur_hp: torso.max_hp, ..torso });
        assert(ps[2] == Part { cur_hp: arm_l.max_hp, ..arm_l });
        assert(ps[3] == Part { cur_hp: arm_r.max_hp, ..arm_r });
        assert(ps[4] == Part { cur_hp: leg_l.max_hp, ..leg_l });
        assert(ps[5] == Part { cur_hp: leg_r.max_hp, ..leg_r });
        assert(unbroken_sum(ps, Stat::Thought) == 3) by {
            reveal_with_fuel(unbroken_sum, 7);
        }
        assert(unbroken_sum(ps, Stat::Memory) == 5) by {
            reveal_with_fuel(unbroken_sum, 7);
        }
        assert(unbroken_sum(ps, Stat::Mp) == 2) by {
            reveal_with_fuel(unbroken_sum, 7);
        }
        let ids = r.parts.id_seq();
        assert(all_card_ids(ids, ps, 6).len() == 8) by {
            reveal_with_fuel(all_card_ids, 7);
        }
        r.draw@.to_multiset_ensures();
        all_card_ids(ids, ps, 6).to_multiset_ensures();
    }
    r
}

} // verus!

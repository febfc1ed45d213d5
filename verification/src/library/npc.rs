//! The creatures the player fights.
use vstd::prelude::*;
use vstd::string::StringExecFns;
use crate::card::CardKind;
use crate::creature::{Creature, CardId, Stat, abs_sum, all_card_ids, unbroken_sum};
use crate::library::player::{card_kinds, fresh_part};
use crate::id_map::{Id, IdMap};
use crate::npc::{Behavior, Intent, IntentKind, IntentPlan, NPC, Range};
use crate::part::{Part, PartTag, lemma_tag_list3, lemma_tag_list4};
use crate::status::Status;

verus! {

/// A monopod as `Monopod::creature` builds it: a head "Hed" that thinks one and a foot
/// "Fut" that moves three, both at 20 of 20 hit points and without cards; one action
/// point, three move points, empty piles, no statuses, and a behaviour that kicks first
/// with the foot and has just planned that kick.
pub open spec fn is_monopod(c: Creature) -> bool {
    let ps = c.part_seq();
    &&& c.wf()
    &&& c.name@ == "Monopod"@
    &&& !c.dead
    &&& c.parts.key_seq() == seq![0u32, 1u32]
    &&& ps.len() == 2
    &&& fresh_part(ps[0], "Hed"@, set![PartTag::Head, PartTag::Flesh, PartTag::Vital], 20, 1, 0, 0, Seq::empty())
    &&& fresh_part(ps[1], "Fut"@, set![PartTag::Limb, PartTag::Flesh, PartTag::Leg, PartTag::Open], 20, 0, 0, 3, Seq::empty())
    &&& c.spec_max_ap() == 1
    &&& c.spec_hand_size() == 0
    &&& c.spec_max_mp() == 3
    &&& c.cur_ap == 1
    &&& c.cur_mp == 3
    &&& c.hand@ == Seq::<CardId>::empty()
    &&& c.discard@ == Seq::<CardId>::empty()
    &&& c.draw@ == Seq::<CardId>::empty()
    &&& c.entity.status@ == Map::<u32, Status>::empty()
    &&& c.npc matches Some(n) && n.behavior == Behavior::Monopod(Monopod { kick_time: true, head: n.behavior->0.head, foot: n.behavior->0.foot })
        && n.behavior->0.head@ == 0 && n.behavior->0.foot@ == 1
        && n.intent.planned(n.behavior->0.kick_plan())
}

/// A one-legged creature that alternates kicks and headbutts.
#[derive(Debug, Clone, Copy)]
pub struct Monopod {
    pub kick_time: bool,
    pub head: Id<Part>,
    pub foot: Id<Part>,
}

impl Monopod {
    /// A kick with the foot for 10.
    pub open spec fn kick_plan(&self) -> IntentPlan {
        IntentPlan {
            name: "Kick"@,
            from: Some(self.foot),
            cost: 1,
            kind: IntentKind::Attack { damage: 10, range: Range::Melee },
        }
    }

    /// A headbutt with the head for 5.
    pub open spec fn headbutt_plan(&self) -> IntentPlan {
        IntentPlan {
            name: "Headbutt"@,
            from: Some(self.head),
            cost: 1,
            kind: IntentKind::Attack { damage: 5, range: Range::Melee },
        }
    }

    pub fn kick(&self) -> (r: Intent)
        ensures
            r.planned(self.kick_plan()),
    {
        let r = Intent {
            name: String::from_str("Kick"),
            from: Some(self.foot),
            cost: 1,
            kind: IntentKind::Attack { damage: 10, range: Range::Melee },
        };
        proof {
            reveal_strlit("Kick");
        }
        r
    }

    pub fn headbutt(&self) -> (r: Intent)
        ensures
            r.planned(self.headbutt_plan()),
    {
        let r = Intent {
            name: String::from_str("Headbutt"),
            from: Some(self.head),
            cost: 1,
            kind: IntentKind::Attack { damage: 5, range: Range::Melee },
        };
        proof {
            reveal_strlit("Headbutt");
        }
        r
    }

    /// Flips between kicking and headbutting, and offers the one whose time it is first.
    pub fn intent(&mut self) -> (r: Vec<Intent>)
        ensures
            Behavior::Monopod(*final(self)) == Behavior::Monopod(*old(self)).spec_next().0,
            r@.len() == Behavior::Monopod(*old(self)).spec_next().1.len(),
            forall|i: int| 0 <= i < r@.len() ==> (#[trigger] r@[i]).planned(Behavior::Monopod(*old(self)).spec_next().1[i]),
    {
        self.kick_time = !self.kick_time;
        if self.kick_time {
            vec![self.kick(), self.headbutt()]
        } else {
            vec![self.headbutt(), self.kick()]
        }
    }

    /// A monopod: a head that thinks and a foot that moves three and is open to attack,
    /// planning to kick first.
    pub fn creature() -> (r: Creature)
        ensures
            is_monopod(r),
    {
        let mut parts: IdMap<Part> = IdMap::new();
        let head_tags = [PartTag::Head, PartTag::Flesh, PartTag::Vital];
        let head = parts.add(Part { thought: 1, ..Part::new("Hed", &head_tags, 20) });
        let foot_tags = [PartTag::Limb, PartTag::Flesh, PartTag::Leg, PartTag::Open];
        let foot = parts.add(Part { mp: 3, ..Part::new("Fut", &foot_tags, 20) });
        let mono = Monopod { kick_time: true, head, foot };
        let ghost ps = parts.value_seq();
        proof {
            reveal_strlit("Hed");
            reveal_strlit("Fut");
            reveal_strlit("Monopod");
            assert(head_tags@ == seq![PartTag::Head, PartTag::Flesh, PartTag::Vital]);
            lemma_tag_list3(PartTag::Head, PartTag::Flesh, PartTag::Vital);
            assert(foot_tags@ == seq![PartTag::Limb, PartTag::Flesh, PartTag::Leg, PartTag::Open]);
            lemma_tag_list4(PartTag::Limb, PartTag::Flesh, PartTag::Leg, PartTag::Open);
            assert(card_kinds(ps[0]) =~= Seq::<CardKind>::empty());
            assert(card_kinds(ps[1]) =~= Seq::<CardKind>::empty());
            assert(ps.len() == 2);
            assert(ps.drop_last().drop_last() =~= Seq::<Part>::empty());
            assert(abs_sum(ps, Stat::Thought) == 1) by {
                reveal_with_fuel(abs_sum, 3);
            }
            assert(abs_sum(ps, Stat::Memory) == 0) by {
                reveal_with_fuel(abs_sum, 3);
            }
            assert(abs_sum(ps, Stat::Mp) == 3) by {
                reveal_with_fuel(abs_sum, 3);
            }
        }
        let intent = mono.kick();
        let r = Creature::new_ids("Monopod", parts, Some(NPC { intent, behavior: Behavior::Monopod(mono) }));
        proof {
            assert(unbroken_sum(ps, Stat::Thought) == 1) by {
                reveal_with_fuel(unbroken_sum, 3);
            }
            assert(unbroken_sum(ps, Stat::Memory) == 0) by {
                reveal_with_fuel(unbroken_sum, 3);
            }
            assert(unbroken_sum(ps, Stat::Mp) == 3) by {
                reveal_with_fuel(unbroken_sum, 3);
            }
            assert(all_card_ids(r.parts.id_seq(), ps, 2).len() == 0) by {
                reveal_with_fuel(all_card_ids, 3);
            }
            r.draw@.to_multiset_ensures();
            all_card_ids(r.parts.id_seq(), ps, 2).to_multiset_ensures();
            assert(r.draw@ =~= Seq::<CardId>::empty());
            assert(r.parts.key_seq() =~= seq![0u32, 1u32]);
        }
        r
    }
}

/// Each time a monopod plans, it switches between kicking and headbutting: it offers
/// first the attack it did not lead with the time before, then the other, and its head
/// and foot stay. A monopod that has just planned a kick, as a new one has, leads with a
/// headbutt next.
pub proof fn law_monopod_alternates(m: Monopod)
    ensures
        ({
            let (b2, plans) = Behavior::Monopod(m).spec_next();
            &&& b2 == Behavior::Monopod(Monopod { kick_time: !m.kick_time, head: m.head, foot: m.foot })
            &&& plans.len() == 2
            &&& plans[0].name == (if m.kick_time { "Headbutt"@ } else { "Kick"@ })
            &&& plans[0] == (if m.kick_time { m.headbutt_plan() } else { m.kick_plan() })
            &&& plans[1] == (if m.kick_time { m.kick_plan() } else { m.headbutt_plan() })
            &&& b2.spec_next().1[0].name != plans[0].name
        }),
{
    reveal_strlit("Headbutt");
    reveal_strlit("Kick");
    let (b2, plans) = Behavior::Monopod(m).spec_next();
    assert("Headbutt"@.len() != "Kick"@.len());
}

} // verus!

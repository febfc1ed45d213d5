//! Lasting effects on an entity: they may alter actions and react to events.
use vstd::prelude::*;
use crate::action::{
    Action, ActionData, ActionDataView, Event, EventData, EventDataView, Meta, MetaView, Path,
    action_views, same_creature_opt, spec_path_creature,
};
use crate::id_map::Id;
use crate::part::TagModId;
use crate::vec_set::VecSet;

verus! {

#[derive(Debug, Clone, Copy, PartialEq, Eq, Structural, Hash)]
pub enum StatusKind {
    Buff,
    Debuff,
    Hidden,
}

/// When a status alters actions, relative to the others: `Mul` first, `Misc` last.
#[derive(Debug, Clone, Copy, PartialEq, Eq, Structural, Hash)]
pub enum AlterOrder {
    Mul,
    Add,
    Misc,
}

/// When a status reacts to events, relative to the others.
#[derive(Debug, Clone, Copy, PartialEq, Eq, Structural, Hash)]
pub enum TriggerOrder {
    Misc,
}

/// Whether a status stays after reacting to an event.
#[derive(Debug, Clone, Copy, PartialEq, Eq, Structural, Hash)]
pub enum StatusDone {
    Continue,
    Expire,
}

/// The position of an alter order in the sequence `Mul`, `Add`, `Misc`.
pub open spec fn alter_rank(o: AlterOrder) -> nat {
    match o {
        AlterOrder::Mul => 0,
        AlterOrder::Add => 1,
        AlterOrder::Misc => 2,
    }
}

impl AlterOrder {
    pub fn rank(&self) -> (r: u8)
        ensures
            r == alter_rank(*self),
    {
        match self {
            AlterOrder::Mul => 0,
            AlterOrder::Add => 1,
            AlterOrder::Misc => 2,
        }
    }
}

/// The event that ends an `Expire` status.
#[derive(Debug, Clone, Copy, PartialEq, Eq, Structural, Hash)]
pub enum ExpireWhen {
    NpcTurnEnd,
    PlayerTurnEnd,
}

/// A hidden status that clears a tag modification of `target` when its event comes.
#[derive(Debug, Clone, Copy)]
pub struct Expire {
    pub target: Path,
    pub mod_id: TagModId,
    pub when: ExpireWhen,
}

#[derive(Debug, Clone, Copy)]
pub enum Status {
    Expire(Expire),
    /// Hits from the creature that has it deal 7 more damage.
    Rage,
}

pub type StatusId = Id<Status>;

pub open spec fn expire_matches(when: ExpireWhen, d: EventDataView) -> bool {
    match when {
        ExpireWhen::NpcTurnEnd => d is NpcTurnEnd,
        ExpireWhen::PlayerTurnEnd => d is PlayerTurnEnd,
    }
}

/// The action that undoes the tag modification an `Expire` status watches.
pub open spec fn expire_removal(e: Expire) -> MetaView<ActionDataView> {
    MetaView {
        source: Path::Global,
        target: e.target,
        tags: Set::empty(),
        data: ActionDataView::ClearTagMod { id: e.mod_id },
    }
}

impl Status {
    pub open spec fn spec_kind(self) -> StatusKind {
        match self {
            Status::Expire(_) => StatusKind::Hidden,
            Status::Rage => StatusKind::Buff,
        }
    }

    pub open spec fn spec_alter_order(self) -> AlterOrder {
        match self {
            Status::Expire(_) => AlterOrder::Misc,
            Status::Rage => AlterOrder::Add,
        }
    }

    /// What this status, on the entity at `on`, makes of `action`, if it alters it.
    pub open spec fn spec_alter(self, on: Path, action: MetaView<ActionDataView>) -> Option<
        MetaView<ActionDataView>,
    > {
        match self {
            Status::Expire(_) => None,
            Status::Rage => {
                if spec_path_creature(on) != spec_path_creature(action.source) {
                    None
                } else {
                    match action.data {
                        ActionDataView::Hit { damage } => if damage + 7 <= i32::MAX {
                            Some(
                                MetaView {
                                    data: ActionDataView::Hit { damage: (damage + 7) as i32 },
                                    ..action
                                },
                            )
                        } else {
                            None
                        },
                        _ => None,
                    }
                }
            },
        }
    }

    /// The actions this status asks for on `event`, and whether it stays.
    pub open spec fn spec_trigger(self, on: Path, event: MetaView<EventDataView>) -> (
        Seq<MetaView<ActionDataView>>,
        StatusDone,
    ) {
        match self {
            Status::Expire(e) => if expire_matches(e.when, event.data) {
                (seq![expire_removal(e)], StatusDone::Expire)
            } else {
                (Seq::empty(), StatusDone::Continue)
            },
            Status::Rage => (Seq::empty(), StatusDone::Continue),
        }
    }

    /// The name the player sees for this status.
    pub fn name(&self) -> (r: &'static str)
        ensures
            r@ == match *self {
                Status::Expire(_) => "Expire"@,
                Status::Rage => "Rage"@,
            },
    {
        match self {
            Status::Expire(_) => "Expire",
            Status::Rage => "Rage",
        }
    }

    pub fn kind(&self) -> (r: StatusKind)
        ensures
            r == self.spec_kind(),
    {
        match self {
            Status::Expire(_) => StatusKind::Hidden,
            Status::Rage => StatusKind::Buff,
        }
    }

    pub fn alter_order(&self) -> (r: AlterOrder)
        ensures
            r == self.spec_alter_order(),
    {
        match self {
            Status::Expire(_) => AlterOrder::Misc,
            Status::Rage => AlterOrder::Add,
        }
    }

    pub fn trigger_order(&self) -> (r: TriggerOrder)
        ensures
            r == TriggerOrder::Misc,
    {
        TriggerOrder::Misc
    }

    /// The altered action, if this status alters `action`.
    pub fn alter(&self, on: &Path, action: &Action) -> (r: Option<Action>)
        ensures
            match r {
                Some(a) => self.spec_alter(*on, action@) == Some(a@),
                None => self.spec_alter(*on, action@) is None,
            },
    {
        match self {
            Status::Expire(_) => None,
            Status::Rage => {
                if !same_creature_opt(&on.creature(), &action.source.creature()) {
                    return None;
                }
                match action.data {
                    ActionData::Hit { damage } => {
                        if damage <= i32::MAX - 7 {
                            let r = action.carry(ActionData::Hit { damage: damage + 7 });
                            assert(r@ == (MetaView {
                                data: ActionDataView::Hit { damage: (damage + 7) as i32 },
                                ..action@
                            }));
                            Some(r)
                        } else {
                            None
                        }
                    },
                    _ => None,
                }
            },
        }
    }

    /// The actions this status asks for on `event`, and whether it stays.
    pub fn trigger(&self, on: &Path, event: &Event) -> (r: (Vec<Action>, StatusDone))
        ensures
            action_views(r.0@) == self.spec_trigger(*on, event@).0,
            r.1 == self.spec_trigger(*on, event@).1,
    {
        match self {
            Status::Expire(e) => {
                let fires = match (e.when, &event.data) {
                    (ExpireWhen::NpcTurnEnd, EventData::NpcTurnEnd) => true,
                    (ExpireWhen::PlayerTurnEnd, EventData::PlayerTurnEnd) => true,
                    _ => false,
                };
                if !fires {
                    let r: Vec<Action> = Vec::new();
                    assert(action_views(r@) =~= Seq::empty());
                    return (r, StatusDone::Continue);
                }
                let remove = Meta {
                    source: Path::Global,
                    target: e.target,
                    tags: VecSet::new(),
                    data: ActionData::ClearTagMod { id: e.mod_id },
                };
                let r = vec![remove];
                assert(action_views(r@) =~= seq![expire_removal(*e)]);
                (r, StatusDone::Expire)
            },
            Status::Rage => {
                let r: Vec<Action> = Vec::new();
                assert(action_views(r@) =~= Seq::empty());
                (r, StatusDone::Continue)
            },
        }
    }
}

/// Rage adds seven to a hit dealt from the creature that has it, whenever the sum fits, and
/// leaves every other action alone.
pub proof fn law_rage_adds_seven(on: Path, a: MetaView<ActionDataView>)
    ensures
        (a.data matches ActionDataView::Hit { damage } && damage + 7 <= i32::MAX && spec_path_creature(on)
            == spec_path_creature(a.source)) ==> Status::Rage.spec_alter(on, a) == Some(
            MetaView { data: ActionDataView::Hit { damage: (a.data->Hit_damage + 7) as i32 }, ..a },
        ),
        !(a.data is Hit) ==> Status::Rage.spec_alter(on, a) is None,
        spec_path_creature(on) != spec_path_creature(a.source) ==> Status::Rage.spec_alter(on, a) is None,
{
}

/// An expiring status answers its own event, and only that, by asking for its tag
/// modification to be cleared, and expires then.
pub proof fn law_expire_on_its_event(e: Expire, on: Path, ev: MetaView<EventDataView>)
    ensures
        expire_matches(e.when, ev.data) ==> Status::Expire(e).spec_trigger(on, ev) == (seq![expire_removal(e)], StatusDone::Expire),
        !expire_matches(e.when, ev.data) ==> Status::Expire(e).spec_trigger(on, ev) == (Seq::<MetaView<ActionDataView>>::empty(), StatusDone::Continue),
{
}

} // verus!

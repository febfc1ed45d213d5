//! The world: the map, the creatures and the world's own statuses, and how an action is
//! altered by statuses, resolved, and answered by triggers.
use vstd::prelude::*;
use crate::action::{
    to_creature, Tag, tags_of, Action, ActionData, ActionDataView, Event, EventData, EventDataView, Meta, MetaView, Path,
    action_views, copy_events, event_views, extend_events, failed_event, local_events, result_views,
    spec_is_global, spec_path_creature, spec_path_part,
};
use crate::creature::{Creature, CardId, all_card_ids, lemma_part_replaced_wf, lemma_resolve_local};
use crate::library::player::{is_player, is_player_body};
use crate::library::npc::is_monopod;
use crate::entity::{Entity, status_added, status_removed};
use crate::error::Error;
use crate::id_map::{Id, IdMap, id_of, lemma_id_of_view, same_id};
use crate::map::{TileMap, Tile, initial_space, tile_open, reachable, is_walk, is_shortest_walk};
use crate::hex::{Hex, hex_distance};
use crate::part::{Part, carried};
use crate::status::{Status, StatusDone, StatusId};
use crate::vec_set::{SetElem, VecSet};
use crate::npc::{Intent, IntentKind, NPC, Range, copy_npc, lemma_first_ok_frame, melee_move_step, move_to_melee};
use crate::card::{Card, InPlay};
use crate::map::{SightLine, seen_from};
use crate::library::card::{float_text, hit_action};
use crate::error::message_text;

verus! {

broadcast use crate::id_map::lemma_id_of, crate::id_map::lemma_id_of_view;

/// Which entity around an action a status must sit on to see it.
#[derive(Debug, Clone, Copy, PartialEq, Eq, Structural, Hash)]
pub enum Scope {
    SourcePart,
    SourceCreature,
    World,
    TargetCreature,
    TargetPart,
}

/// The scopes in the order their statuses see an action.
pub open spec fn spec_scopes() -> Seq<Scope> {
    seq![Scope::SourcePart, Scope::SourceCreature, Scope::World, Scope::TargetCreature, Scope::TargetPart]
}

/// The entity that scope `s` picks out around an action from `source` to `target`.
pub open spec fn spec_scope_path(s: Scope, source: Path, target: Path) -> Option<Path> {
    match s {
        Scope::SourcePart => match spec_path_part(source) {
            Some((cid, pid)) => Some(Path::Part { cid, pid }),
            None => None,
        },
        Scope::SourceCreature => match spec_path_creature(source) {
            Some(cid) => Some(Path::Creature { cid }),
            None => None,
        },
        Scope::World => Some(Path::Global),
        Scope::TargetCreature => match spec_path_creature(target) {
            Some(cid) => Some(Path::Creature { cid }),
            None => None,
        },
        Scope::TargetPart => match spec_path_part(target) {
            Some((cid, pid)) => Some(Path::Part { cid, pid }),
            None => None,
        },
    }
}

impl Scope {
    /// Every scope, in the order their statuses see an action.
    pub fn all() -> (r: Vec<Scope>)
        ensures
            r@ == spec_scopes(),
    {
        let r = vec![Scope::SourcePart, Scope::SourceCreature, Scope::World, Scope::TargetCreature, Scope::TargetPart];
        assert(r@ =~= spec_scopes());
        r
    }

    /// The entity this scope picks out around `meta`, if there is one.
    pub fn path<T>(&self, meta: &Meta<T>) -> (r: Option<Path>)
        ensures
            r == spec_scope_path(*self, meta.source, meta.target),
    {
        match self {
            Scope::SourcePart => match meta.source.part() {
                Some((cid, pid)) => Some(Path::Part { cid, pid }),
                None => None,
            },
            Scope::SourceCreature => match meta.source.creature() {
                Some(cid) => Some(Path::Creature { cid }),
                None => None,
            },
            Scope::World => Some(Path::Global),
            Scope::TargetCreature => match meta.target.creature() {
                Some(cid) => Some(Path::Creature { cid }),
                None => None,
            },
            Scope::TargetPart => match meta.target.part() {
                Some((cid, pid)) => Some(Path::Part { cid, pid }),
                None => None,
            },
        }
    }
}

#[derive(Debug, Clone, Copy, PartialEq, Eq, Structural, Hash)]
pub enum GameState {
    Play,
    Won,
    Lost,
}

#[derive(Debug)]
pub struct World {
    map: TileMap,
    player_id: Id<Creature>,
    creatures: IdMap<Creature>,
    entity: Entity,
}

impl World {
    pub closed spec fn sp_map(&self) -> TileMap {
        self.map
    }

    pub closed spec fn sp_player(&self) -> Id<Creature> {
        self.player_id
    }

    pub closed spec fn sp_creatures(&self) -> IdMap<Creature> {
        self.creatures
    }

    pub closed spec fn sp_entity(&self) -> Entity {
        self.entity
    }

    /// The creatures by the number of their id.
    pub open spec fn creature_view(&self) -> Map<u32, Creature> {
        self.sp_creatures()@
    }

    /// The map, the creatures and the world's entity are sound, the player is a creature,
    /// and every creature stands on the map.
    pub closed spec fn wf(&self) -> bool {
        &&& self.map.wf()
        &&& self.creatures.wf()
        &&& forall|k: u32| #[trigger] self.creatures@.contains_key(k) ==> self.creatures@[k].wf()
        &&& self.entity.wf()
        &&& self.creatures@.contains_key(self.player_id@)
        &&& forall|k: u32| #[trigger] self.creatures@.contains_key(k) ==> self.map.places_view().contains_key(k)
    }

    pub proof fn lemma_wf(&self)
        requires
            self.wf(),
        ensures
            self.sp_map().wf(),
            self.sp_creatures().wf(),
            self.sp_entity().wf(),
            forall|k: u32| #[trigger] self.creature_view().contains_key(k) ==> self.creature_view()[k].wf(),
            self.creature_view().contains_key(self.sp_player()@),
            forall|k: u32| #[trigger] self.creature_view().contains_key(k) ==> self.sp_map().places_view().contains_key(k),
    {
    }

    /// Both worlds have the same map and player, the same statuses on the world, and the
    /// same creatures under the same ids, each like the other's.
    pub open spec fn like(&self, o: World) -> bool {
        &&& self.sp_map().same_map(o.sp_map())
        &&& self.sp_player() == o.sp_player()
        &&& self.sp_creatures().id_seq() == o.sp_creatures().id_seq()
        &&& self.sp_creatures().key_seq() == o.sp_creatures().key_seq()
        &&& self.sp_creatures().next() == o.sp_creatures().next()
        &&& self.sp_creatures().value_seq().len() == o.sp_creatures().value_seq().len()
        &&& forall|i: int|
            0 <= i < self.sp_creatures().value_seq().len() ==> (#[trigger] self.sp_creatures().value_seq()[i]).like(
                o.sp_creatures().value_seq()[i],
            )
        &&& self.sp_entity().status.same_entries(o.sp_entity().status)
    }

    /// A copy of this world, to be changed while this one stays as it is.
    pub fn duplicate(&self) -> (r: World)
        requires
            self.wf(),
        ensures
            r.wf(),
            r.like(*self),
    {
        proof {
            self.creatures.lemma_view();
        }
        let vals = self.creatures.values();
        let mut cs: Vec<Creature> = Vec::new();
        let mut i: usize = 0;
        while i < vals.len()
            invariant
                vals@ == self.creatures.value_seq(),
                vals@.len() == self.creatures.key_seq().len(),
                forall|k: u32| #[trigger] self.creatures@.contains_key(k) ==> self.creatures@[k].wf(),
                forall|j: int|
                    0 <= j < self.creatures.key_seq().len() ==> #[trigger] self.creatures@[self.creatures.key_seq()[j]]
                        == self.creatures.value_seq()[j],
                forall|x: u32| #[trigger] self.creatures@.contains_key(x) <==> self.creatures.key_seq().contains(x),
                i <= vals@.len(),
                cs@.len() == i,
                forall|k: int| 0 <= k < i ==> (#[trigger] cs@[k]).wf() && cs@[k].like(vals@[k]),
            decreases vals@.len() - i,
        {
            proof {
                let key = self.creatures.key_seq()[i as int];
                assert(self.creatures.key_seq().contains(key));
                assert(self.creatures@.contains_key(key));
                assert(self.creatures@[key] == vals@[i as int]);
                assert(vals@[i as int].wf());
            }
            cs.push(vals[i].duplicate());
            i = i + 1;
        }
        let ghost csv = cs@;
        let r = World {
            map: self.map.duplicate(),
            player_id: self.player_id,
            creatures: self.creatures.with_values(cs),
            entity: self.entity.duplicate(),
        };
        proof {
            r.creatures.lemma_view();
            assert(r.creatures.value_seq() == csv);
            assert forall|k: u32| #[trigger] r.creatures@.contains_key(k) implies r.creatures@[k].wf() by {
                let j = choose|j: int| 0 <= j < r.creatures.key_seq().len() && r.creatures.key_seq()[j] == k;
                assert(r.creatures@[r.creatures.key_seq()[j]] == r.creatures.value_seq()[j]);
            }
            assert(r.creatures@.contains_key(r.player_id@));
            assert forall|k: u32| #[trigger] r.creatures@.contains_key(k) implies r.map.places_view().contains_key(k) by {
                assert(self.creatures@.contains_key(k));
            }
        }
        r
    }

    pub fn map(&self) -> (r: &TileMap)
        ensures
            *r == self.sp_map(),
    {
        &self.map
    }

    pub fn player_id(&self) -> (r: Id<Creature>)
        ensures
            r == self.sp_player(),
    {
        self.player_id
    }

    pub fn creatures(&self) -> (r: &IdMap<Creature>)
        ensures
            *r == self.sp_creatures(),
    {
        &self.creatures
    }

    pub fn entity(&self) -> (r: &Entity)
        ensures
            *r == self.sp_entity(),
    {
        &self.entity
    }

    /// The entity at path `p`, if there is one.
    pub open spec fn entity_at(&self, p: Path) -> Option<Entity> {
        let cs = self.creature_view();
        match p {
            Path::Global => Some(self.sp_entity()),
            Path::Creature { cid } => if cs.contains_key(cid@) {
                Some(cs[cid@].entity)
            } else {
                None
            },
            Path::Card { cid, .. } => if cs.contains_key(cid@) {
                Some(cs[cid@].entity)
            } else {
                None
            },
            Path::Part { cid, pid } => if cs.contains_key(cid@) && cs[cid@].parts@.contains_key(pid@) {
                Some(cs[cid@].parts@[pid@].entity)
            } else {
                None
            },
        }
    }

    /// Why there is no entity at `p`.
    pub open spec fn missing_error(&self, p: Path) -> Error {
        match p {
            Path::Part { cid, .. } => if self.creature_view().contains_key(cid@) {
                Error::NoSuchPart
            } else {
                Error::NoSuchCreature
            },
            _ => Error::NoSuchCreature,
        }
    }

    /// `after` is this world with creature `k` replaced by `c2`, all else the same.
    pub open spec fn creature_replaced(&self, after: World, k: u32, c2: Creature) -> bool {
        &&& after.sp_map() == self.sp_map()
        &&& after.sp_player() == self.sp_player()
        &&& after.sp_entity() == self.sp_entity()
        &&& after.creature_view() == self.creature_view().insert(k, c2)
        &&& after.sp_creatures().key_seq() == self.sp_creatures().key_seq()
        &&& after.sp_creatures().id_seq() == self.sp_creatures().id_seq()
        &&& after.sp_creatures().next() == self.sp_creatures().next()
    }

    /// `after` is this world with at most the entity at `p` changed.
    pub open spec fn only_entity_at(&self, after: World, p: Path) -> bool {
        match p {
            Path::Global => {
                &&& after.sp_map() == self.sp_map()
                &&& after.sp_player() == self.sp_player()
                &&& after.sp_creatures() == self.sp_creatures()
            },
            Path::Part { cid, pid } => {
                let c = self.creature_view()[cid@];
                let c2 = after.creature_view()[cid@];
                let q = c.parts@[pid@];
                let q2 = c2.parts@[pid@];
                &&& self.creature_replaced(after, cid@, c2)
                &&& (Creature { parts: c.parts, ..c2 }) == c
                &&& c2.parts@ == c.parts@.insert(pid@, q2)
                &&& c2.parts.key_seq() == c.parts.key_seq()
                &&& c2.parts.next() == c.parts.next()
                &&& (Part { entity: q.entity, ..q2 }) == q
            },
            _ => {
                let cid = spec_path_creature(p)->0;
                let c = self.creature_view()[cid@];
                let c2 = after.creature_view()[cid@];
                &&& self.creature_replaced(after, cid@, c2)
                &&& (Creature { entity: c.entity, ..c2 }) == c
            },
        }
    }

    /// Every entity of a sound world is sound.
    pub proof fn lemma_entity_wf(&self, p: Path)
        requires
            self.wf(),
            self.entity_at(p) is Some,
        ensures
            self.entity_at(p)->0.wf(),
    {
        match p {
            Path::Part { cid, pid } => {
                let c = self.creature_view()[cid@];
                assert(c.wf());
                c.parts.lemma_view();
                let i = choose|i: int| 0 <= i < c.parts.key_seq().len() && c.parts.key_seq()[i] == pid@;
                assert(c.part_seq()[i].wf());
            },
            _ => {},
        }
    }

    /// The entity at `p`.
    fn entity_ref(&self, p: &Path) -> (r: Result<&Entity, Error>)
        requires
            self.wf(),
        ensures
            match r {
                Ok(e) => self.entity_at(*p) == Some(*e) && e.wf(),
                Err(e) => self.entity_at(*p) is None && e == self.missing_error(*p),
            },
    {
        proof {
            if self.entity_at(*p) is Some {
                self.lemma_entity_wf(*p);
            }
        }
        match p {
            Path::Global => Ok(&self.entity),
            Path::Creature { cid } => match self.creatures.get(cid) {
                Some(c) => Ok(&c.entity),
                None => Err(Error::NoSuchCreature),
            },
            Path::Card { cid, .. } => match self.creatures.get(cid) {
                Some(c) => Ok(&c.entity),
                None => Err(Error::NoSuchCreature),
            },
            Path::Part { cid, pid } => match self.creatures.get(cid) {
                Some(c) => match c.parts.get(pid) {
                    Some(part) => Ok(&part.entity),
                    None => Err(Error::NoSuchPart),
                },
                None => Err(Error::NoSuchCreature),
            },
        }
    }
}

impl Entity {
    /// What this entity's statuses make of `a`, the entity lying at `on`.
    pub open spec fn spec_alters(&self, on: Path, a: MetaView<ActionDataView>) -> MetaView<ActionDataView> {
        crate::entity::spec_apply_alters(
            self.status@,
            self.spec_alter_order(),
            Set::empty(),
            on,
            a,
            self.spec_alter_order().len(),
        )
    }
}

impl World {
    /// `a` altered by the statuses of the scopes from the `i`-th on, each scope looked up
    /// on the action as the scopes before left it.
    pub open spec fn alters_from(&self, a: MetaView<ActionDataView>, i: int) -> MetaView<ActionDataView>
        decreases 5 - i,
    {
        if i < 0 || i >= 5 {
            a
        } else {
            let b = match spec_scope_path(spec_scopes()[i], a.source, a.target) {
                Some(p) => match self.entity_at(p) {
                    Some(e) => e.spec_alters(p, a),
                    None => a,
                },
                None => a,
            };
            self.alters_from(b, i + 1)
        }
    }

    /// `action` as the statuses of its scopes alter it.
    fn apply_alters(&self, action: &Action) -> (r: Action)
        requires
            self.wf(),
        ensures
            r@ == self.alters_from(action@, 0),
    {
        let scopes = Scope::all();
        let mut action = action.copy();
        let ghost goal = self.alters_from(action@, 0);
        let mut i: usize = 0;
        while i < scopes.len()
            invariant
                self.wf(),
                scopes@ == spec_scopes(),
                i <= 5,
                goal == self.alters_from(action@, i as int),
            decreases 5 - i,
        {
            match scopes[i].path(&action) {
                Some(path) => {
                    match self.entity_ref(&path) {
                        Ok(entity) => {
                            action = entity.apply_alters(&path, &action);
                        },
                        Err(_) => {},
                    }
                },
                None => {},
            }
            i = i + 1;
        }
        action
    }
}

impl World {
    /// Adds `status` to the entity at `p` under the id that entity hands out next.
    fn add_status_at(&mut self, p: &Path, status: Status) -> (id: StatusId)
        requires
            old(self).wf(),
            old(self).entity_at(*p) is Some,
            old(self).entity_at(*p)->0.status.next() < u32::MAX,
        ensures
            final(self).wf(),
            id == id_of::<Status>(old(self).entity_at(*p)->0.status.next()),
            final(self).entity_at(*p) is Some,
            status_added(old(self).entity_at(*p)->0, final(self).entity_at(*p)->0, status),
            old(self).only_entity_at(*final(self), *p),
    {
        proof {
            self.lemma_entity_wf(*p);
        }
        let id = match p {
            Path::Global => {
                self.entity.status.add(status)
            },
            Path::Creature { cid } => {
                match self.creatures.get_mut(cid) {
                    Some(c) => {
                        let id = c.entity.status.add(status);
                        id
                    },
                    None => {
                        proof {
                            assert(false);
                        }
                        Id::first()
                    },
                }
            },
            Path::Card { cid, .. } => {
                match self.creatures.get_mut(cid) {
                    Some(c) => {
                        let id = c.entity.status.add(status);
                        id
                    },
                    None => {
                        proof {
                            assert(false);
                        }
                        Id::first()
                    },
                }
            },
            Path::Part { cid, pid } => {
                match self.creatures.get_mut(cid) {
                    Some(c) => {
                        match c.parts.get_mut(pid) {
                            Some(part) => {
                                let id = part.entity.status.add(status);
                                id
                            },
                            None => {
                                proof {
                                    assert(false);
                                }
                                Id::first()
                            },
                        }
                    },
                    None => {
                        proof {
                            assert(false);
                        }
                        Id::first()
                    },
                }
            },
        };
        proof {
            match *p {
                Path::Global => {},
                Path::Part { cid, pid } => {
                    let c0 = old(self).creature_view()[cid@];
                    let c2 = self.creature_view()[cid@];
                    c0.parts.lemma_view();
                    lemma_part_replaced_wf(c0, c2, pid, c2.parts@[pid@]);
                },
                _ => {},
            }
            assert forall|k: u32| #[trigger] self.creatures@.contains_key(k) implies self.creatures@[k].wf() by {
                assert(old(self).creatures@.contains_key(k));
            }
            assert forall|k: u32| #[trigger] self.creatures@.contains_key(k) implies self.map.places_view().contains_key(k) by {
                assert(old(self).creatures@.contains_key(k));
            }
        }
        id
    }

    /// Removes the status under `id` from the entity at `p`, which has it.
    fn remove_status_at(&mut self, p: &Path, sid: StatusId)
        requires
            old(self).wf(),
            old(self).entity_at(*p) is Some,
            old(self).entity_at(*p)->0.status@.contains_key(sid@),
        ensures
            final(self).wf(),
            final(self).entity_at(*p) is Some,
            status_removed(old(self).entity_at(*p)->0, final(self).entity_at(*p)->0, sid),
            old(self).only_entity_at(*final(self), *p),
    {
        proof {
            self.lemma_entity_wf(*p);
        }
        match p {
            Path::Global => {
                self.entity.status.remove(&sid);
            },
            Path::Creature { cid } => {
                match self.creatures.get_mut(cid) {
                    Some(c) => {
                        c.entity.status.remove(&sid);
                    },
                    None => {
                        proof {
                            assert(false);
                        }
                    },
                }
            },
            Path::Card { cid, .. } => {
                match self.creatures.get_mut(cid) {
                    Some(c) => {
                        c.entity.status.remove(&sid);
                    },
                    None => {
                        proof {
                            assert(false);
                        }
                    },
                }
            },
            Path::Part { cid, pid } => {
                match self.creatures.get_mut(cid) {
                    Some(c) => {
                        match c.parts.get_mut(pid) {
                            Some(part) => {
                                part.entity.status.remove(&sid);
                            },
                            None => {
                                proof {
                                    assert(false);
                                }
                            },
                        }
                    },
                    None => {
                        proof {
                            assert(false);
                        }
                    },
                }
            },
        };
        proof {
            match *p {
                Path::Global => {},
                Path::Part { cid, pid } => {
                    let c0 = old(self).creature_view()[cid@];
                    let c2 = self.creature_view()[cid@];
                    c0.parts.lemma_view();
                    lemma_part_replaced_wf(c0, c2, pid, c2.parts@[pid@]);
                },
                _ => {},
            }
            assert forall|k: u32| #[trigger] self.creatures@.contains_key(k) implies self.creatures@[k].wf() by {
                assert(old(self).creatures@.contains_key(k));
            }
            assert forall|k: u32| #[trigger] self.creatures@.contains_key(k) implies self.map.places_view().contains_key(k) by {
                assert(old(self).creatures@.contains_key(k));
            }
        }
    }
}

impl World {
    /// What resolving action `a` does to the world, `r` being the result by views.
    pub open spec fn resolve_step(
        &self,
        after: World,
        a: MetaView<ActionDataView>,
        r: Result<Seq<MetaView<EventDataView>>, Error>,
    ) -> bool {
        match a.data {
            ActionDataView::Nothing => after == *self && r == Ok::<Seq<MetaView<EventDataView>>, Error>(
                seq![carried(a, EventDataView::Nothing)],
            ),
            ActionDataView::Fail { description } => after == *self && r == Ok::<
                Seq<MetaView<EventDataView>>,
                Error,
            >(seq![carried(a, EventDataView::Failed { description })]),
            ActionDataView::AddStatus { status } => match self.entity_at(a.target) {
                None => after == *self && r == Err::<Seq<MetaView<EventDataView>>, Error>(
                    self.missing_error(a.target),
                ),
                Some(e) => if e.status.next() == u32::MAX {
                    after == *self && r == Err::<Seq<MetaView<EventDataView>>, Error>(Error::InvalidAction)
                } else {
                    &&& after.entity_at(a.target) is Some
                    &&& status_added(e, after.entity_at(a.target)->0, status)
                    &&& self.only_entity_at(after, a.target)
                    &&& r == Ok::<Seq<MetaView<EventDataView>>, Error>(
                        seq![carried(a, EventDataView::StatusAdded { id: id_of(e.status.next()) })],
                    )
                },
            },
            ActionDataView::RemoveStatus { id } => match self.entity_at(a.target) {
                None => after == *self && r == Err::<Seq<MetaView<EventDataView>>, Error>(
                    self.missing_error(a.target),
                ),
                Some(e) => if !e.status@.contains_key(id@) {
                    after == *self && r == Err::<Seq<MetaView<EventDataView>>, Error>(Error::NoSuchStatus)
                } else {
                    &&& after.entity_at(a.target) is Some
                    &&& status_removed(e, after.entity_at(a.target)->0, id)
                    &&& self.only_entity_at(after, a.target)
                    &&& r == Ok::<Seq<MetaView<EventDataView>>, Error>(
                        seq![carried(a, EventDataView::StatusRemoved { id })],
                    )
                },
            },
            _ => self.resolve_on_creature(after, a, r),
        }
    }

    /// What resolving an action that is not about statuses does: a creature moves on the
    /// map, or the creature the target lies in resolves it.
    pub open spec fn resolve_on_creature(
        &self,
        after: World,
        a: MetaView<ActionDataView>,
        r: Result<Seq<MetaView<EventDataView>>, Error>,
    ) -> bool {
        match (a.target, a.data) {
            (Path::Creature { cid }, ActionDataView::Move { to }) => {
                let m = self.sp_map();
                let m2 = after.sp_map();
                if !m.places_view().contains_key(cid@) {
                    after == *self && r == Err::<Seq<MetaView<EventDataView>>, Error>(Error::NoSuchCreature)
                } else if !m.tiles_view().contains_key(to) {
                    after == *self && r == Err::<Seq<MetaView<EventDataView>>, Error>(Error::OutOfBounds)
                } else {
                    let from = m.places_view()[cid@];
                    let t1 = m.tiles_view().insert(to, Tile { creature: Some(cid), ..m.tiles_view()[to] });
                    &&& after.sp_creatures() == self.sp_creatures()
                    &&& after.sp_entity() == self.sp_entity()
                    &&& after.sp_player() == self.sp_player()
                    &&& m2.tiles_view() == t1.insert(from, Tile { creature: None, ..t1[from] })
                    &&& m2.places_view() == m.places_view().insert(cid@, to)
                    &&& m2.coord_seq() == m.coord_seq()
                    &&& r == Ok::<Seq<MetaView<EventDataView>>, Error>(
                        seq![carried(a, EventDataView::Moved { from, to })],
                    )
                }
            },
            _ => match spec_path_creature(a.target) {
                Some(cid) => if !self.creature_view().contains_key(cid@) {
                    after == *self && r == Err::<Seq<MetaView<EventDataView>>, Error>(Error::NoSuchCreature)
                } else if !self.creature_view()[cid@].can_take(a) {
                    after == *self && r == Err::<Seq<MetaView<EventDataView>>, Error>(Error::InvalidAction)
                } else {
                    &&& self.creature_replaced(after, cid@, after.creature_view()[cid@])
                    &&& self.creature_view()[cid@].resolve_step(after.creature_view()[cid@], a, r)
                },
                None => after == *self && r == Err::<Seq<MetaView<EventDataView>>, Error>(
                    Error::UnhandledAction,
                ),
            },
        }
    }

    /// Carries out `action` on the entity, map position or creature it targets.
    fn resolve(&mut self, action: &Action) -> (r: Result<Vec<Event>, Error>)
        requires
            old(self).wf(),
        ensures
            final(self).wf(),
            old(self).resolve_step(*final(self), action@, result_views(r)),
    {
        match &action.data {
            ActionData::Nothing => {
                let r = vec![action.carry(EventData::Nothing)];
                assert(event_views(r@) =~= seq![carried(action@, EventDataView::Nothing)]);
                return Ok(r);
            },
            ActionData::Fail { description } => {
                let r = vec![action.carry(EventData::Failed { description: description.clone() })];
                assert(event_views(r@) =~= seq![carried(action@, EventDataView::Failed { description: description@ })]);
                return Ok(r);
            },
            ActionData::AddStatus { status } => {
                let room = match self.entity_ref(&action.target) {
                    Ok(e) => e.status.has_room(),
                    Err(err) => return Err(err),
                };
                if !room {
                    return Err(Error::InvalidAction);
                }
                let id = self.add_status_at(&action.target, *status);
                let r = vec![action.carry(EventData::StatusAdded { id })];
                assert(event_views(r@) =~= seq![carried(action@, EventDataView::StatusAdded { id })]);
                return Ok(r);
            },
            ActionData::RemoveStatus { id } => {
                let present = match self.entity_ref(&action.target) {
                    Ok(e) => e.status.contains_key(id),
                    Err(err) => return Err(err),
                };
                if !present {
                    return Err(Error::NoSuchStatus);
                }
                self.remove_status_at(&action.target, *id);
                let r = vec![action.carry(EventData::StatusRemoved { id: *id })];
                assert(event_views(r@) =~= seq![carried(action@, EventDataView::StatusRemoved { id: *id })]);
                return Ok(r);
            },
            _ => {},
        }
        match (&action.target, &action.data) {
            (Path::Creature { cid }, ActionData::Move { to }) => {
                let from = match self.map.creature_hex(*cid) {
                    Some(h) => h,
                    None => return Err(Error::NoSuchCreature),
                };
                if self.map.tile(*to).is_none() {
                    return Err(Error::OutOfBounds);
                }
                let moved = self.map.move_to(*cid, *to);
                proof {
                    assert(moved is Ok);
                    assert forall|k: u32| #[trigger] self.creatures@.contains_key(k) implies self.map.places_view().contains_key(k) by {
                        assert(old(self).map.places_view().contains_key(k));
                    }
                }
                let r = vec![action.carry(EventData::Moved { from, to: *to })];
                assert(event_views(r@) =~= seq![carried(action@, EventDataView::Moved { from, to: *to })]);
                return Ok(r);
            },
            _ => {},
        }
        match action.target.creature() {
            Some(cid) => {
                let ok = match self.creatures.get(&cid) {
                    Some(c) => c.check_take(action),
                    None => return Err(Error::NoSuchCreature),
                };
                if !ok {
                    return Err(Error::InvalidAction);
                }
                let r = match self.creatures.get_mut(&cid) {
                    Some(c) => c.resolve(action),
                    None => {
                        proof {
                            assert(false);
                        }
                        Err(Error::NoSuchCreature)
                    },
                };
                proof {
                    assert forall|k: u32| #[trigger] self.creatures@.contains_key(k) implies self.creatures@[k].wf() by {
                        assert(old(self).creatures@.contains_key(k));
                    }
                    assert forall|k: u32| #[trigger] self.creatures@.contains_key(k) implies self.map.places_view().contains_key(k) by {
                        assert(old(self).creatures@.contains_key(k));
                    }
                }
                r
            },
            None => Err(Error::UnhandledAction),
        }
    }
}

/// A status on the entity at a path: once it has answered an event, what its actions
/// cause is not offered to it again.
#[derive(Debug, Clone, Copy)]
pub struct TriggerKey {
    pub path: Path,
    pub sid: StatusId,
}

impl SetElem for TriggerKey {
    fn same(&self, other: &TriggerKey) -> (r: bool) {
        self.path.same(&other.path) && same_id(&self.sid, &other.sid)
    }
}

/// What is reported for an action that resolves to `r`: its events, or the failure.
pub open spec fn reported(r: Result<Seq<MetaView<EventDataView>>, Error>) -> Seq<MetaView<EventDataView>> {
    match r {
        Ok(es) => es,
        Err(e) => seq![failed_event(e)],
    }
}

/// The path of a creature, then those of its parts in order.
pub open spec fn creature_paths(cid: Id<Creature>, c: Creature) -> Seq<Path> {
    seq![Path::Creature { cid }] + c.parts.id_seq().map_values(|pid: Id<Part>| Path::Part { cid, pid })
}

pub open spec fn paths_upto(ids: Seq<Id<Creature>>, cs: Seq<Creature>, n: int) -> Seq<Path>
    decreases n,
{
    if n <= 0 {
        Seq::empty()
    } else {
        paths_upto(ids, cs, n - 1) + creature_paths(ids[n - 1], cs[n - 1])
    }
}

/// One step of a run: from world `w`, step `i` leads to `after` and reports `es`.
pub type StepFn = spec_fn(int, World, World, Seq<MetaView<EventDataView>>) -> bool;

/// `ws` are the worlds and `eps` the events of `n` steps taken in turn.
pub open spec fn chain(ws: Seq<World>, eps: Seq<Seq<MetaView<EventDataView>>>, n: int, step: StepFn) -> bool {
    &&& n >= 0
    &&& ws.len() == n + 1
    &&& eps.len() == n
    &&& forall|i: int| 0 <= i < n ==> #[trigger] step(i, ws[i], ws[i + 1], eps[i])
}

/// Taking the `n` steps in turn leads from `w` to `after` and reports `es`, the events of
/// the steps one after another.
pub open spec fn steps(w: World, after: World, n: int, step: StepFn, es: Seq<MetaView<EventDataView>>) -> bool {
    exists|ws: Seq<World>, eps: Seq<Seq<MetaView<EventDataView>>>|
        #[trigger] chain(ws, eps, n, step) && ws[0] == w && ws[n] == after && es == eps.flatten()
}

proof fn lemma_steps_none(w: World, step: StepFn)
    ensures
        steps(w, w, 0, step, Seq::<MetaView<EventDataView>>::empty()),
{
    let ws = seq![w];
    let eps = Seq::<Seq<MetaView<EventDataView>>>::empty();
    assert(chain(ws, eps, 0, step));
    assert(eps.flatten() =~= Seq::<MetaView<EventDataView>>::empty());
}

proof fn lemma_steps_next(
    w: World,
    mid: World,
    after: World,
    n: int,
    step: StepFn,
    e1: Seq<MetaView<EventDataView>>,
    e2: Seq<MetaView<EventDataView>>,
)
    requires
        steps(w, mid, n, step, e1),
        step(n, mid, after, e2),
    ensures
        steps(w, after, n + 1, step, e1 + e2),
{
    let (ws, eps) = choose|ws: Seq<World>, eps: Seq<Seq<MetaView<EventDataView>>>|
        #[trigger] chain(ws, eps, n, step) && ws[0] == w && ws[n] == mid && e1 == eps.flatten();
    let ws2 = ws.push(after);
    let eps2 = eps.push(e2);
    assert forall|i: int| 0 <= i < n + 1 implies #[trigger] step(i, ws2[i], ws2[i + 1], eps2[i]) by {
        if i < n {
            assert(ws2[i] == ws[i] && ws2[i + 1] == ws[i + 1] && eps2[i] == eps[i]);
        }
    }
    assert(chain(ws2, eps2, n + 1, step));
    eps.lemma_flatten_push(e2);
    assert(eps2.flatten() =~= e1 + e2);
}

proof fn lemma_steps_one(w: World, after: World, step: StepFn, es: Seq<MetaView<EventDataView>>)
    requires
        steps(w, after, 1, step, es),
    ensures
        step(0, w, after, es),
{
    let (ws, eps) = choose|ws: Seq<World>, eps: Seq<Seq<MetaView<EventDataView>>>|
        #[trigger] chain(ws, eps, 1, step) && ws[0] == w && ws[1] == after && es == eps.flatten();
    assert(step(0, ws[0], ws[0int + 1], eps[0]));
    let rest = eps.drop_first();
    assert(rest.len() == 0);
    assert(rest.flatten() == Seq::<MetaView<EventDataView>>::empty());
    assert(eps.flatten() == eps.first() + rest.flatten());
    assert(eps.flatten() =~= eps[0]);
}

/// The actions that status `st`, with id `sid`, at `path` asks for in answer to `ev`,
/// followed by its own removal when it expires.
pub open spec fn answer_actions(st: Status, path: Path, sid: StatusId, ev: MetaView<EventDataView>) -> Seq<MetaView<ActionDataView>> {
    let (acts, done) = st.spec_trigger(path, ev);
    if done == StatusDone::Expire {
        acts.push(MetaView { source: Path::Global, target: path, tags: Set::empty(), data: ActionDataView::RemoveStatus { id: sid } })
    } else {
        acts
    }
}

/// Step `i` executes the `i`-th action of `acts`.
pub open spec fn execute_each(acts: Seq<MetaView<ActionDataView>>) -> StepFn {
    |i: int, w: World, after: World, es: Seq<MetaView<EventDataView>>| w.execute_step(after, acts[i], es)
}

/// Status `sid` of the entity at `path` answers `ev`, unless `skip` holds it or it is not
/// there: the actions it asks for are executed in turn.
pub open spec fn status_answers(
    w: World,
    after: World,
    skip: Set<TriggerKey>,
    ev: MetaView<EventDataView>,
    path: Path,
    sid: StatusId,
    es: Seq<MetaView<EventDataView>>,
) -> bool {
    let quiet = after == w && es == Seq::<MetaView<EventDataView>>::empty();
    if skip.contains(TriggerKey { path, sid }) {
        quiet
    } else {
        match w.entity_at(path) {
            Some(e) => if e.status@.contains_key(sid@) {
                let acts = answer_actions(e.status@[sid@], path, sid, ev);
                steps(w, after, acts.len() as int, execute_each(acts), es)
            } else {
                quiet
            },
            None => quiet,
        }
    }
}

/// Step `i` lets the `i`-th status of `order` answer `ev`.
pub open spec fn status_each(skip: Set<TriggerKey>, ev: MetaView<EventDataView>, path: Path, order: Seq<StatusId>) -> StepFn {
    |i: int, w: World, after: World, es: Seq<MetaView<EventDataView>>| status_answers(w, after, skip, ev, path, order[i], es)
}

/// The statuses of the entity at `path` answer `ev` in turn, in the trigger order the
/// entity had when the answers began; nothing happens where there is no entity.
pub open spec fn path_answers(
    w: World,
    after: World,
    skip: Set<TriggerKey>,
    ev: MetaView<EventDataView>,
    path: Path,
    es: Seq<MetaView<EventDataView>>,
) -> bool {
    match w.entity_at(path) {
        Some(e) => steps(
            w,
            after,
            e.spec_trigger_order().len() as int,
            status_each(skip, ev, path, e.spec_trigger_order()),
            es,
        ),
        None => after == w && es == Seq::<MetaView<EventDataView>>::empty(),
    }
}

/// Step `i` lets the entity that the `i`-th scope picks out around `ev`, if any, answer it.
pub open spec fn scope_each(skip: Set<TriggerKey>, ev: MetaView<EventDataView>) -> StepFn {
    |i: int, w: World, after: World, es: Seq<MetaView<EventDataView>>|
        match spec_scope_path(spec_scopes()[i], ev.source, ev.target) {
            Some(p) => path_answers(w, after, skip, ev, p, es),
            None => after == w && es == Seq::<MetaView<EventDataView>>::empty(),
        }
}

/// The paths that the first `n` scopes pick out around `ev`.
pub open spec fn scoped_paths(ev: MetaView<EventDataView>, n: int) -> Set<Path> {
    Set::new(|p: Path| exists|i: int| 0 <= i < n && #[trigger] spec_scope_path(spec_scopes()[i], ev.source, ev.target) == Some(p))
}

/// Step `i` lets the entity at the `i`-th of `paths` answer `ev`, unless a scope already
/// picked it out.
pub open spec fn other_each(skip: Set<TriggerKey>, ev: MetaView<EventDataView>, paths: Seq<Path>) -> StepFn {
    |i: int, w: World, after: World, es: Seq<MetaView<EventDataView>>|
        if scoped_paths(ev, spec_scopes().len() as int).contains(paths[i]) {
            after == w && es == Seq::<MetaView<EventDataView>>::empty()
        } else {
            path_answers(w, after, skip, ev, paths[i], es)
        }
}

/// After the scopes, a global event is answered by every other entity of the world, the
/// world first, then each creature followed by its parts.
pub open spec fn rest_answers(
    w: World,
    after: World,
    skip: Set<TriggerKey>,
    ev: MetaView<EventDataView>,
    es: Seq<MetaView<EventDataView>>,
) -> bool {
    if spec_is_global(ev.data) {
        steps(w, after, w.all_paths().len() as int, other_each(skip, ev, w.all_paths()), es)
    } else {
        after == w && es == Seq::<MetaView<EventDataView>>::empty()
    }
}

/// Event `ev` is answered: by the entities its scopes pick out, and, for a global event,
/// then by every other entity of the world as it stands after them.
pub open spec fn event_answers(
    w: World,
    after: World,
    skip: Set<TriggerKey>,
    ev: MetaView<EventDataView>,
    es: Seq<MetaView<EventDataView>>,
) -> bool {
    exists|mid: World, e1: Seq<MetaView<EventDataView>>, e2: Seq<MetaView<EventDataView>>|
        #![trigger steps(w, mid, spec_scopes().len() as int, scope_each(skip, ev), e1), rest_answers(mid, after, skip, ev, e2)]
        steps(w, mid, spec_scopes().len() as int, scope_each(skip, ev), e1) && rest_answers(mid, after, skip, ev, e2) && es == e1 + e2
}

/// Step `i` lets the `i`-th event of `evs` be answered.
pub open spec fn event_each(skip: Set<TriggerKey>, evs: Seq<MetaView<EventDataView>>) -> StepFn {
    |i: int, w: World, after: World, es: Seq<MetaView<EventDataView>>| event_answers(w, after, skip, evs[i], es)
}

/// Announcing the global event `d` takes `w` to `after` and reports `es`: the event
/// itself, then what every status of the world does in answer to it.
pub open spec fn announce_step(w: World, after: World, d: EventDataView, es: Seq<MetaView<EventDataView>>) -> bool {
    &&& es.len() >= 1
    &&& es[0] == announced(d)
    &&& event_answers(w, after, Set::empty(), announced(d), es.drop_first())
}

impl World {
    /// `after` has the same creatures, player and tiles' hexes as this world.
    pub open spec fn keeps(&self, after: World) -> bool {
        &&& after.creature_view().dom() == self.creature_view().dom()
        &&& after.sp_player() == self.sp_player()
        &&& after.sp_map().coord_seq() == self.sp_map().coord_seq()
    }

    /// The world, then each creature followed by its parts.
    pub open spec fn all_paths(&self) -> Seq<Path> {
        seq![Path::Global] + paths_upto(
            self.sp_creatures().id_seq(),
            self.sp_creatures().value_seq(),
            self.sp_creatures().id_seq().len() as int,
        )
    }

    #[verifier::opaque]
    /// Executing `a` takes this world to `after` and reports `es`: the statuses of its
    /// scopes alter it, it is resolved, and a failure is reported as a failure event. No
    /// status answers the events reported, as none is heard by every entity.
    pub open spec fn execute_step(&self, after: World, a: MetaView<ActionDataView>, es: Seq<MetaView<EventDataView>>) -> bool {
        exists|r: Result<Seq<MetaView<EventDataView>>, Error>|
            #[trigger] self.resolve_step(after, self.alters_from(a, 0), r) && es == reported(r)
    }

    /// What the world reports is never heard by every entity.
    pub proof fn lemma_resolve_local(&self, after: World, a: MetaView<ActionDataView>, r: Result<Seq<MetaView<EventDataView>>, Error>)
        requires
            self.resolve_step(after, a, r),
        ensures
            local_events(reported(r)),
    {
        match r {
            Ok(es) => {
                match a.data {
                    ActionDataView::Nothing => {},
                    ActionDataView::Fail { .. } => {},
                    ActionDataView::AddStatus { .. } => {},
                    ActionDataView::RemoveStatus { .. } => {},
                    _ => {
                        match (a.target, a.data) {
                            (Path::Creature { cid }, ActionDataView::Move { to }) => {},
                            _ => {
                                let cid = spec_path_creature(a.target)->0;
                                lemma_resolve_local(self.creature_view()[cid@], after.creature_view()[cid@], a, es);
                            },
                        }
                    },
                }
            },
            Err(e) => {},
        }
    }

    /// The paths of every entity: the world, then each creature followed by its parts.
    fn all_entity_paths(&self) -> (r: Vec<Path>)
        requires
            self.wf(),
        ensures
            r@ == self.all_paths(),
    {
        let mut out: Vec<Path> = Vec::new();
        out.push(Path::Global);
        let (ids, cs) = self.creatures.map();
        let ghost idv = ids@;
        let ghost csv = cs@;
        let mut i: usize = 0;
        assert(out@ =~= seq![Path::Global] + paths_upto(idv, csv, 0));
        while i < ids.len()
            invariant
                self.wf(),
                ids@ == idv,
                cs@ == csv,
                idv == self.creatures.id_seq(),
                csv == self.creatures.value_seq(),
                idv.len() == csv.len(),
                i <= idv.len(),
                out@ == seq![Path::Global] + paths_upto(idv, csv, i as int),
            decreases idv.len() - i,
        {
            let cid = ids[i];
            let c = &cs[i];
            let ghost before = out@;
            out.push(Path::Creature { cid });
            proof {
                self.creatures.lemma_view();
                assert(self.creatures@[self.creatures.key_seq()[i as int]] == csv[i as int]);
                let k = self.creatures.key_seq()[i as int];
                assert(self.creatures.key_seq().contains(k));
                assert(self.creatures@.contains_key(k));
                assert(self.creatures@[k].wf());
                assert(csv[i as int].wf());
            }
            let pids = c.parts.keys();
            let mut j: usize = 0;
            while j < pids.len()
                invariant
                    pids@ == c.parts.id_seq(),
                    j <= pids@.len(),
                    out@ == before + seq![Path::Creature { cid }] + pids@.take(j as int).map_values(|pid: Id<Part>| Path::Part { cid, pid }),
                decreases pids@.len() - j,
            {
                out.push(Path::Part { cid, pid: pids[j] });
                assert(pids@.take(j + 1).map_values(|pid: Id<Part>| Path::Part { cid, pid }) =~= pids@.take(j as int).map_values(|pid: Id<Part>| Path::Part { cid, pid }).push(Path::Part { cid, pid: pids@[j as int] }));
                j = j + 1;
            }
            proof {
                assert(pids@.take(pids@.len() as int) =~= pids@);
                assert(out@ =~= seq![Path::Global] + paths_upto(idv, csv, i + 1));
            }
            i = i + 1;
        }
        out
    }

    /// Executes `action` without letting the statuses in `skip` answer what follows.
    fn execute_(&mut self, action: &Action, skip: &VecSet<TriggerKey>, level: Ghost<int>) -> (out: Vec<Event>)
        requires
            old(self).wf(),
            level@ >= 0,
        ensures
            final(self).wf(),
            old(self).execute_step(*final(self), action@, event_views(out@)),
        decreases level@, 2int,
    {
        let ghost a0 = action@;
        let action = self.apply_alters(action);
        let ghost a = action@;
        let res = self.resolve(&action);
        let ghost rv = result_views(res);
        let events = match res {
            Ok(es) => es,
            Err(err) => vec![Event::failed(err)],
        };
        proof {
            assert(event_views(events@) =~= reported(rv));
            old(self).lemma_resolve_local(*self, a, rv);
            assert forall|i: int| 0 <= i < events@.len() implies !spec_is_global(#[trigger] events@[i].data@) by {
                assert(event_views(events@)[i] == events@[i]@);
                assert(!spec_is_global(event_views(events@)[i].data));
            }
        }
        let ghost mid = *self;
        let mut out = copy_events(&events);
        let more = self.apply_triggers(skip, &events, level);
        proof {
            assert(more@.len() == 0);
            assert(event_views(more@) =~= Seq::<MetaView<EventDataView>>::empty());
        }
        extend_events(&mut out, more);
        proof {
            assert(event_views(out@) =~= reported(rv));
            assert(old(self).resolve_step(*self, old(self).alters_from(a0, 0), rv));
            reveal(World::execute_step);
        }
        out
    }

    /// Lets the statuses of the entities around each event, and of every entity for a
    /// global event, answer it.
    fn apply_triggers(&mut self, skip: &VecSet<TriggerKey>, events: &Vec<Event>, level: Ghost<int>) -> (out: Vec<Event>)
        requires
            old(self).wf(),
            level@ >= 0,
            forall|i: int| 0 <= i < events@.len() && spec_is_global(#[trigger] events@[i].data@) ==> level@ > 0,
        ensures
            final(self).wf(),
            old(self).keeps(*final(self)),
            local_events(event_views(events@)) ==> out@.len() == 0 && *final(self) == *old(self),
            steps(
                *old(self),
                *final(self),
                events@.len() as int,
                event_each(skip@, event_views(events@)),
                event_views(out@),
            ),
        decreases level@, 1int,
    {
        let ghost local = local_events(event_views(events@));
        let ghost w0 = *self;
        let ghost evs = event_views(events@);
        let ghost estep = event_each(skip@, evs);
        let ghost mut acc: Seq<MetaView<EventDataView>> = Seq::empty();
        let mut out: Vec<Event> = Vec::new();
        proof {
            lemma_steps_none(w0, estep);
            assert(event_views(out@) =~= acc);
        }
        let scopes = Scope::all();
        let mut i: usize = 0;
        while i < events.len()
            invariant
                self.wf(),
                level@ >= 0,
                forall|k: int| 0 <= k < events@.len() && spec_is_global(#[trigger] events@[k].data@) ==> level@ > 0,
                local == local_events(event_views(events@)),
                scopes@ == spec_scopes(),
                i <= events@.len(),
                old(self).keeps(*self),
                local ==> out@.len() == 0 && *self == *old(self),
                w0 == *old(self),
                evs == event_views(events@),
                estep == event_each(skip@, evs),
                steps(w0, *self, i as int, estep, acc),
                event_views(out@) == acc,
            decreases events@.len() - i,
        {
            let event = &events[i];
            let ghost ev = event@;
            let ghost wb = *self;
            let ghost accb = acc;
            proof {
                assert(evs[i as int] == ev);
                if local {
                    assert(event_views(events@)[i as int] == events@[i as int]@);
                    assert(!spec_is_global(event_views(events@)[i as int].data));
                    assert(!spec_is_global(event.data@));
                }
            }
            let ghost sstep = scope_each(skip@, ev);
            let ghost mut sacc: Seq<MetaView<EventDataView>> = Seq::empty();
            proof {
                lemma_steps_none(wb, sstep);
                assert(event_views(out@) =~= accb + sacc);
                assert(Set::<Path>::empty() =~= scoped_paths(ev, 0));
            }
            let mut scoped: VecSet<Path> = VecSet::new();
            let mut s: usize = 0;
            while s < scopes.len()
                invariant
                    self.wf(),
                    level@ >= 0,
                    spec_is_global(event.data@) ==> level@ > 0,
                    scopes@ == spec_scopes(),
                    s <= scopes@.len(),
                    old(self).keeps(*self),
                    local ==> !spec_is_global(event.data@),
                    local ==> out@.len() == 0 && *self == *old(self),
                    ev == event@,
                    sstep == scope_each(skip@, ev),
                    steps(wb, *self, s as int, sstep, sacc),
                    event_views(out@) == accb + sacc,
                    scoped@ == scoped_paths(ev, s as int),
                decreases scopes@.len() - s,
            {
                let ghost before = *self;
                let ghost saccb = sacc;
                let ghost e2: Seq<MetaView<EventDataView>> = Seq::empty();
                let ghost old_scoped = scoped@;
                match scopes[s].path(event) {
                    Some(path) => {
                        scoped.insert(path);
                        let more = self.apply_triggers_path(skip, event, &path, level);
                        proof {
                            e2 = event_views(more@);
                        }
                        extend_events(&mut out, more);
                    },
                    None => {},
                }
                proof {
                    assert(sstep(s as int, before, *self, e2));
                    lemma_steps_next(wb, before, *self, s as int, sstep, saccb, e2);
                    sacc = saccb + e2;
                    assert(event_views(out@) =~= accb + sacc);
                    assert forall|p: Path| #[trigger] scoped@.contains(p) == scoped_paths(ev, s + 1).contains(p) by {
                        if scoped_paths(ev, s + 1).contains(p) {
                            let j = choose|j: int| 0 <= j < s + 1 && #[trigger] spec_scope_path(spec_scopes()[j], ev.source, ev.target) == Some(p);
                            if j < s {
                                assert(old_scoped.contains(p));
                            }
                        }
                        if old_scoped.contains(p) {
                            let j = choose|j: int| 0 <= j < s && #[trigger] spec_scope_path(spec_scopes()[j], ev.source, ev.target) == Some(p);
                            assert(0 <= j < s + 1);
                        }
                    }
                    assert(scoped@ =~= scoped_paths(ev, s + 1));
                }
                s = s + 1;
            }
            let ghost wm = *self;
            let ghost saccf = sacc;
            let ghost mut oacc: Seq<MetaView<EventDataView>> = Seq::empty();
            if event.is_global() {
                let paths = self.all_entity_paths();
                let ghost ostep = other_each(skip@, ev, paths@);
                proof {
                    lemma_steps_none(wm, ostep);
                    assert(event_views(out@) =~= accb + saccf + oacc);
                }
                let mut k: usize = 0;
                while k < paths.len()
                    invariant
                        self.wf(),
                        level@ > 0,
                        spec_is_global(event.data@),
                        k <= paths@.len(),
                        old(self).keeps(*self),
                        local ==> !spec_is_global(event.data@),
                        ev == event@,
                        paths@ == wm.all_paths(),
                        ostep == other_each(skip@, ev, paths@),
                        scoped@ == scoped_paths(ev, spec_scopes().len() as int),
                        steps(wm, *self, k as int, ostep, oacc),
                        event_views(out@) == accb + saccf + oacc,
                    decreases paths@.len() - k,
                {
                    let path = paths[k];
                    let ghost before = *self;
                    let ghost oaccb = oacc;
                    let ghost e2: Seq<MetaView<EventDataView>> = Seq::empty();
                    if !scoped.contains(&path) {
                        let more = self.apply_triggers_path(skip, event, &path, level);
                        proof {
                            e2 = event_views(more@);
                        }
                        extend_events(&mut out, more);
                    }
                    proof {
                        assert(ostep(k as int, before, *self, e2));
                        lemma_steps_next(wm, before, *self, k as int, ostep, oaccb, e2);
                        oacc = oaccb + e2;
                        assert(event_views(out@) =~= accb + saccf + oacc);
                    }
                    k = k + 1;
                }
            }
            proof {
                assert(rest_answers(wm, *self, skip@, ev, oacc));
                assert(event_answers(wb, *self, skip@, ev, saccf + oacc));
                assert(estep(i as int, wb, *self, saccf + oacc));
                lemma_steps_next(w0, wb, *self, i as int, estep, accb, saccf + oacc);
                acc = accb + (saccf + oacc);
                assert(event_views(out@) =~= acc);
            }
            i = i + 1;
        }
        out
    }

    /// Lets each status of the entity at `path` that `skip` does not hold answer `event`,
    /// executing the actions it asks for, and the removal of a status that expires.
    fn apply_triggers_path(&mut self, skip: &VecSet<TriggerKey>, event: &Event, path: &Path, level: Ghost<int>) -> (out: Vec<Event>)
        requires
            old(self).wf(),
            level@ >= 0,
            spec_is_global(event.data@) ==> level@ > 0,
        ensures
            final(self).wf(),
            old(self).keeps(*final(self)),
            !spec_is_global(event.data@) ==> out@.len() == 0 && *final(self) == *old(self),
            path_answers(*old(self), *final(self), skip@, event@, *path, event_views(out@)),
        decreases level@, 0int,
    {
        let ghost w0 = *self;
        let ghost ev = event@;
        let mut out: Vec<Event> = Vec::new();
        let order = match self.entity_ref(path) {
            Ok(e) => e.trigger_order(),
            Err(_) => {
                proof {
                    assert(event_views(out@) =~= Seq::<MetaView<EventDataView>>::empty());
                }
                return out;
            },
        };
        let ghost ordv = order@;
        let ghost step = status_each(skip@, ev, *path, ordv);
        let ghost mut acc: Seq<MetaView<EventDataView>> = Seq::empty();
        proof {
            lemma_steps_none(w0, step);
            assert(event_views(out@) =~= acc);
        }
        let mut i: usize = 0;
        while i < order.len()
            invariant
                self.wf(),
                level@ >= 0,
                spec_is_global(event.data@) ==> level@ > 0,
                i <= order@.len(),
                old(self).keeps(*self),
                !spec_is_global(event.data@) ==> out@.len() == 0 && *self == *old(self),
                w0 == *old(self),
                ev == event@,
                order@ == ordv,
                step == status_each(skip@, ev, *path, ordv),
                steps(w0, *self, i as int, step, acc),
                event_views(out@) == acc,
            decreases order@.len() - i,
        {
            let sid = order[i];
            let ghost wb = *self;
            let ghost accb = acc;
            let ghost mut e2: Seq<MetaView<EventDataView>> = Seq::empty();
            if !skip.contains(&TriggerKey { path: *path, sid }) {
                let ghost mut stv: Option<Status> = None;
                let fired = match self.entity_ref(path) {
                    Err(_) => None,
                    Ok(e) => match e.status.get(&sid) {
                        None => None,
                        Some(st) => {
                            let (acts, done) = st.trigger(path, event);
                            proof {
                                stv = Some(*st);
                                assert(action_views(acts@).len() == acts@.len());
                                if !spec_is_global(event.data@) {
                                    assert(acts@.len() == 0);
                                    assert(done == StatusDone::Continue);
                                }
                            }
                            Some((acts, done))
                        },
                    },
                };
                match fired {
                    None => {
                        proof {
                            assert(status_answers(wb, *self, skip@, ev, *path, sid, e2));
                        }
                    },
                    Some((actions, done)) => {
                        let ghost st = stv->0;
                        let mut actions = actions;
                        if done == StatusDone::Expire {
                            actions.push(Meta {
                                source: Path::Global,
                                target: *path,
                                tags: VecSet::new(),
                                data: ActionData::RemoveStatus { id: sid },
                            });
                        }
                        let ghost actsv = action_views(actions@);
                        proof {
                            assert(actsv =~= answer_actions(st, *path, sid, ev));
                        }
                        let ghost astep = execute_each(actsv);
                        proof {
                            lemma_steps_none(wb, astep);
                        }
                        let mut sub_skip = skip.copy();
                        sub_skip.insert(TriggerKey { path: *path, sid });
                        let mut j: usize = 0;
                        while j < actions.len()
                            invariant
                                self.wf(),
                                level@ >= 0,
                                actions@.len() > 0 ==> level@ > 0,
                                j <= actions@.len(),
                                old(self).keeps(*self),
                                !spec_is_global(event.data@) ==> actions@.len() == 0,
                                !spec_is_global(event.data@) ==> out@.len() == 0 && *self == *old(self),
                                actsv == action_views(actions@),
                                astep == execute_each(actsv),
                                steps(wb, *self, j as int, astep, e2),
                                event_views(out@) == accb + e2,
                            decreases actions@.len() - j,
                        {
                            let ghost before = *self;
                            let ghost e2b = e2;
                            let more = self.execute_(&actions[j], &sub_skip, Ghost(level@ - 1));
                            proof {
                                before.lemma_execute_keeps(*self, actions@[j as int]@, event_views(more@));
                                assert(actsv[j as int] == actions@[j as int]@);
                                lemma_steps_next(wb, before, *self, j as int, astep, e2b, event_views(more@));
                                e2 = e2b + event_views(more@);
                            }
                            extend_events(&mut out, more);
                            proof {
                                assert(event_views(out@) =~= accb + e2);
                            }
                            j = j + 1;
                        }
                        proof {
                            assert(status_answers(wb, *self, skip@, ev, *path, sid, e2));
                        }
                    },
                }
            } else {
                proof {
                    assert(status_answers(wb, *self, skip@, ev, *path, sid, e2));
                }
            }
            proof {
                assert(ordv[i as int] == sid);
                lemma_steps_next(w0, wb, *self, i as int, step, accb, e2);
                acc = accb + e2;
                assert(event_views(out@) =~= acc);
            }
            i = i + 1;
        }
        out
    }
}

/// The action from the world to creature `cid`, tagged `Normal`, asking for `d`.
pub open spec fn normal_to(cid: Id<Creature>, d: ActionDataView) -> MetaView<ActionDataView> {
    MetaView { source: Path::Global, target: Path::Creature { cid }, tags: set![Tag::Normal], data: d }
}

/// The action from the world to creature `cid`, tagged `Normal`, asking for `data`.
pub fn normal_action(cid: Id<Creature>, data: ActionData) -> (r: Action)
    ensures
        r@ == normal_to(cid, data@),
{
    Meta { source: Path::Global, target: Path::Creature { cid }, tags: tags_of(Tag::Normal), data }
}

/// Filling a gap of `gap` points with action `a`: nothing when there is no gap, a failure
/// when the gap does not fit an `i32`, else the action executed.
pub open spec fn fill_step(
    w: World,
    after: World,
    a: MetaView<ActionDataView>,
    gap: int,
    es: Seq<MetaView<EventDataView>>,
) -> bool {
    if gap <= 0 {
        after == w && es == Seq::<MetaView<EventDataView>>::empty()
    } else if gap > i32::MAX {
        after == w && es == seq![failed_event(Error::InvalidAction)]
    } else {
        w.execute_step(after, a, es)
    }
}

/// The global event `d` as the world announces it.
pub open spec fn announced(d: EventDataView) -> MetaView<EventDataView> {
    MetaView { source: Path::Global, target: Path::Global, tags: Set::empty(), data: d }
}

impl World {
    /// How the game stands: lost once the player is dead, won once every other creature
    /// is, else still in play.
    pub open spec fn spec_state(&self) -> GameState {
        if self.creature_view()[self.sp_player()@].dead {
            GameState::Lost
        } else if forall|k: u32| #[trigger] self.creature_view().contains_key(k) && k != self.sp_player()@
            ==> self.creature_view()[k].dead {
            GameState::Won
        } else {
            GameState::Play
        }
    }

    /// What refilling creature `id` does: its action points, then its move points, are
    /// raised to their maximum, both gaps measured before either is filled.
    pub open spec fn refill_step(&self, after: World, id: Id<Creature>, es: Seq<MetaView<EventDataView>>) -> bool {
        if !self.creature_view().contains_key(id@) {
            after == *self && es == Seq::<MetaView<EventDataView>>::empty()
        } else {
            let c = self.creature_view()[id@];
            let gap_ap = c.spec_max_ap() - c.cur_ap;
            let gap_mp = c.spec_max_mp() - c.cur_mp;
            let a1 = normal_to(id, ActionDataView::GainAP { ap: gap_ap as i32 });
            let a2 = normal_to(id, ActionDataView::GainMP { mp: gap_mp as i32 });
            exists|mid: World, e1: Seq<MetaView<EventDataView>>, e2: Seq<MetaView<EventDataView>>|
                #![trigger fill_step(*self, mid, a1, gap_ap, e1), fill_step(mid, after, a2, gap_mp, e2)]
                fill_step(*self, mid, a1, gap_ap, e1) && fill_step(mid, after, a2, gap_mp, e2) && es == e1 + e2
        }
    }

    /// Executes `action`: the statuses of its scopes alter it, it is resolved, and its
    /// events are reported, or the failure as a failure event.
    pub fn execute(&mut self, action: &Action) -> (out: Vec<Event>)
        requires
            old(self).wf(),
        ensures
            final(self).wf(),
            old(self).execute_step(*final(self), action@, event_views(out@)),
    {
        let skip: VecSet<TriggerKey> = VecSet::new();
        self.execute_(action, &skip, Ghost(0))
    }

    /// Announces the global event `event` and lets every status answer it.
    fn system_event(&mut self, event: EventData) -> (out: Vec<Event>)
        requires
            old(self).wf(),
        ensures
            final(self).wf(),
            old(self).keeps(*final(self)),
            out@.len() >= 1,
            out@[0]@ == announced(event@),
            announce_step(*old(self), *final(self), event@, event_views(out@)),
    {
        let ghost d = event@;
        let ev = Meta::new(event);
        let mut out: Vec<Event> = Vec::new();
        out.push(ev);
        let skip: VecSet<TriggerKey> = VecSet::new();
        proof {
            assert(event_views(out@) =~= seq![announced(d)]);
            assert(skip@ =~= Set::<TriggerKey>::empty());
        }
        let more = self.apply_triggers(&skip, &out, Ghost(1));
        proof {
            lemma_steps_one(*old(self), *self, event_each(skip@, seq![announced(d)]), event_views(more@));
        }
        let ghost mv = event_views(more@);
        extend_events(&mut out, more);
        proof {
            assert(event_views(out@).drop_first() =~= mv);
            assert(event_views(out@)[0] == out@[0]@);
        }
        out
    }

    /// How the game stands.
    pub fn state(&self) -> (r: GameState)
        requires
            self.wf(),
        ensures
            r == self.spec_state(),
    {
        let player = match self.creatures.get(&self.player_id) {
            Some(p) => p,
            None => {
                proof {
                    assert(false);
                }
                return GameState::Lost;
            },
        };
        if player.dead {
            return GameState::Lost;
        }
        let (ids, cs) = self.creatures.map();
        let mut i: usize = 0;
        proof {
            self.creatures.lemma_view();
        }
        while i < ids.len()
            invariant
                self.wf(),
                ids@ == self.creatures.id_seq(),
                cs@ == self.creatures.value_seq(),
                ids@.len() == cs@.len(),
                ids@.len() == self.creatures.key_seq().len(),
                forall|j: int| 0 <= j < ids@.len() ==> #[trigger] ids@[j]@ == self.creatures.key_seq()[j],
                forall|j: int| 0 <= j < ids@.len() ==> #[trigger] self.creatures@[self.creatures.key_seq()[j]] == cs@[j],
                forall|x: u32| #[trigger] self.creatures@.contains_key(x) <==> self.creatures.key_seq().contains(x),
                i <= ids@.len(),
                forall|j: int| 0 <= j < i && ids@[j]@ != self.player_id@ ==> #[trigger] cs@[j].dead,
                !self.creatures@[self.player_id@].dead,
            decreases ids@.len() - i,
        {
            if !same_id(&ids[i], &self.player_id) && !cs[i].dead {
                proof {
                    let k = self.creatures.key_seq()[i as int];
                    assert(self.creatures.key_seq().contains(k));
                    assert(self.creature_view().contains_key(k));
                    assert(k != self.sp_player()@);
                    assert(self.creature_view()[k] == cs@[i as int]);
                    assert(!self.creature_view()[k].dead);
                }
                return GameState::Play;
            }
            i = i + 1;
        }
        proof {
            assert forall|k: u32| #[trigger] self.creature_view().contains_key(k) && k != self.sp_player()@
                implies self.creature_view()[k].dead by {
                let j = choose|j: int| 0 <= j < self.creatures.key_seq().len() && self.creatures.key_seq()[j] == k;
                assert(ids@[j]@ == k);
            }
        }
        GameState::Won
    }

    /// Raises creature `id`'s action and move points to their maximum.
    fn refill(&mut self, id: Id<Creature>) -> (out: Vec<Event>)
        requires
            old(self).wf(),
        ensures
            final(self).wf(),
            old(self).refill_step(*final(self), id, event_views(out@)),
    {
        let mut events: Vec<Event> = Vec::new();
        let (gap_ap, gap_mp) = match self.creatures.get(&id) {
            Some(c) => (c.max_ap() as i64 - c.cur_ap as i64, c.max_mp() as i64 - c.cur_mp as i64),
            None => {
                proof {
                    assert(event_views(events@) =~= Seq::<MetaView<EventDataView>>::empty());
                }
                return events;
            },
        };
        let ghost c = self.creature_view()[id@];
        let ghost a1 = normal_to(id, ActionDataView::GainAP { ap: gap_ap as i32 });
        let ghost a2 = normal_to(id, ActionDataView::GainMP { mp: gap_mp as i32 });
        let ghost w0 = *self;
        if gap_ap > 0 {
            if gap_ap <= i32::MAX as i64 {
                let es = self.execute(&normal_action(id, ActionData::GainAP { ap: gap_ap as i32 }));
                extend_events(&mut events, es);
            } else {
                events.push(Event::failed(Error::InvalidAction));
            }
        }
        let ghost mid = *self;
        let ghost e1 = event_views(events@);
        proof {
            assert(fill_step(w0, mid, a1, gap_ap as int, e1)) by {
                if gap_ap <= 0 {
                    assert(e1 =~= Seq::<MetaView<EventDataView>>::empty());
                } else if gap_ap > i32::MAX {
                    assert(e1 =~= seq![failed_event(Error::InvalidAction)]);
                } else {
                    assert(e1 =~= Seq::<MetaView<EventDataView>>::empty() + e1);
                }
            }
        }
        let mut more: Vec<Event> = Vec::new();
        if gap_mp > 0 {
            if gap_mp <= i32::MAX as i64 {
                more = self.execute(&normal_action(id, ActionData::GainMP { mp: gap_mp as i32 }));
            } else {
                more.push(Event::failed(Error::InvalidAction));
            }
        }
        let ghost e2 = event_views(more@);
        proof {
            assert(fill_step(mid, *self, a2, gap_mp as int, e2)) by {
                if gap_mp <= 0 {
                    assert(e2 =~= Seq::<MetaView<EventDataView>>::empty());
                } else if gap_mp > i32::MAX {
                    assert(e2 =~= seq![failed_event(Error::InvalidAction)]);
                }
            }
        }
        extend_events(&mut events, more);
        events
    }
}

/// Spending one move point of creature `cid`.
pub open spec fn spend_mp(cid: Id<Creature>) -> MetaView<ActionDataView> {
    normal_to(cid, ActionDataView::SpendMP { mp: 1 })
}

/// Moving creature `cid` to `to`.
pub open spec fn move_action(cid: Id<Creature>, to: Hex) -> MetaView<ActionDataView> {
    MetaView { source: Path::Global, target: Path::Creature { cid }, tags: Set::empty(), data: ActionDataView::Move { to } }
}

/// One step of a walk: the move point spent takes the world to `w1` reporting `e1`, and
/// the move, when the spending did not fail, to `w2` reporting `e2`.
pub struct MoveStep {
    pub w1: World,
    pub e1: Seq<MetaView<EventDataView>>,
    pub w2: World,
    pub e2: Seq<MetaView<EventDataView>>,
}

/// Walking creature `cid` along `path` from its `i`-th hex, through the steps `tr`, takes
/// world `w` to `after` reporting `es`. Each step first checks that the creature is still
/// where the path says, or at least next to the step's end; then one move point is spent,
/// and if that does not fail the creature moves.
pub open spec fn move_trace(
    w: World,
    after: World,
    cid: Id<Creature>,
    path: Seq<Hex>,
    i: int,
    tr: Seq<MoveStep>,
    es: Seq<MetaView<EventDataView>>,
) -> bool
    decreases tr.len(),
{
    if i < 0 || i + 1 >= path.len() {
        after == w && es == Seq::<MetaView<EventDataView>>::empty() && tr.len() == 0
    } else if !w.sp_map().places_view().contains_key(cid@) {
        after == w && es == seq![failed_event(Error::NoSuchCreature)] && tr.len() == 0
    } else if w.sp_map().places_view()[cid@] != path[i] && hex_distance(w.sp_map().places_view()[cid@], path[i + 1]) > 1 {
        after == w && es == seq![failed_event(Error::Obstructed)] && tr.len() == 0
    } else if tr.len() == 0 {
        false
    } else {
        let s = tr[0];
        let n = (s.e1.len() + s.e2.len()) as int;
        &&& w.execute_step(s.w1, spend_mp(cid), s.e1)
        &&& if s.e1.len() > 0 && s.e1[0].data is Failed {
            after == s.w1 && es == s.e1 && tr.len() == 1
        } else {
            &&& s.w1.execute_step(s.w2, move_action(cid, path[i + 1]), s.e2)
            &&& es.len() >= n
            &&& es.take(n) == s.e1 + s.e2
            &&& move_trace(s.w2, after, cid, path, i + 1, tr.drop_first(), es.skip(n))
        }
    }
}

proof fn lemma_move_step(
    wi: World,
    a2: World,
    cid: Id<Creature>,
    p: Seq<Hex>,
    i: int,
    s: MoveStep,
    tr2: Seq<MoveStep>,
    rest: Seq<MetaView<EventDataView>>,
)
    requires
        0 <= i,
        i + 1 < p.len(),
        wi.sp_map().places_view().contains_key(cid@),
        !(wi.sp_map().places_view()[cid@] != p[i] && hex_distance(wi.sp_map().places_view()[cid@], p[i + 1]) > 1),
        wi.execute_step(s.w1, spend_mp(cid), s.e1),
        !(s.e1.len() > 0 && s.e1[0].data is Failed),
        s.w1.execute_step(s.w2, move_action(cid, p[i + 1]), s.e2),
        move_trace(s.w2, a2, cid, p, i + 1, tr2, rest),
    ensures
        move_trace(wi, a2, cid, p, i, seq![s] + tr2, s.e1 + s.e2 + rest),
{
    let es = s.e1 + s.e2 + rest;
    let n = (s.e1.len() + s.e2.len()) as int;
    assert(es.take(n) =~= s.e1 + s.e2);
    assert(es.skip(n) =~= rest);
    assert((seq![s] + tr2).drop_first() =~= tr2);
    assert((seq![s] + tr2)[0] == s);
}

proof fn lemma_move_spend_fails(
    wi: World,
    cid: Id<Creature>,
    p: Seq<Hex>,
    i: int,
    s: MoveStep,
)
    requires
        0 <= i,
        i + 1 < p.len(),
        wi.sp_map().places_view().contains_key(cid@),
        !(wi.sp_map().places_view()[cid@] != p[i] && hex_distance(wi.sp_map().places_view()[cid@], p[i + 1]) > 1),
        wi.execute_step(s.w1, spend_mp(cid), s.e1),
        s.e1.len() > 0 && s.e1[0].data is Failed,
    ensures
        move_trace(wi, s.w1, cid, p, i, seq![s], s.e1),
{
    assert(seq![s][0] == s);
}

impl World {
    /// What moving creature `cid` to `to` does: no move when it is not on the map or no
    /// walk of open tiles leads there, else it walks a shortest walk of open tiles there, as `path_to` finds one.
    pub open spec fn move_creature_step(&self, after: World, cid: Id<Creature>, to: Hex, es: Seq<MetaView<EventDataView>>) -> bool {
        let m = self.sp_map();
        if !m.places_view().contains_key(cid@) {
            after == *self && es == seq![failed_event(Error::NoSuchCreature)]
        } else if !m.tiles_view().contains_key(to) {
            after == *self && es == seq![failed_event(Error::OutOfBounds)]
        } else if !tile_open(m.tiles_view()[to]) || !reachable(m.tiles_view(), m.places_view()[cid@], to) {
            after == *self && es == seq![failed_event(Error::Obstructed)]
        } else {
            exists|p: Seq<Hex>, tr: Seq<MoveStep>| #[trigger] is_shortest_walk(m.tiles_view(), p, m.places_view()[cid@], to) && #[trigger] move_trace(*self, after, cid, p, 0, tr, es)
        }
    }

    /// Walks creature `cid` to `to` along a path of open tiles, a move point a step.
    pub fn move_creature(&mut self, cid: Id<Creature>, to: Hex) -> (out: Vec<Event>)
        requires
            old(self).wf(),
        ensures
            final(self).wf(),
            old(self).move_creature_step(*final(self), cid, to, event_views(out@)),
    {
        proof {
            self.map.lemma_wf();
        }
        let from = match self.map.creature_hex(cid) {
            Some(h) => h,
            None => {
                let r = vec![Event::failed(Error::NoSuchCreature)];
                assert(event_views(r@) =~= seq![failed_event(Error::NoSuchCreature)]);
                return r;
            },
        };
        let path = match self.map.path_to(from, to) {
            Ok(p) => p,
            Err(e) => {
                let r = vec![Event::failed(e)];
                assert(event_views(r@) =~= seq![failed_event(e)]);
                return r;
            },
        };
        let ghost w0 = *self;
        let ghost p = path@;
        proof {
            assert(reachable(old(self).sp_map().tiles_view(), from, to));
        }
        let mut out: Vec<Event> = Vec::new();
        let mut i: usize = 0;
        let ghost mut pre: Seq<MoveStep> = Seq::empty();
        proof {
            assert forall|a2: World, tr2: Seq<MoveStep>, rest: Seq<MetaView<EventDataView>>| move_trace(*self, a2, cid, p, 0, tr2, rest)
                implies move_trace(w0, a2, cid, p, 0, pre + tr2, event_views(out@) + rest) by {
                assert(event_views(out@) + rest =~= rest);
                assert(pre + tr2 =~= tr2);
            }
        }
        while i < path.len() - 1
            invariant
                self.wf(),
                path@ == p,
                p.len() >= 1,
                i < p.len(),
                w0 == *old(self),
                old(self).sp_map().places_view().contains_key(cid@),
                old(self).sp_map().places_view()[cid@] == from,
                old(self).sp_map().tiles_view().contains_key(to),
                tile_open(old(self).sp_map().tiles_view()[to]),
                reachable(old(self).sp_map().tiles_view(), from, to),
                is_shortest_walk(old(self).sp_map().tiles_view(), p, from, to),
                forall|a2: World, tr2: Seq<MoveStep>, rest: Seq<MetaView<EventDataView>>| #[trigger] move_trace(*self, a2, cid, p, i as int, tr2, rest)
                    ==> move_trace(w0, a2, cid, p, 0, pre + tr2, event_views(out@) + rest),
            decreases p.len() - i,
        {
            let step_from = path[i];
            let step_to = path[i + 1];
            let ghost wi = *self;
            let ghost oi = event_views(out@);
            let actual = match self.map.creature_hex(cid) {
                Some(h) => h,
                None => {
                    let f = Event::failed(Error::NoSuchCreature);
                    proof {
                        assert(move_trace(wi, wi, cid, p, i as int, Seq::empty(), seq![failed_event(Error::NoSuchCreature)]));
                        assert(pre + Seq::<MoveStep>::empty() =~= pre);
                    }
                    out.push(f);
                    proof {
                        assert(event_views(out@) =~= oi + seq![failed_event(Error::NoSuchCreature)]);
                        assert(event_views(out@) =~= oi + seq![failed_event(Error::NoSuchCreature)] + Seq::empty());
                    }
                    return out;
                },
            };
            if actual != step_from && actual.distance_to(step_to) > 1 {
                let f = Event::failed(Error::Obstructed);
                proof {
                    assert(move_trace(wi, wi, cid, p, i as int, Seq::empty(), seq![failed_event(Error::Obstructed)]));
                    assert(pre + Seq::<MoveStep>::empty() =~= pre);
                }
                out.push(f);
                proof {
                    assert(event_views(out@) =~= oi + seq![failed_event(Error::Obstructed)]);
                }
                return out;
            }
            let mp_evs = self.execute(&normal_action(cid, ActionData::SpendMP { mp: 1 }));
            let ghost w1 = *self;
            let ghost e1 = event_views(mp_evs@);
            let failed = Event::is_failure(&mp_evs);
            proof {
                if mp_evs@.len() > 0 {
                    assert(e1[0] == mp_evs@[0]@);
                }
            }
            extend_events(&mut out, mp_evs);
            if failed {
                proof {
                    let s = MoveStep { w1, e1, w2: w1, e2: Seq::empty() };
                    lemma_move_spend_fails(wi, cid, p, i as int, s);
                    assert(event_views(out@) =~= oi + e1);
                }
                return out;
            }
            let mv = self.execute(&Meta { source: Path::Global, target: Path::Creature { cid }, tags: VecSet::new(), data: ActionData::Move { to: step_to } });
            let ghost w2 = *self;
            let ghost e2 = event_views(mv@);
            extend_events(&mut out, mv);
            proof {
                let s = MoveStep { w1, e1, w2, e2 };
                let pre0 = pre;
                pre = pre.push(s);
                assert forall|a2: World, tr2: Seq<MoveStep>, rest: Seq<MetaView<EventDataView>>| #[trigger] move_trace(w2, a2, cid, p, i + 1, tr2, rest)
                    implies move_trace(w0, a2, cid, p, 0, pre + tr2, event_views(out@) + rest) by {
                    lemma_move_step(wi, a2, cid, p, i as int, s, tr2, rest);
                    assert(oi + (e1 + e2 + rest) =~= event_views(out@) + rest);
                    assert(pre0 + (seq![s] + tr2) =~= pre + tr2);
                }
            }
            i = i + 1;
        }
        proof {
            assert(move_trace(*self, *self, cid, p, i as int, Seq::empty(), Seq::empty()));
            assert(event_views(out@) + Seq::<MetaView<EventDataView>>::empty() =~= event_views(out@));
            assert(pre + Seq::<MoveStep>::empty() =~= pre);
        }
        out
    }
}

impl World {
    /// Executing an action keeps the set of creatures, the player and the tiles' hexes.
    pub proof fn lemma_execute_keeps(&self, after: World, a: MetaView<ActionDataView>, es: Seq<MetaView<EventDataView>>)
        requires
            self.execute_step(after, a, es),
        ensures
            after.creature_view().dom() == self.creature_view().dom(),
            after.sp_player() == self.sp_player(),
            after.sp_map().coord_seq() == self.sp_map().coord_seq(),
    {
        reveal(World::execute_step);
        let r = choose|r: Result<Seq<MetaView<EventDataView>>, Error>|
            #[trigger] self.resolve_step(after, self.alters_from(a, 0), r) && es == reported(r);
        assert(after.creature_view().dom() =~= self.creature_view().dom());
    }
}

impl Path {
    /// Where the creature this path lies in stands, if anywhere.
    pub fn hex(&self, world: &World) -> (r: Option<Hex>)
        ensures
            r == match spec_path_creature(*self) {
                Some(cid) => world.sp_map().places_view().get(cid@),
                None => None,
            },
    {
        match self.creature() {
            Some(cid) => world.map().creature_hex(cid),
            None => None,
        }
    }
}

/// Drawing a new hand for creature `cid`.
pub open spec fn new_hand_action(cid: Id<Creature>) -> MetaView<ActionDataView> {
    MetaView { source: Path::Global, target: Path::Creature { cid }, tags: Set::empty(), data: ActionDataView::NewHand }
}

/// Who stands on `h` when a game starts: the player (id 0) at the origin and the
/// monopods (ids 1 and 2) at (-4, 1) and (4, -1); nobody elsewhere.
pub open spec fn starting_occupant(h: Hex) -> Option<Id<Creature>> {
    if h == (Hex { x: 0, y: 0 }) {
        Some(id_of(0))
    } else if h == (Hex { x: -4i32, y: 1 }) {
        Some(id_of(1))
    } else if h == (Hex { x: 4, y: -1i32 }) {
        Some(id_of(2))
    } else {
        None
    }
}

/// An entity without statuses alters no action.
pub proof fn lemma_no_status_no_alter(e: Entity, on: Path, a: MetaView<ActionDataView>)
    requires
        e.wf(),
        e.status@ == Map::<u32, Status>::empty(),
    ensures
        e.spec_alters(on, a) == a,
{
    e.status.lemma_view();
    if e.status.key_seq().len() > 0 {
        assert(e.status@.contains_key(e.status.key_seq()[0]));
    }
    assert(e.spec_alter_order().len() == 0);
}

impl World {
    /// No entity holds a status: not the world, not a creature, not a part.
    pub open spec fn no_statuses(&self) -> bool {
        let cs = self.creature_view();
        &&& self.sp_entity().status@ == Map::<u32, Status>::empty()
        &&& forall|k: u32| #[trigger] cs.contains_key(k) ==> cs[k].entity.status@ == Map::<u32, Status>::empty()
        &&& forall|k: u32, j: u32| cs.contains_key(k) && #[trigger] cs[k].parts@.contains_key(j)
            ==> cs[k].parts@[j].entity.status@ == Map::<u32, Status>::empty()
    }

    /// Where no entity holds a status, every action goes through the scopes unaltered.
    pub proof fn lemma_no_alters(&self, a: MetaView<ActionDataView>, i: int)
        requires
            self.wf(),
            self.no_statuses(),
        ensures
            self.alters_from(a, i) == a,
        decreases 5 - i,
    {
        if 0 <= i < 5 {
            match spec_scope_path(spec_scopes()[i], a.source, a.target) {
                Some(p) => match self.entity_at(p) {
                    Some(e) => {
                        self.lemma_entity_wf(p);
                        lemma_no_status_no_alter(e, p, a);
                    },
                    None => {},
                },
                None => {},
            }
            self.lemma_no_alters(a, i + 1);
        }
    }

    /// The map a game starts on: the hexes within 5 of the origin, each with its initial
    /// terrain and its starting occupant, who stand where `starting_occupant` says.
    pub open spec fn starting_map(&self) -> bool {
        let m = self.sp_map();
        &&& forall|h: Hex| #[trigger] m.tiles_view().contains_key(h) <==> hex_distance(Hex { x: 0, y: 0 }, h) <= 5
        &&& forall|h: Hex| #[trigger] m.tiles_view().contains_key(h) ==> m.tiles_view()[h] == (Tile {
            space: initial_space(h),
            creature: starting_occupant(h),
        })
        &&& m.places_view() == map![0u32 => Hex { x: 0, y: 0 }, 1u32 => Hex { x: -4i32, y: 1 }, 2u32 => Hex { x: 4, y: -1i32 }]
    }

    /// The world a game starts from, before the player draws: the player as `player` builds
    /// it, with id 0, and two monopods as `Monopod::creature` builds them, with ids 1 and 2,
    /// on the starting map, with no status on the world.
    pub open spec fn is_starting(&self) -> bool {
        let cs = self.creature_view();
        &&& self.wf()
        &&& self.sp_player()@ == 0
        &&& self.sp_creatures().key_seq() == seq![0u32, 1u32, 2u32]
        &&& is_player(cs[0])
        &&& is_monopod(cs[1])
        &&& is_monopod(cs[2])
        &&& self.starting_map()
        &&& self.sp_entity().status@ == Map::<u32, Status>::empty()
    }

    /// A new game once the player has drawn: the starting world but for the player's piles,
    /// which hold a hand of five and a draw pile of three, between them each card of the
    /// player's parts once, and nothing discarded; the game is on.
    pub open spec fn is_new_game(&self) -> bool {
        let cs = self.creature_view();
        let pc = cs[0];
        &&& self.wf()
        &&& self.sp_player()@ == 0
        &&& self.sp_creatures().key_seq() == seq![0u32, 1u32, 2u32]
        &&& is_player_body(pc)
        &&& pc.hand@.len() == 5
        &&& pc.draw@.len() == 3
        &&& pc.discard@ == Seq::<CardId>::empty()
        &&& (pc.draw@ + pc.hand@).to_multiset() == all_card_ids(pc.parts.id_seq(), pc.part_seq(), 6).to_multiset()
        &&& is_monopod(cs[1])
        &&& is_monopod(cs[2])
        &&& self.starting_map()
        &&& self.sp_entity().status@ == Map::<u32, Status>::empty()
        &&& self.spec_state() == GameState::Play
    }

    /// A new game: the starting world once the player has drawn a hand.
    pub fn new() -> (r: World)
        ensures
            r.is_new_game(),
            exists|w0: World, es: Seq<MetaView<EventDataView>>|
                w0.is_starting() && #[trigger] w0.execute_step(r, new_hand_action(w0.sp_player()), es),
    {
        let mut creatures: IdMap<Creature> = IdMap::new();
        let mut map = TileMap::new();
        let ghost t0 = map.tiles_view();
        let pc = crate::library::player::player();
        let pc_id = creatures.add(pc);
        let o = Hex { x: 0, y: 0 };
        let e1 = Hex { x: -4, y: 1 };
        let e2 = Hex { x: 4, y: -1 };
        proof {
            assert(hex_distance(Hex { x: 0, y: 0 }, o) <= 5);
            assert(hex_distance(Hex { x: 0, y: 0 }, e1) <= 5);
            assert(hex_distance(Hex { x: 0, y: 0 }, e2) <= 5);
        }
        match map.place_at(pc_id, o) {
            Ok(()) => {},
            Err(_) => {
                proof {
                    assert(false);
                }
            },
        }
        let m1 = crate::library::npc::Monopod::creature();
        let enemy_id = creatures.add(m1);
        match map.place_at(enemy_id, e1) {
            Ok(()) => {},
            Err(_) => {
                proof {
                    assert(false);
                }
            },
        }
        let m2 = crate::library::npc::Monopod::creature();
        let enemy2_id = creatures.add(m2);
        match map.place_at(enemy2_id, e2) {
            Ok(()) => {},
            Err(_) => {
                proof {
                    assert(false);
                }
            },
        }
        let mut out = World { map, player_id: pc_id, creatures, entity: Entity::new() };
        proof {
            assert(out.creatures.key_seq() =~= seq![0u32, 1u32, 2u32]);
            assert(out.map.places_view() =~= map![0u32 => Hex { x: 0, y: 0 }, 1u32 => Hex { x: -4i32, y: 1 }, 2u32 => Hex { x: 4, y: -1i32 }]);
            assert forall|k: u32| #[trigger] out.creatures@.contains_key(k) implies out.creatures@[k].wf() by {
                assert(k == 0 || k == 1 || k == 2);
            }
            assert forall|k: u32| #[trigger] out.creatures@.contains_key(k) implies out.map.places_view().contains_key(k) by {
                assert(k == 0 || k == 1 || k == 2);
            }
            lemma_id_of_view(pc_id);
            lemma_id_of_view(enemy_id);
            lemma_id_of_view(enemy2_id);
            assert forall|h: Hex| #[trigger] out.map.tiles_view().contains_key(h) <==> hex_distance(Hex { x: 0, y: 0 }, h) <= 5 by {
                assert(out.map.tiles_view().contains_key(h) <==> t0.contains_key(h));
            }
            assert forall|h: Hex| #[trigger] out.map.tiles_view().contains_key(h) implies out.map.tiles_view()[h] == (Tile {
                space: initial_space(h),
                creature: starting_occupant(h),
            }) by {
                assert(t0.contains_key(h));
            }
            assert(out.creature_view()[0] == pc);
            assert(out.creature_view()[1] == m1);
            assert(out.creature_view()[2] == m2);
            assert(out.is_starting());
            lemma_starting_no_statuses(out);
        }
        let ghost w0 = out;
        let es = out.execute(&to_creature(pc_id, ActionData::NewHand));
        proof {
            let a = new_hand_action(w0.sp_player());
            assert(w0.execute_step(out, a, event_views(es@)));
            lemma_new_hand_drawn(w0, out, event_views(es@));
        }
        out
    }
}

/// No entity of the starting world holds a status.
proof fn lemma_starting_no_statuses(w: World)
    requires
        w.is_starting(),
    ensures
        w.no_statuses(),
{
    let cs = w.creature_view();
    w.lemma_wf();
    assert forall|k: u32| #[trigger] cs.contains_key(k) implies cs[k].entity.status@ == Map::<u32, Status>::empty() by {
        w.sp_creatures().lemma_view();
        assert(w.sp_creatures().key_seq().contains(k));
        assert(k == 0 || k == 1 || k == 2);
    }
    assert forall|k: u32, j: u32| cs.contains_key(k) && #[trigger] cs[k].parts@.contains_key(j)
        implies cs[k].parts@[j].entity.status@ == Map::<u32, Status>::empty() by {
        w.sp_creatures().lemma_view();
        assert(w.sp_creatures().key_seq().contains(k));
        assert(k == 0 || k == 1 || k == 2);
        let c = cs[k];
        c.parts.lemma_view();
        let ix = c.parts.key_seq().index_of(j);
        assert(c.parts.key_seq()[ix] == j);
        assert(c.parts@[j] == c.part_seq()[ix]);
        if k == 0 {
            assert(0 <= ix < 6);
        } else {
            assert(0 <= ix < 2);
        }
    }
}

/// Drawing the first hand in the starting world makes a new game.
proof fn lemma_new_hand_drawn(w0: World, w: World, es: Seq<MetaView<EventDataView>>)
    requires
        w0.is_starting(),
        w0.no_statuses(),
        w.wf(),
        w0.execute_step(w, new_hand_action(w0.sp_player()), es),
    ensures
        w.is_new_game(),
{
    reveal(World::execute_step);
    let a = new_hand_action(w0.sp_player());
    w0.lemma_no_alters(a, 0);
    let r0 = choose|r0: Result<Seq<MetaView<EventDataView>>, Error>| #[trigger] w0.resolve_step(w, w0.alters_from(a, 0), r0) && es == reported(r0);
    assert(w0.resolve_step(w, a, r0));
    let cid = w0.sp_player();
    w0.lemma_wf();
    w.lemma_wf();
    let c = w0.creature_view()[0];
    assert(w0.creature_view().contains_key(cid@));
    assert(c.can_take(a));
    let c2 = w.creature_view()[0];
    assert(w0.creature_replaced(w, 0, c2));
    assert(c.resolve_step(c2, a, r0));
    let hes = r0->Ok_0;
    assert(c.new_hand_step(c2, cid, a, hes));
    // The piles after the draw.
    let d0 = c.draw@;
    assert(c.spec_hand_size() == 5);
    assert(c2.hand@.len() == 5);
    assert(c2.draw@ == d0.take(3));
    assert(c2.discard@ =~= Seq::<CardId>::empty());
    assert(c2.hand@ =~= d0.skip(3).reverse());
    d0.skip(3).lemma_reverse_to_multiset();
    vstd::seq_lib::lemma_multiset_commutative(d0.take(3), d0.skip(3).reverse());
    vstd::seq_lib::lemma_multiset_commutative(d0.take(3), d0.skip(3));
    assert(d0.take(3) + d0.skip(3) =~= d0);
    // The body is the player's own.
    assert(w.creature_view().contains_key(0));
    IdMap::<Part>::lemma_same_view(c.parts, c2.parts);
    assert(c2.part_seq() == c.part_seq());
    assert(is_player_body(c2));
    // The monopods and the map are untouched.
    w0.sp_creatures().lemma_view();
    assert(w0.sp_creatures().key_seq()[1] == 1u32);
    assert(w0.creature_view().contains_key(1));
    assert(w.creature_view()[1] == w0.creature_view()[1]);
    assert(w.creature_view()[2] == w0.creature_view()[2]);
    assert(w.creature_view().contains_key(1));
    assert(!w.creature_view()[1].dead);
    assert(w.sp_creatures().key_seq() == seq![0u32, 1u32, 2u32]);
}

/// A creature's turn to act, with the intent it acts on.
pub struct NpcPlay {
    pub id: Id<Creature>,
    pub intent: Intent,
}

impl World {
    /// What planning every creature's next turn does: each living creature with an NPC plans
    /// as `NPC::update` says, against this world; nothing else changes.
    pub open spec fn plans_step(&self, after: World) -> bool {
        &&& after.sp_map() == self.sp_map()
        &&& after.sp_player() == self.sp_player()
        &&& after.sp_entity() == self.sp_entity()
        &&& after.sp_creatures().key_seq() == self.sp_creatures().key_seq()
        &&& after.sp_creatures().id_seq() == self.sp_creatures().id_seq()
        &&& after.sp_creatures().next() == self.sp_creatures().next()
        &&& after.creature_view().dom() == self.creature_view().dom()
        &&& forall|k: u32| #[trigger] self.creature_view().contains_key(k) ==> {
            let c = self.creature_view()[k];
            let c2 = after.creature_view()[k];
            &&& (Creature { npc: c.npc, ..c2 }) == c
            &&& if !c.dead && c.npc is Some {
                c2.npc matches Some(n2) && c.npc->0.update_step(n2, *self, id_of(k))
            } else {
                c2.npc == c.npc
            }
        }
    }

    /// Lets every living creature with an NPC plan its next turn.
    fn update_npc_plans(&mut self)
        requires
            old(self).wf(),
        ensures
            final(self).wf(),
            old(self).plans_step(*final(self)),
    {
        proof {
            self.creatures.lemma_view();
        }
        let ids = copy_ids(self.creatures.keys());
        let ghost w0 = *self;
        let ghost ks = self.creatures.key_seq();
        let mut i: usize = 0;
        while i < ids.len()
            invariant
                self.wf(),
                ids@ == w0.sp_creatures().id_seq(),
                ks == w0.sp_creatures().key_seq(),
                ks.len() == ids@.len(),
                ks.no_duplicates(),
                forall|j: int| 0 <= j < ids@.len() ==> #[trigger] ids@[j]@ == ks[j],
                forall|x: u32| #[trigger] w0.creature_view().contains_key(x) <==> ks.contains(x),
                i <= ids@.len(),
                self.sp_map() == w0.sp_map(),
                self.sp_player() == w0.sp_player(),
                self.sp_entity() == w0.sp_entity(),
                self.sp_creatures().key_seq() == ks,
                self.sp_creatures().id_seq() == w0.sp_creatures().id_seq(),
                self.sp_creatures().next() == w0.sp_creatures().next(),
                self.creature_view().dom() == w0.creature_view().dom(),
                forall|k: u32| #[trigger] w0.creature_view().contains_key(k) ==> (Creature { npc: w0.creature_view()[k].npc, ..self.creature_view()[k] }) == w0.creature_view()[k],
                forall|j: int| 0 <= j < i ==> {
                    let k = #[trigger] ks[j];
                    let c = w0.creature_view()[k];
                    let c2 = self.creature_view()[k];
                    if !c.dead && c.npc is Some {
                        c2.npc matches Some(n2) && c.npc->0.update_step(n2, w0, id_of(k))
                    } else {
                        c2.npc == c.npc
                    }
                },
                forall|j: int| i <= j < ks.len() ==> self.creature_view()[#[trigger] ks[j]].npc == w0.creature_view()[ks[j]].npc,
            decreases ids@.len() - i,
        {
            let id = ids[i];
            let ghost k = ks[i as int];
            proof {
                assert(ks.contains(k));
                assert(w0.creature_view().contains_key(k));
            }
            let npc_opt = match self.creatures.get(&id) {
                Some(c) => if c.dead {
                    None
                } else {
                    match &c.npc {
                        Some(n) => Some(copy_npc(n)),
                        None => None,
                    }
                },
                None => None,
            };
            match npc_opt {
                None => {},
                Some(npc) => {
                    let mut npc = npc;
                    let ghost n0 = npc;
                    npc.update(self, id);
                    proof {
                        lemma_first_ok_frame(n0.behavior.spec_next().1, *self, w0, id, 0);
                        assert(w0.creature_view()[k].npc->0.update_step(npc, w0, id_of(k)));
                    }
                    let ghost wb = *self;
                    match self.creatures.get_mut(&id) {
                        Some(c) => {
                            c.npc = Some(npc);
                        },
                        None => {
                            proof {
                                assert(false);
                            }
                        },
                    }
                    proof {
                        assert forall|x: u32| #[trigger] self.creatures@.contains_key(x) implies self.creatures@[x].wf() by {
                            assert(wb.creatures@.contains_key(x));
                        }
                        assert forall|x: u32| #[trigger] self.creatures@.contains_key(x) implies self.map.places_view().contains_key(x) by {
                            assert(wb.creatures@.contains_key(x));
                        }
                        assert(self.creature_view().dom() =~= w0.creature_view().dom());
                    }
                },
            }
            proof {
                assert forall|j: int| 0 <= j < i + 1 implies {
                    let k = #[trigger] ks[j];
                    let c = w0.creature_view()[k];
                    let c2 = self.creature_view()[k];
                    if !c.dead && c.npc is Some {
                        c2.npc matches Some(n2) && c.npc->0.update_step(n2, w0, id_of(k))
                    } else {
                        c2.npc == c.npc
                    }
                } by {
                    if j < i {
                        assert(ks[j] != ks[i as int]);
                    }
                }
                assert forall|j: int| i + 1 <= j < ks.len() implies self.creature_view()[#[trigger] ks[j]].npc == w0.creature_view()[ks[j]].npc by {
                    assert(ks[j] != ks[i as int]);
                }
            }
            i = i + 1;
        }
        proof {
            assert forall|k: u32| #[trigger] w0.creature_view().contains_key(k) implies {
                let c = w0.creature_view()[k];
                let c2 = self.creature_view()[k];
                &&& (Creature { npc: c.npc, ..c2 }) == c
                &&& if !c.dead && c.npc is Some {
                    c2.npc matches Some(n2) && c.npc->0.update_step(n2, w0, id_of(k))
                } else {
                    c2.npc == c.npc
                }
            } by {
                let j = choose|j: int| 0 <= j < ks.len() && ks[j] == k;
            }
        }
    }
}

/// The living creatures with an NPC among the first `n` of `ids` and `cs`, each with the
/// intent it holds, in order.
pub open spec fn npc_plays(ids: Seq<Id<Creature>>, cs: Seq<Creature>, n: int) -> Seq<(Id<Creature>, Intent)>
    decreases n,
{
    if n <= 0 {
        Seq::empty()
    } else if !cs[n - 1].dead && cs[n - 1].npc is Some {
        npc_plays(ids, cs, n - 1).push((ids[n - 1], cs[n - 1].npc->0.intent))
    } else {
        npc_plays(ids, cs, n - 1)
    }
}

/// The creatures of `w` that act in the enemies' turn, with their intents.
pub open spec fn turn_plays(w: World) -> Seq<(Id<Creature>, Intent)> {
    npc_plays(w.sp_creatures().id_seq(), w.sp_creatures().value_seq(), w.sp_creatures().id_seq().len() as int)
}

/// What is shown of a step of creature `id` that came to `r`: its events, or the error's
/// message over the creature.
pub open spec fn shown(id: Id<Creature>, r: Result<Seq<MetaView<EventDataView>>, Error>) -> Seq<MetaView<EventDataView>> {
    match r {
        Ok(es) => es,
        Err(e) => seq![float_text(id, message_text(e) + "!"@)],
    }
}

/// Creature `id` plays intent `it`: it moves as the intent needs, then carries it out; a
/// step that fails is shown over it.
pub open spec fn play_step(w: World, after: World, id: Id<Creature>, it: Intent, es: Seq<MetaView<EventDataView>>) -> bool {
    exists|mid: World, r1: Result<Vec<Event>, Error>, r2: Result<Seq<MetaView<EventDataView>>, Error>|
        #![trigger it.act_step(mid, after, id, r2), result_views(r1)]
        match it.kind {
            IntentKind::Attack { .. } => melee_move_step(w, mid, id, r1),
            IntentKind::Stunned => mid == w && (r1 matches Ok(v) && v@.len() == 0),
        } && it.act_step(mid, after, id, r2) && es == shown(id, result_views(r1)) + shown(id, r2)
}

/// Step `i` lets the `i`-th of `plays` play.
pub open spec fn play_each(plays: Seq<(Id<Creature>, Intent)>) -> StepFn {
    |i: int, w: World, after: World, es: Seq<MetaView<EventDataView>>| play_step(w, after, plays[i].0, plays[i].1, es)
}

/// Step `i` refills the `i`-th of `ids`, unless it is the player.
pub open spec fn refill_each(ids: Seq<Id<Creature>>, player: Id<Creature>) -> StepFn {
    |i: int, w: World, after: World, es: Seq<MetaView<EventDataView>>|
        if ids[i] == player {
            after == w && es == Seq::<MetaView<EventDataView>>::empty()
        } else {
            w.refill_step(after, ids[i], es)
        }
}

/// The start of the enemies' turn: the player's points are refilled, a new hand drawn, and
/// the end of the player's turn announced.
pub open spec fn turn_start(w: World, after: World, es: Seq<MetaView<EventDataView>>) -> bool {
    exists|w1: World, e1: Seq<MetaView<EventDataView>>, w2: World, e2: Seq<MetaView<EventDataView>>, e3: Seq<MetaView<EventDataView>>|
        #![trigger w.refill_step(w1, w.sp_player(), e1), w1.execute_step(w2, new_hand_action(w.sp_player()), e2), announce_step(w2, after, EventDataView::PlayerTurnEnd, e3)]
        w.refill_step(w1, w.sp_player(), e1) && w1.execute_step(w2, new_hand_action(w.sp_player()), e2)
            && announce_step(w2, after, EventDataView::PlayerTurnEnd, e3) && es == e1 + e2 + e3
}

/// The middle of the enemies' turn: each creature that acts plays its intent in turn, then
/// every creature but the player is refilled in turn.
pub open spec fn turn_middle(w: World, after: World, es: Seq<MetaView<EventDataView>>) -> bool {
    exists|mid: World, e1: Seq<MetaView<EventDataView>>, e2: Seq<MetaView<EventDataView>>|
        #![trigger steps(w, mid, turn_plays(w).len() as int, play_each(turn_plays(w)), e1), steps(mid, after, mid.sp_creatures().id_seq().len() as int, refill_each(mid.sp_creatures().id_seq(), mid.sp_player()), e2)]
        steps(w, mid, turn_plays(w).len() as int, play_each(turn_plays(w)), e1) && steps(
            mid,
            after,
            mid.sp_creatures().id_seq().len() as int,
            refill_each(mid.sp_creatures().id_seq(), mid.sp_player()),
            e2,
        ) && es == e1 + e2
}

/// The end of the enemies' turn: its end is announced and every NPC plans its next turn.
pub open spec fn turn_end(w: World, after: World, es: Seq<MetaView<EventDataView>>) -> bool {
    exists|mid: World|
        #![trigger announce_step(w, mid, EventDataView::NpcTurnEnd, es), mid.plans_step(after)]
        announce_step(w, mid, EventDataView::NpcTurnEnd, es) && mid.plans_step(after)
}

/// The plays held match the plays spelled out: the same creatures, each with an intent
/// from the same part, at the same cost, of the same kind.
pub open spec fn plays_match(held: Seq<NpcPlay>, spelled: Seq<(Id<Creature>, Intent)>) -> bool {
    &&& held.len() == spelled.len()
    &&& forall|k: int| 0 <= k < held.len() ==> {
        &&& (#[trigger] held[k]).id == spelled[k].0
        &&& held[k].intent.from == spelled[k].1.from
        &&& held[k].intent.cost == spelled[k].1.cost
        &&& held[k].intent.kind == spelled[k].1.kind
    }
}

/// Carrying out an intent reads only its part, its cost and its kind.
proof fn lemma_act_step_fields(a: Intent, b: Intent, w: World, after: World, id: Id<Creature>, r: Result<Seq<MetaView<EventDataView>>, Error>)
    requires
        a.from == b.from,
        a.cost == b.cost,
        a.kind == b.kind,
        a.act_step(w, after, id, r),
    ensures
        b.act_step(w, after, id, r),
{
}

fn copy_ids(ids: &[Id<Creature>]) -> (r: Vec<Id<Creature>>)
    ensures
        r@ == ids@,
{
    let mut out: Vec<Id<Creature>> = Vec::new();
    let mut i: usize = 0;
    while i < ids.len()
        invariant
            i <= ids@.len(),
            out@ == ids@.take(i as int),
        decreases ids@.len() - i,
    {
        out.push(ids[i]);
        assert(out@ =~= ids@.take(i + 1));
        i = i + 1;
    }
    assert(out@ =~= ids@);
    out
}

impl World {
    /// Starts playing the `hand_ix`-th card in the hand of creature `creature_id`.
    pub fn start_play(&self, creature_id: Id<Creature>, hand_ix: usize, lines: &[SightLine]) -> (r: Result<InPlay, Error>)
        requires
            self.wf(),
        ensures
            Card::start_play_result(*self, creature_id, hand_ix, lines@, r),
    {
        Card::start_play(self, creature_id, hand_ix, lines)
    }

    /// Finishes playing `in_play` on `target`.
    pub fn finish_play(&mut self, in_play: InPlay, target: &Path) -> (out: Vec<Event>)
        requires
            old(self).wf(),
            in_play.behavior.apply_defined(*old(self), in_play.spec_source(), *target),
        ensures
            final(self).wf(),
            in_play.finish_step(*old(self), *final(self), *target, event_views(out@)),
    {
        in_play.finish(self, target)
    }

    /// `a` altered by the statuses of the scopes in `scopes` from the `i`-th on.
    pub open spec fn scaled_from(&self, a: MetaView<ActionDataView>, scopes: Seq<Scope>, i: int) -> MetaView<ActionDataView>
        decreases scopes.len() - i,
    {
        if i < 0 || i >= scopes.len() {
            a
        } else {
            let b = match spec_scope_path(scopes[i], a.source, a.target) {
                Some(p) => match self.entity_at(p) {
                    Some(e) => e.spec_alters(p, a),
                    None => a,
                },
                None => a,
            };
            self.scaled_from(b, scopes, i + 1)
        }
    }

    /// The damage a hit for `base` from `source` on `target` would deal once the statuses of
    /// `scopes` alter it; none if they make it something other than a hit.
    pub fn scale_damage(&self, source: &Path, target: &Path, base: i32, scopes: &[Scope]) -> (r: Option<i32>)
        requires
            self.wf(),
        ensures
            r == match self.scaled_from(
                MetaView { source: *source, target: *target, tags: set![Tag::Attack], data: ActionDataView::Hit { damage: base } },
                scopes@,
                0,
            ).data {
                ActionDataView::Hit { damage } => Some(damage),
                _ => None::<i32>,
            },
    {
        let mut action = Meta { source: *source, target: *target, tags: tags_of(Tag::Attack), data: ActionData::Hit { damage: base } };
        let ghost goal = self.scaled_from(action@, scopes@, 0);
        let mut i: usize = 0;
        while i < scopes.len()
            invariant
                self.wf(),
                i <= scopes@.len(),
                goal == self.scaled_from(action@, scopes@, i as int),
            decreases scopes@.len() - i,
        {
            match scopes[i].path(&action) {
                Some(path) => match self.entity_ref(&path) {
                    Ok(entity) => {
                        action = entity.apply_alters(&path, &action);
                    },
                    Err(_) => {},
                },
                None => {},
            }
            i = i + 1;
        }
        match action.data {
            ActionData::Hit { damage } => Some(damage),
            _ => None,
        }
    }

    /// The enemies' turn: the player's points are refilled and a new hand drawn, the
    /// player's turn ends; each living creature with an NPC moves for its intent and
    /// carries it out, a failure shown over it; every other creature's points are refilled;
    /// the enemies' turn ends; and every NPC plans its next turn.
    pub fn npc_turn(&mut self) -> (events: Vec<Event>)
        requires
            old(self).wf(),
        ensures
            final(self).wf(),
            old(self).keeps(*final(self)),
            old(self).npc_turn_step(*final(self), event_views(events@)),
    {
        let ghost w0 = *self;
        let mut events: Vec<Event> = Vec::new();
        let player_id = self.player_id;
        let r = self.refill(player_id);
        let ghost w1 = *self;
        let ghost e1 = event_views(r@);
        extend_events(&mut events, r);
        proof {
            assert(event_views(events@) =~= e1);
            w0.lemma_refill_keeps(w1, player_id, e1);
        }
        let nh = self.execute(&to_creature(player_id, ActionData::NewHand));
        let ghost w2 = *self;
        let ghost e2 = event_views(nh@);
        proof {
            w1.lemma_execute_keeps(*self, new_hand_action(player_id), e2);
        }
        extend_events(&mut events, nh);
        let pe = self.system_event(EventData::PlayerTurnEnd);
        let ghost w3 = *self;
        let ghost e3 = event_views(pe@);
        extend_events(&mut events, pe);
        let ghost ea = e1 + e2 + e3;
        proof {
            assert(event_views(events@) =~= ea);
            assert(turn_start(w0, w3, ea));
        }
        // The creatures that act, with their intents.
        let ghost splays = turn_plays(w3);
        let mut plays: Vec<NpcPlay> = Vec::new();
        {
            proof {
                self.creatures.lemma_view();
            }
            let (ids, cs) = self.creatures.map();
            let mut i: usize = 0;
            while i < ids.len()
                invariant
                    ids@.len() == cs@.len(),
                    i <= ids@.len(),
                    ids@ == w3.sp_creatures().id_seq(),
                    cs@ == w3.sp_creatures().value_seq(),
                    plays_match(plays@, npc_plays(ids@, cs@, i as int)),
                decreases ids@.len() - i,
            {
                if !cs[i].dead {
                    match &cs[i].npc {
                        Some(npc) => {
                            plays.push(NpcPlay { id: ids[i], intent: npc.intent.copy() });
                        },
                        None => {},
                    }
                }
                i = i + 1;
            }
        }
        let ghost pstep = play_each(splays);
        let ghost mut pacc: Seq<MetaView<EventDataView>> = Seq::empty();
        proof {
            lemma_steps_none(w3, pstep);
            assert(event_views(events@) =~= ea + pacc);
        }
        let mut p: usize = 0;
        while p < plays.len()
            invariant
                self.wf(),
                w0.keeps(*self),
                p <= plays@.len(),
                plays_match(plays@, splays),
                pstep == play_each(splays),
                steps(w3, *self, p as int, pstep, pacc),
                event_views(events@) == ea + pacc,
            decreases plays@.len() - p,
        {
            let id = plays[p].id;
            let ghost wb = *self;
            let ghost paccb = pacc;
            let result = match plays[p].intent.kind {
                IntentKind::Attack { range: Range::Melee, .. } => move_to_melee(self, id),
                IntentKind::Stunned => Ok(Vec::new()),
            };
            let ghost wm = *self;
            let ghost r1 = result;
            proof {
                lemma_melee_keeps(wb, *self, id, result, plays@[p as int].intent.kind);
            }
            let ghost m1 = shown(id, result_views(result));
            let ghost ev0 = event_views(events@);
            match result {
                Ok(es) => extend_events(&mut events, es),
                Err(e) => {
                    let mut text = e.message();
                    text.append("!");
                    events.push(to_creature(id, EventData::FloatText { text }));
                    proof {
                        reveal_strlit("!");
                        assert(event_views(events@) =~= ev0.push(events@[events@.len() - 1]@));
                        assert(events@[events@.len() - 1]@ == float_text(id, message_text(e) + "!"@));
                    }
                },
            }
            proof {
                assert(event_views(events@) =~= ev0 + m1);
            }
            let acted = plays[p].intent.act(self, id);
            let ghost r2 = crate::action::result_views(acted);
            proof {
                lemma_act_keeps(plays@[p as int].intent, wm, *self, id, r2);
            }
            let ghost m2 = shown(id, r2);
            let ghost ev1 = event_views(events@);
            match acted {
                Ok(es) => extend_events(&mut events, es),
                Err(e) => {
                    let mut text = e.message();
                    text.append("!");
                    events.push(to_creature(id, EventData::FloatText { text }));
                    proof {
                        reveal_strlit("!");
                        assert(event_views(events@) =~= ev1.push(events@[events@.len() - 1]@));
                        assert(events@[events@.len() - 1]@ == float_text(id, message_text(e) + "!"@));
                    }
                },
            }
            proof {
                assert(event_views(events@) =~= ev1 + m2);
                let it = splays[p as int].1;
                let copy = plays@[p as int].intent;
                lemma_act_step_fields(copy, it, wm, *self, id, r2);
                assert(it.act_step(wm, *self, id, r2));
                assert(play_step(wb, *self, splays[p as int].0, it, m1 + m2));
                assert(pstep(p as int, wb, *self, m1 + m2));
                lemma_steps_next(w3, wb, *self, p as int, pstep, paccb, m1 + m2);
                pacc = paccb + (m1 + m2);
                assert(event_views(events@) =~= ea + pacc);
            }
            p = p + 1;
        }
        // Refill every other creature.
        let ghost w4 = *self;
        let refills = copy_ids(self.creatures.keys());
        let ghost rstep = refill_each(w4.sp_creatures().id_seq(), w4.sp_player());
        let ghost mut racc: Seq<MetaView<EventDataView>> = Seq::empty();
        proof {
            lemma_steps_none(w4, rstep);
            assert(event_views(events@) =~= ea + pacc + racc);
        }
        let mut q: usize = 0;
        while q < refills.len()
            invariant
                self.wf(),
                w0.keeps(*self),
                q <= refills@.len(),
                refills@ == w4.sp_creatures().id_seq(),
                self.player_id == w4.sp_player(),
                rstep == refill_each(w4.sp_creatures().id_seq(), w4.sp_player()),
                steps(w4, *self, q as int, rstep, racc),
                event_views(events@) == ea + pacc + racc,
            decreases refills@.len() - q,
        {
            let id = refills[q];
            let ghost wb = *self;
            let ghost raccb = racc;
            let ghost mut e: Seq<MetaView<EventDataView>> = Seq::empty();
            if !same_id(&id, &self.player_id) {
                let more = self.refill(id);
                proof {
                    wb.lemma_refill_keeps(*self, id, event_views(more@));
                    e = event_views(more@);
                }
                extend_events(&mut events, more);
            }
            proof {
                assert(rstep(q as int, wb, *self, e));
                lemma_steps_next(w4, wb, *self, q as int, rstep, raccb, e);
                racc = raccb + e;
                assert(event_views(events@) =~= ea + pacc + racc);
            }
            q = q + 1;
        }
        let ghost w5 = *self;
        let ghost eb = pacc + racc;
        proof {
            assert(turn_middle(w3, w5, eb));
        }
        let ne = self.system_event(EventData::NpcTurnEnd);
        let ghost ec = event_views(ne@);
        extend_events(&mut events, ne);
        let ghost wl = *self;
        self.update_npc_plans();
        proof {
            assert(wl.plans_step(*self));
            assert(turn_end(w5, *self, ec));
            assert(wl.keeps(*self));
            assert(event_views(events@) =~= ea + eb + ec);
            assert(w0.npc_turn_step(*self, event_views(events@)));
        }
        events
    }

    /// The enemies' turn takes this world to `after` and reports `es`: its start, its
    /// middle and its end in turn.
    pub open spec fn npc_turn_step(&self, after: World, es: Seq<MetaView<EventDataView>>) -> bool {
        exists|w3: World, w5: World, ea: Seq<MetaView<EventDataView>>, eb: Seq<MetaView<EventDataView>>, ec: Seq<MetaView<EventDataView>>|
            #![trigger turn_start(*self, w3, ea), turn_middle(w3, w5, eb), turn_end(w5, after, ec)]
            turn_start(*self, w3, ea) && turn_middle(w3, w5, eb) && turn_end(w5, after, ec) && es == ea + eb + ec
    }

    /// Refilling keeps the creatures, the player and the tiles' hexes.
    pub proof fn lemma_refill_keeps(&self, after: World, id: Id<Creature>, es: Seq<MetaView<EventDataView>>)
        requires
            self.refill_step(after, id, es),
        ensures
            self.keeps(after),
    {
        if self.creature_view().contains_key(id@) {
            let c = self.creature_view()[id@];
            let gap_ap = c.spec_max_ap() - c.cur_ap;
            let gap_mp = c.spec_max_mp() - c.cur_mp;
            let a1 = normal_to(id, ActionDataView::GainAP { ap: gap_ap as i32 });
            let a2 = normal_to(id, ActionDataView::GainMP { mp: gap_mp as i32 });
            let (mid, e1, e2) = choose|mid: World, e1: Seq<MetaView<EventDataView>>, e2: Seq<MetaView<EventDataView>>|
                #![trigger fill_step(*self, mid, a1, gap_ap, e1), fill_step(mid, after, a2, gap_mp, e2)]
                fill_step(*self, mid, a1, gap_ap, e1) && fill_step(mid, after, a2, gap_mp, e2) && es == e1 + e2;
            if 0 < gap_ap <= i32::MAX {
                self.lemma_execute_keeps(mid, a1, e1);
            }
            if 0 < gap_mp <= i32::MAX {
                mid.lemma_execute_keeps(after, a2, e2);
            }
        }
    }
}

/// Moving for an intent keeps the creatures, the player and the tiles' hexes.
proof fn lemma_melee_keeps(w: World, after: World, id: Id<Creature>, r: Result<Vec<Event>, Error>, k: IntentKind)
    requires
        match k {
            IntentKind::Attack { .. } => melee_move_step(w, after, id, r),
            IntentKind::Stunned => after == w,
        },
    ensures
        w.keeps(after),
{
    match k {
        IntentKind::Attack { .. } => {
            let places = w.sp_map().places_view();
            let tiles = w.sp_map().tiles_view();
            if places.contains_key(w.sp_player()@) && places.contains_key(id@) {
                let ph = places[w.sp_player()@];
                let from = places[id@];
                let near = crate::npc::open_hexes(tiles, crate::hex::spec_neighbors(ph), 6);
                if hex_distance(from, ph) > 1 && near.len() > 0 {
                    let kk = choose|kk: int|
                        #[trigger] crate::npc::first_nearest(near, from, kk) && (r matches Ok(v) && w.move_creature_step(after, id, near[kk], event_views(v@)));
                    let v = r->Ok_0;
                    w.lemma_move_keeps(after, id, near[kk], event_views(v@));
                }
            }
        },
        IntentKind::Stunned => {},
    }
}

/// Carrying out an intent keeps the creatures, the player and the tiles' hexes.
proof fn lemma_act_keeps(it: Intent, w: World, after: World, id: Id<Creature>, r: Result<Seq<MetaView<EventDataView>>, Error>)
    requires
        it.act_step(w, after, id, r),
    ensures
        w.keeps(after),
{
    if crate::npc::spec_intent_fault(it.from, it.cost, w, id) is None && crate::npc::spec_kind_check(it.kind, w, id) is Ok {
        let (mid, e1) = choose|mid: World, e1: Seq<MetaView<EventDataView>>|
            #[trigger] w.execute_step(mid, normal_to(id, ActionDataView::SpendAP { ap: 1 }), e1)
                && if e1.len() > 0 && e1[0].data is Failed {
                after == mid && r == Ok::<Seq<MetaView<EventDataView>>, Error>(e1)
            } else {
                exists|e2: Seq<MetaView<EventDataView>>|
                    #[trigger] crate::npc::kind_act_step(it.kind, mid, after, id, e2) && r == Ok::<Seq<MetaView<EventDataView>>, Error>(e1 + e2)
            };
        w.lemma_execute_keeps(mid, normal_to(id, ActionDataView::SpendAP { ap: 1 }), e1);
        if !(e1.len() > 0 && e1[0].data is Failed) {
            let e2 = choose|e2: Seq<MetaView<EventDataView>>|
                #[trigger] crate::npc::kind_act_step(it.kind, mid, after, id, e2) && r == Ok::<Seq<MetaView<EventDataView>>, Error>(e1 + e2);
            match it.kind {
                IntentKind::Attack { damage, .. } => {
                    let opens = crate::npc::player_open_parts(mid);
                    if opens.len() > 0 {
                        let kk = choose|kk: int|
                            #[trigger] crate::npc::first_weakest(opens, mid.creature_view()[mid.sp_player()@].parts@, kk) && mid.execute_step(
                                after,
                                crate::npc::npc_hit(id, mid.sp_player(), opens[kk], damage),
                                e2,
                            );
                        mid.lemma_execute_keeps(after, crate::npc::npc_hit(id, mid.sp_player(), opens[kk], damage), e2);
                    }
                },
                IntentKind::Stunned => {},
            }
        }
    }
}

impl World {
    /// Walking a creature keeps the creatures, the player and the tiles' hexes.
    pub proof fn lemma_move_keeps(&self, after: World, cid: Id<Creature>, to: Hex, es: Seq<MetaView<EventDataView>>)
        requires
            self.move_creature_step(after, cid, to, es),
        ensures
            self.keeps(after),
    {
        let m = self.sp_map();
        if m.places_view().contains_key(cid@) && m.tiles_view().contains_key(to) && tile_open(m.tiles_view()[to])
            && reachable(m.tiles_view(), m.places_view()[cid@], to) {
            let (p, tr) = choose|p: Seq<Hex>, tr: Seq<MoveStep>| #[trigger] is_shortest_walk(m.tiles_view(), p, m.places_view()[cid@], to) && #[trigger] move_trace(*self, after, cid, p, 0, tr, es);
            lemma_trace_keeps(*self, after, cid, p, 0, tr, es);
        }
    }
}

proof fn lemma_trace_keeps(w: World, after: World, cid: Id<Creature>, p: Seq<Hex>, i: int, tr: Seq<MoveStep>, es: Seq<MetaView<EventDataView>>)
    requires
        move_trace(w, after, cid, p, i, tr, es),
    ensures
        w.keeps(after),
    decreases tr.len(),
{
    if !(i < 0 || i + 1 >= p.len()) && w.sp_map().places_view().contains_key(cid@)
        && !(w.sp_map().places_view()[cid@] != p[i] && hex_distance(w.sp_map().places_view()[cid@], p[i + 1]) > 1)
        && tr.len() > 0 {
        let s = tr[0];
        let n = (s.e1.len() + s.e2.len()) as int;
        w.lemma_execute_keeps(s.w1, spend_mp(cid), s.e1);
        if !(s.e1.len() > 0 && s.e1[0].data is Failed) {
            s.w1.lemma_execute_keeps(s.w2, move_action(cid, p[i + 1]), s.e2);
            lemma_trace_keeps(s.w2, after, cid, p, i + 1, tr.drop_first(), es.skip(n));
        }
    }
}

/// The hexes of the tiles among the first `n` that are empty ground and not in `seen`, in
/// the map's order.
pub open spec fn shaded(coords: Seq<Hex>, tiles: Map<Hex, Tile>, seen: Set<Hex>, n: int) -> Seq<Hex>
    decreases n,
{
    if n <= 0 {
        Seq::empty()
    } else if tiles[coords[n - 1]].space == crate::map::Space::Empty && !seen.contains(coords[n - 1]) {
        shaded(coords, tiles, seen, n - 1).push(coords[n - 1])
    } else {
        shaded(coords, tiles, seen, n - 1)
    }
}

impl World {
    /// Where creature `id` can walk with its move points: onto empty ground for an enemy,
    /// onto open tiles for the player.
    pub fn creature_range(&self, id: Id<Creature>) -> (r: Vec<Hex>)
        requires
            self.wf(),
        ensures
            !self.creature_view().contains_key(id@) ==> r@.len() == 0,
            self.creature_view().contains_key(id@) ==> r@.no_duplicates() && r@.to_set() == crate::map::reach(
                self.sp_map().tiles_view(),
                self.sp_map().places_view()[id@],
                (if self.creature_view()[id@].cur_mp > 0 { self.creature_view()[id@].cur_mp as int } else { 0int }) as nat,
                id != self.sp_player(),
            ),
    {
        proof {
            self.lemma_wf();
            self.sp_map().lemma_wf();
        }
        let range = match self.creatures.get(&id) {
            Some(c) => c.cur_mp,
            None => return Vec::new(),
        };
        let start = match self.map.creature_hex(id) {
            Some(h) => h,
            None => return Vec::new(),
        };
        let space_only = !same_id(&id, &self.player_id);
        let set = self.map.range_from(start, range, space_only);
        proof {
            use_type_invariant(&set);
            set.lemma_elems();
        }
        let items = set.items();
        let mut out: Vec<Hex> = Vec::new();
        let mut i: usize = 0;
        while i < items.len()
            invariant
                i <= items@.len(),
                out@ == items@.take(i as int),
            decreases items@.len() - i,
        {
            out.push(items[i]);
            assert(out@ =~= items@.take(i + 1));
            i = i + 1;
        }
        assert(out@ =~= items@);
        out
    }

    /// Whether creature `id` has at least `ap` action points.
    pub fn check_spend_ap(&self, id: Id<Creature>, ap: i32) -> (r: bool)
        requires
            self.wf(),
        ensures
            r == (self.creature_view().contains_key(id@) && self.creature_view()[id@].cur_ap >= ap),
    {
        proof {
            self.lemma_wf();
        }
        match self.creatures.get(&id) {
            Some(c) => c.cur_ap >= ap,
            None => false,
        }
    }

    /// Whether a card costing `ap_cost` on part `part_id` of creature `creature_id` can be
    /// played: the creature has the points and the part exists unbroken.
    pub fn is_playable(&self, creature_id: Id<Creature>, part_id: Id<Part>, ap_cost: i32) -> (r: bool)
        requires
            self.wf(),
        ensures
            r == (self.creature_view().contains_key(creature_id@) && self.creature_view()[creature_id@].cur_ap >= ap_cost
                && self.creature_view()[creature_id@].parts@.contains_key(part_id@)
                && !self.creature_view()[creature_id@].parts@[part_id@].spec_tags().contains(crate::part::PartTag::Broken)),
    {
        proof {
            self.lemma_wf();
        }
        let creature = match self.creatures.get(&creature_id) {
            Some(c) => c,
            None => return false,
        };
        if creature.cur_ap < ap_cost {
            return false;
        }
        proof {
            assert(creature.wf());
            creature.parts.lemma_view();
        }
        let part = match creature.parts.get(&part_id) {
            Some(p) => p,
            None => return false,
        };
        proof {
            let k = choose|k: int| 0 <= k < creature.parts.key_seq().len() && creature.parts.key_seq()[k] == part_id@;
            assert(creature.part_seq()[k].wf());
        }
        !part.is_broken()
    }

    /// The tiles of empty ground that creature `id` standing at `hex` cannot see.
    pub fn shade_from(&self, hex: Hex, id: Id<Creature>, lines: &[SightLine]) -> (r: Vec<Hex>)
        requires
            self.wf(),
        ensures
            r@ == shaded(
                self.sp_map().coord_seq(),
                self.sp_map().tiles_view(),
                seen_from(self.sp_map().tiles_view(), hex, id, lines@),
                self.sp_map().coord_seq().len() as int,
            ),
    {
        proof {
            self.lemma_wf();
            self.sp_map().lemma_wf();
        }
        let los = self.map.los_from(hex, id, lines);
        let (coords, tiles) = self.map.tiles();
        let ghost tv = self.sp_map().tiles_view();
        proof {
            crate::assoc::lemma_map_of_all(coords@, tiles@);
        }
        let mut out: Vec<Hex> = Vec::new();
        let mut i: usize = 0;
        while i < coords.len()
            invariant
                coords@ == self.sp_map().coord_seq(),
                tiles@.len() == coords@.len(),
                tv == self.sp_map().tiles_view(),
                forall|k: int| 0 <= k < coords@.len() ==> #[trigger] tv[coords@[k]] == tiles@[k],
                los@ == seen_from(tv, hex, id, lines@),
                i <= coords@.len(),
                out@ == shaded(coords@, tv, los@, i as int),
            decreases coords@.len() - i,
        {
            let h = coords[i];
            let empty = match tiles[i].space {
                crate::map::Space::Empty => true,
                crate::map::Space::Wall => false,
            };
            proof {
                assert(tv[coords@[i as int]] == tiles@[i as int]);
            }
            if empty && !los.contains(&h) {
                out.push(h);
            }
            i = i + 1;
        }
        out
    }

    /// The intent of creature `cid` with its damage as the statuses of the acting part, the
    /// creature and the world would alter a hit on the player; none for a creature without
    /// an NPC, or when the statuses make the hit something else.
    pub fn scaled_intent(&self, cid: Id<Creature>) -> (r: Option<Intent>)
        requires
            self.wf(),
        ensures
            !self.creature_view().contains_key(cid@) || self.creature_view()[cid@].npc is None ==> r is None,
            self.creature_view().contains_key(cid@) && self.creature_view()[cid@].npc is Some ==> {
                let it = self.creature_view()[cid@].npc->0.intent;
                match it.kind {
                    IntentKind::Stunned => r matches Some(x) && x.name@ == it.name@ && x.from == it.from
                        && x.cost == it.cost && x.kind == it.kind,
                    IntentKind::Attack { damage, range } => {
                        let source = match it.from {
                            None => Path::Creature { cid },
                            Some(pid) => Path::Part { cid, pid },
                        };
                        let a = self.scaled_from(
                            MetaView {
                                source,
                                target: Path::Part { cid: self.sp_player(), pid: id_of(u32::MAX) },
                                tags: set![Tag::Attack],
                                data: ActionDataView::Hit { damage },
                            },
                            seq![Scope::SourcePart, Scope::SourceCreature, Scope::World],
                            0,
                        );
                        match a.data {
                            ActionDataView::Hit { damage: d } => r matches Some(x) && x.name@ == it.name@ && x.from == it.from
                                && x.cost == it.cost && x.kind == (IntentKind::Attack { damage: d, range }),
                            _ => r is None,
                        }
                    },
                }
            },
    {
        proof {
            self.lemma_wf();
        }
        let creature = match self.creatures.get(&cid) {
            Some(c) => c,
            None => return None,
        };
        let npc = match &creature.npc {
            Some(n) => n,
            None => return None,
        };
        let mut intent = npc.intent.copy();
        match npc.intent.kind {
            IntentKind::Stunned => Some(intent),
            IntentKind::Attack { damage, range } => {
                let source = match npc.intent.from {
                    None => Path::Creature { cid },
                    Some(pid) => Path::Part { cid, pid },
                };
                let target = Path::Part { cid: self.player_id, pid: Id::invalid() };
                let scopes = vec![Scope::SourcePart, Scope::SourceCreature, Scope::World];
                proof {
                    assert(scopes@ =~= seq![Scope::SourcePart, Scope::SourceCreature, Scope::World]);
                }
                match self.scale_damage(&source, &target, damage, scopes.as_slice()) {
                    Some(new_damage) => {
                        intent.kind = IntentKind::Attack { damage: new_damage, range };
                        Some(intent)
                    },
                    None => None,
                }
            },
        }
    }
}

/// Resolving an action that adds a status to an entity, then one that removes the status
/// under the id the first reported, leaves the entity's statuses as they were; each step
/// reports what it did.
pub proof fn law_add_then_remove_status(
    w0: World,
    w1: World,
    w2: World,
    a1: MetaView<ActionDataView>,
    a2: MetaView<ActionDataView>,
    r1: Result<Seq<MetaView<EventDataView>>, Error>,
    r2: Result<Seq<MetaView<EventDataView>>, Error>,
    status: Status,
)
    requires
        w0.wf(),
        w0.entity_at(a1.target) is Some,
        w0.entity_at(a1.target)->0.status.next() < u32::MAX,
        a1.data == (ActionDataView::AddStatus { status }),
        a2.target == a1.target,
        a2.data == (ActionDataView::RemoveStatus { id: id_of(w0.entity_at(a1.target)->0.status.next()) }),
        w0.resolve_step(w1, a1, r1),
        w1.resolve_step(w2, a2, r2),
    ensures
        ({
            let id = id_of::<Status>(w0.entity_at(a1.target)->0.status.next());
            &&& r1 == Ok::<Seq<MetaView<EventDataView>>, Error>(seq![carried(a1, EventDataView::StatusAdded { id })])
            &&& r2 == Ok::<Seq<MetaView<EventDataView>>, Error>(seq![carried(a2, EventDataView::StatusRemoved { id })])
            &&& w2.entity_at(a1.target) is Some
            &&& w2.entity_at(a1.target)->0.status@ == w0.entity_at(a1.target)->0.status@
        }),
{
    let e0 = w0.entity_at(a1.target)->0;
    let k = e0.status.next();
    w0.lemma_entity_wf(a1.target);
    e0.status.lemma_view();
    crate::id_map::lemma_id_of::<Status>(k);
    let e1 = w1.entity_at(a1.target)->0;
    assert(e1.status@.contains_key(k));
    let e2 = w2.entity_at(a1.target)->0;
    assert(!e0.status@.contains_key(k));
    assert(e2.status@ =~= e0.status@);
}

/// No status alters an action other than a hit.
proof fn lemma_first_alter_only_hits(
    statuses: Map<u32, Status>,
    order: Seq<StatusId>,
    skip: Set<StatusId>,
    on: Path,
    a: MetaView<ActionDataView>,
    i: int,
)
    requires
        !(a.data is Hit),
    ensures
        crate::entity::first_alter_from(statuses, order, skip, on, a, i) is None,
    decreases order.len() - i,
{
    if 0 <= i < order.len() {
        lemma_first_alter_only_hits(statuses, order, skip, on, a, i + 1);
    }
}

impl World {
    /// An action other than a hit goes through the statuses of every scope unaltered.
    pub proof fn lemma_only_hits_altered(&self, a: MetaView<ActionDataView>, i: int)
        requires
            !(a.data is Hit),
        ensures
            self.alters_from(a, i) == a,
        decreases 5 - i,
    {
        if 0 <= i < 5 {
            match spec_scope_path(spec_scopes()[i], a.source, a.target) {
                Some(p) => match self.entity_at(p) {
                    Some(e) => {
                        let order = e.spec_alter_order();
                        if order.len() > 0 {
                            lemma_first_alter_only_hits(e.status@, order, Set::empty(), p, a, 0);
                        }
                    },
                    None => {},
                },
                None => {},
            }
            self.lemma_only_hits_altered(a, i + 1);
        }
    }
}

/// Executing an action that adds a status to an entity, then one that removes the status
/// under the id the first reported, leaves the entity's statuses as they were; the first
/// reports the status added under that fresh id, the second its removal.
pub proof fn law_execute_add_then_remove_status(
    w0: World,
    w1: World,
    w2: World,
    a1: MetaView<ActionDataView>,
    a2: MetaView<ActionDataView>,
    es1: Seq<MetaView<EventDataView>>,
    es2: Seq<MetaView<EventDataView>>,
    status: Status,
)
    requires
        w0.wf(),
        w0.entity_at(a1.target) is Some,
        w0.entity_at(a1.target)->0.status.next() < u32::MAX,
        a1.data == (ActionDataView::AddStatus { status }),
        a2.target == a1.target,
        a2.data == (ActionDataView::RemoveStatus { id: id_of(w0.entity_at(a1.target)->0.status.next()) }),
        w0.execute_step(w1, a1, es1),
        w1.execute_step(w2, a2, es2),
    ensures
        ({
            let id = id_of::<Status>(w0.entity_at(a1.target)->0.status.next());
            &&& !w0.entity_at(a1.target)->0.status@.contains_key(id@)
            &&& es1 == seq![carried(a1, EventDataView::StatusAdded { id })]
            &&& es2 == seq![carried(a2, EventDataView::StatusRemoved { id })]
            &&& w2.entity_at(a1.target) is Some
            &&& w2.entity_at(a1.target)->0.status@ == w0.entity_at(a1.target)->0.status@
        }),
{
    reveal(World::execute_step);
    w0.lemma_only_hits_altered(a1, 0);
    w1.lemma_only_hits_altered(a2, 0);
    let r1 = choose|r: Result<Seq<MetaView<EventDataView>>, Error>| #[trigger] w0.resolve_step(w1, w0.alters_from(a1, 0), r) && es1 == reported(r);
    let r2 = choose|r: Result<Seq<MetaView<EventDataView>>, Error>| #[trigger] w1.resolve_step(w2, w1.alters_from(a2, 0), r) && es2 == reported(r);
    law_add_then_remove_status(w0, w1, w2, a1, a2, r1, r2, status);
    let e0 = w0.entity_at(a1.target)->0;
    w0.lemma_entity_wf(a1.target);
    e0.status.lemma_view();
    crate::id_map::lemma_id_of::<Status>(e0.status.next());
}

/// Gaining `gap` points of the kind `a` asks for, where `gap` is positive and fits, takes
/// a living creature `id` to those points added and nothing else of it changed.
proof fn lemma_gain_points(w: World, after: World, id: Id<Creature>, a: MetaView<ActionDataView>, gap: int, es: Seq<MetaView<EventDataView>>)
    requires
        w.creature_view().contains_key(id@),
        !w.creature_view()[id@].dead,
        a == normal_to(id, ActionDataView::GainAP { ap: gap as i32 }) || a == normal_to(id, ActionDataView::GainMP { mp: gap as i32 }),
        0 < gap <= i32::MAX,
        a.data is GainAP ==> w.creature_view()[id@].cur_ap + gap <= i32::MAX,
        a.data is GainMP ==> w.creature_view()[id@].cur_mp + gap <= i32::MAX,
        w.execute_step(after, a, es),
    ensures
        after.creature_view().contains_key(id@),
        ({
            let c = w.creature_view()[id@];
            let c2 = after.creature_view()[id@];
            &&& c2.cur_ap == c.cur_ap + (if a.data is GainAP { gap } else { 0 })
            &&& c2.cur_mp == c.cur_mp + (if a.data is GainMP { gap } else { 0 })
            &&& c2.dead == c.dead
            &&& c2.parts@ == c.parts@
            &&& c2.parts.key_seq() == c.parts.key_seq()
        }),
{
    reveal(World::execute_step);
    w.lemma_only_hits_altered(a, 0);
    let r = choose|r: Result<Seq<MetaView<EventDataView>>, Error>| #[trigger] w.resolve_step(after, w.alters_from(a, 0), r) && es == reported(r);
    assert(w.resolve_step(after, a, r));
    let c = w.creature_view()[id@];
    assert(c.can_take(a));
    let c2 = after.creature_view()[id@];
    assert(w.creature_replaced(after, id@, c2));
    assert(c.resolve_step(c2, a, r));
}

/// Refilling a living creature raises its action points to its maximum action points and
/// its move points to its maximum move points; points already at or above a maximum stay
/// as they are, and its parts are untouched.
pub proof fn law_refill_fills(w: World, after: World, id: Id<Creature>, es: Seq<MetaView<EventDataView>>)
    requires
        w.wf(),
        w.creature_view().contains_key(id@),
        !w.creature_view()[id@].dead,
        w.creature_view()[id@].spec_max_ap() - w.creature_view()[id@].cur_ap <= i32::MAX,
        w.creature_view()[id@].spec_max_mp() - w.creature_view()[id@].cur_mp <= i32::MAX,
        w.refill_step(after, id, es),
    ensures
        after.creature_view().contains_key(id@),
        ({
            let c = w.creature_view()[id@];
            let c2 = after.creature_view()[id@];
            &&& c2.cur_ap == (if c.cur_ap < c.spec_max_ap() { c.spec_max_ap() } else { c.cur_ap as int })
            &&& c2.cur_mp == (if c.cur_mp < c.spec_max_mp() { c.spec_max_mp() } else { c.cur_mp as int })
            &&& c2.parts@ == c.parts@
            &&& c2.parts.key_seq() == c.parts.key_seq()
            &&& !c2.dead
        }),
{
    let c = w.creature_view()[id@];
    w.lemma_wf();
    crate::creature::lemma_max_points_fit(c);
    let gap_ap = c.spec_max_ap() - c.cur_ap;
    let gap_mp = c.spec_max_mp() - c.cur_mp;
    let a1 = normal_to(id, ActionDataView::GainAP { ap: gap_ap as i32 });
    let a2 = normal_to(id, ActionDataView::GainMP { mp: gap_mp as i32 });
    let (mid, e1, e2) = choose|mid: World, e1: Seq<MetaView<EventDataView>>, e2: Seq<MetaView<EventDataView>>|
        #[trigger] fill_step(w, mid, a1, gap_ap, e1) && #[trigger] fill_step(mid, after, a2, gap_mp, e2) && es == e1 + e2;
    if gap_ap > 0 {
        lemma_gain_points(w, mid, id, a1, gap_ap, e1);
    }
    if gap_mp > 0 {
        lemma_gain_points(mid, after, id, a2, gap_mp, e2);
    }
}

impl World {
    /// Creature `k` may hold statuses; no other entity does: not the world, no other
    /// creature, no part.
    pub open spec fn statuses_only_on(&self, k: u32) -> bool {
        let cs = self.creature_view();
        &&& self.sp_entity().status@ == Map::<u32, Status>::empty()
        &&& forall|j: u32| #[trigger] cs.contains_key(j) && j != k ==> cs[j].entity.status@ == Map::<u32, Status>::empty()
        &&& forall|j: u32, q: u32| cs.contains_key(j) && #[trigger] cs[j].parts@.contains_key(q)
            ==> cs[j].parts@[q].entity.status@ == Map::<u32, Status>::empty()
    }

    /// Where only creature `k` holds statuses and `a` is not aimed at it, the scopes from
    /// the world on leave `a` as it is.
    proof fn lemma_alters_past_source(&self, k: u32, a: MetaView<ActionDataView>, i: int)
        requires
            self.wf(),
            self.statuses_only_on(k),
            !(spec_path_creature(a.target) matches Some(t) && t@ == k),
            2 <= i,
        ensures
            self.alters_from(a, i) == a,
        decreases 5 - i,
    {
        if i < 5 {
            match spec_scope_path(spec_scopes()[i], a.source, a.target) {
                Some(p) => match self.entity_at(p) {
                    Some(e) => {
                        self.lemma_entity_wf(p);
                        lemma_no_status_no_alter(e, p, a);
                    },
                    None => {},
                },
                None => {},
            }
            self.lemma_alters_past_source(k, a, i + 1);
        }
    }
}

/// An entity whose only status is Rage, lying at creature `cid`, adds 7 to a hit that
/// creature sends.
proof fn lemma_rage_entity(e: Entity, cid: Id<Creature>, a: MetaView<ActionDataView>, damage: i32)
    requires
        e.wf(),
        e.status.value_seq() == seq![Status::Rage],
        spec_path_creature(a.source) == Some(cid),
        a.data == (ActionDataView::Hit { damage }),
        damage + 7 <= i32::MAX,
    ensures
        e.spec_alters(Path::Creature { cid }, a) == (MetaView { data: ActionDataView::Hit { damage: (damage + 7) as i32 }, ..a }),
{
    e.status.lemma_view();
    let id = e.status.id_seq()[0];
    assert(e.status.key_seq()[0] == id@);
    assert(e.status@.contains_key(id@));
    assert(e.status@[id@] == Status::Rage);
    reveal_with_fuel(crate::entity::ids_of_rank, 2);
    assert(e.spec_alter_order() =~= seq![id]);
    reveal_with_fuel(crate::entity::spec_apply_alters, 2);
}

/// A hit from a creature whose only status is Rage, where no other entity holds a
/// status, reaches a target outside that creature 7 stronger: a punch for 10 lands as 17.
pub proof fn law_rage_strengthens_hits(w: World, cid: Id<Creature>, source: Path, target: Path, damage: i32)
    requires
        w.wf(),
        spec_path_creature(source) == Some(cid),
        w.creature_view().contains_key(cid@),
        w.creature_view()[cid@].entity.status.value_seq() == seq![Status::Rage],
        w.statuses_only_on(cid@),
        !(spec_path_creature(target) matches Some(t) && t@ == cid@),
        damage + 7 <= i32::MAX,
    ensures
        w.alters_from(hit_action(source, target, damage), 0) == hit_action(source, target, (damage + 7) as i32),
{
    let a = hit_action(source, target, damage);
    let b = hit_action(source, target, (damage + 7) as i32);
    w.lemma_wf();
    // The source part holds no status.
    match spec_scope_path(spec_scopes()[0], a.source, a.target) {
        Some(p) => match w.entity_at(p) {
            Some(e) => {
                w.lemma_entity_wf(p);
                lemma_no_status_no_alter(e, p, a);
            },
            None => {},
        },
        None => {},
    }
    assert(w.alters_from(a, 0) == w.alters_from(a, 1));
    // The source creature's Rage adds 7.
    let e = w.creature_view()[cid@].entity;
    assert(w.entity_at(Path::Creature { cid }) == Some(e));
    lemma_rage_entity(e, cid, a, damage);
    assert(w.alters_from(a, 1) == w.alters_from(b, 2));
    w.lemma_alters_past_source(cid@, b, 2);
}

/// The enemies' turn opens by refilling the player: in the world right after that, the
/// living player's action and move points are up to its maxima, and the turn's events
/// begin with those of the refill.
pub proof fn law_npc_turn_refills_player(w: World, after: World, es: Seq<MetaView<EventDataView>>)
    requires
        w.wf(),
        !w.creature_view()[w.sp_player()@].dead,
        w.creature_view()[w.sp_player()@].spec_max_ap() - w.creature_view()[w.sp_player()@].cur_ap <= i32::MAX,
        w.creature_view()[w.sp_player()@].spec_max_mp() - w.creature_view()[w.sp_player()@].cur_mp <= i32::MAX,
        w.npc_turn_step(after, es),
    ensures
        exists|w1: World, e1: Seq<MetaView<EventDataView>>| {
            let c = w.creature_view()[w.sp_player()@];
            let c1 = w1.creature_view()[w.sp_player()@];
            &&& #[trigger] w.refill_step(w1, w.sp_player(), e1)
            &&& w1.creature_view().contains_key(w.sp_player()@)
            &&& c1.cur_ap == (if c.cur_ap < c.spec_max_ap() { c.spec_max_ap() } else { c.cur_ap as int })
            &&& c1.cur_mp == (if c.cur_mp < c.spec_max_mp() { c.spec_max_mp() } else { c.cur_mp as int })
            &&& e1.len() <= es.len()
            &&& es.take(e1.len() as int) == e1
        },
{
    w.lemma_wf();
    let (w3, w5, ea, eb, ec) = choose|w3: World, w5: World, ea: Seq<MetaView<EventDataView>>, eb: Seq<MetaView<EventDataView>>, ec: Seq<MetaView<EventDataView>>|
        #[trigger] turn_start(w, w3, ea) && #[trigger] turn_middle(w3, w5, eb) && #[trigger] turn_end(w5, after, ec) && es == ea + eb + ec;
    let (w1, e1, w2, e2, e3) = choose|w1: World, e1: Seq<MetaView<EventDataView>>, w2: World, e2: Seq<MetaView<EventDataView>>, e3: Seq<MetaView<EventDataView>>|
        #[trigger] w.refill_step(w1, w.sp_player(), e1) && #[trigger] w1.execute_step(w2, new_hand_action(w.sp_player()), e2)
            && #[trigger] announce_step(w2, w3, EventDataView::PlayerTurnEnd, e3) && ea == e1 + e2 + e3;
    law_refill_fills(w, w1, w.sp_player(), e1);
    assert(es.take(e1.len() as int) =~= e1);
}

} // verus!

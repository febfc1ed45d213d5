//! Anything that can hold statuses: the world, a creature or a part.
use vstd::prelude::*;
use crate::action::{Action, ActionDataView, MetaView, Path};
use crate::id_map::{Id, IdMap, same_id};
use crate::status::{Status, StatusId, alter_rank};
use crate::vec_set::{SetElem, VecSet};

verus! {

impl<T> SetElem for Id<T> {
    fn same(&self, other: &Id<T>) -> (r: bool) {
        same_id(self, other)
    }
}

/// The ids among the first `n` entries whose status alters with rank `rank`, in order.
pub open spec fn ids_of_rank(ids: Seq<StatusId>, vals: Seq<Status>, rank: nat, n: int) -> Seq<
    StatusId,
>
    decreases n,
{
    if n <= 0 {
        Seq::empty()
    } else if alter_rank(vals[n - 1].spec_alter_order()) == rank {
        ids_of_rank(ids, vals, rank, n - 1).push(ids[n - 1])
    } else {
        ids_of_rank(ids, vals, rank, n - 1)
    }
}

/// The first position at or after `i` in `order` whose status is not skipped and alters
/// `a`, with what it makes of `a`.
pub open spec fn first_alter_from(
    statuses: Map<u32, Status>,
    order: Seq<StatusId>,
    skip: Set<StatusId>,
    on: Path,
    a: MetaView<ActionDataView>,
    i: int,
) -> Option<(StatusId, MetaView<ActionDataView>)>
    decreases order.len() - i,
{
    if i >= order.len() || i < 0 {
        None
    } else if !skip.contains(order[i]) && statuses.contains_key(order[i]@)
        && statuses[order[i]@].spec_alter(on, a) is Some {
        Some((order[i], statuses[order[i]@].spec_alter(on, a)->0))
    } else {
        first_alter_from(statuses, order, skip, on, a, i + 1)
    }
}

/// The action after the statuses alter it: again and again the first status in `order`
/// that has not altered it yet and alters it does so, until none does.
pub open spec fn spec_apply_alters(
    statuses: Map<u32, Status>,
    order: Seq<StatusId>,
    skip: Set<StatusId>,
    on: Path,
    a: MetaView<ActionDataView>,
    fuel: nat,
) -> MetaView<ActionDataView>
    decreases fuel,
{
    if fuel == 0 {
        a
    } else {
        match first_alter_from(statuses, order, skip, on, a, 0) {
            None => a,
            Some((id, b)) => spec_apply_alters(statuses, order, skip.insert(id), on, b, (fuel - 1) as nat),
        }
    }
}

proof fn lemma_first_alter_in_order(
    statuses: Map<u32, Status>,
    order: Seq<StatusId>,
    skip: Set<StatusId>,
    on: Path,
    a: MetaView<ActionDataView>,
    i: int,
)
    ensures
        first_alter_from(statuses, order, skip, on, a, i) matches Some((id, b)) ==> order.contains(id)
            && !skip.contains(id),
    decreases order.len() - i,
{
    if 0 <= i < order.len() {
        lemma_first_alter_in_order(statuses, order, skip, on, a, i + 1);
    }
}

#[derive(Debug, Clone)]
pub struct Entity {
    pub status: IdMap<Status>,
}

impl Entity {
    pub open spec fn wf(&self) -> bool {
        self.status.wf()
    }

    /// The ids of the statuses, ordered by when they alter actions, ties in the order the
    /// statuses were added.
    pub open spec fn spec_alter_order(&self) -> Seq<StatusId> {
        let ids = self.status.id_seq();
        let vals = self.status.value_seq();
        let n = ids.len() as int;
        ids_of_rank(ids, vals, 0, n) + ids_of_rank(ids, vals, 1, n) + ids_of_rank(ids, vals, 2, n)
    }

    /// The ids of the statuses in the order they react to events.
    pub open spec fn spec_trigger_order(&self) -> Seq<StatusId> {
        self.status.id_seq()
    }

    /// A copy of this entity: the same statuses under the same ids.
    pub fn duplicate(&self) -> (r: Entity)
        requires
            self.wf(),
        ensures
            r.wf(),
            r.status.same_entries(self.status),
            r.status@ == self.status@,
    {
        let vals = self.status.values();
        let mut copy: Vec<Status> = Vec::new();
        let mut i: usize = 0;
        while i < vals.len()
            invariant
                i <= vals@.len(),
                copy@ == vals@.take(i as int),
            decreases vals@.len() - i,
        {
            copy.push(vals[i]);
            assert(copy@ =~= vals@.take(i + 1));
            i = i + 1;
        }
        assert(copy@ =~= vals@);
        Entity { status: self.status.with_values(copy) }
    }

    pub fn new() -> (r: Entity)
        ensures
            r.wf(),
            r.status@ == Map::<u32, Status>::empty(),
            r.status.next() == 0,
    {
        Entity { status: IdMap::new() }
    }

    fn push_ids_of_rank(&self, rank: u8, out: &mut Vec<StatusId>)
        requires
            self.wf(),
        ensures
            final(out)@ == old(out)@ + ids_of_rank(
                self.status.id_seq(),
                self.status.value_seq(),
                rank as nat,
                self.status.key_seq().len() as int,
            ),
    {
        let (ids, vals) = self.status.map();
        let ghost sids = self.status.id_seq();
        let ghost start = out@;
        let mut i: usize = 0;
        while i < ids.len()
            invariant
                ids@.len() == vals@.len(),
                vals@ == self.status.value_seq(),
                sids.len() == ids@.len(),
                forall|j: int| 0 <= j < ids@.len() ==> #[trigger] ids@[j] == sids[j],
                i <= ids@.len(),
                out@ == start + ids_of_rank(sids, vals@, rank as nat, i as int),
            decreases ids@.len() - i,
        {
            if vals[i].alter_order().rank() == rank {
                out.push(ids[i]);
            }
            proof {
                assert(out@ =~= start + ids_of_rank(sids, vals@, rank as nat, i + 1));
            }
            i = i + 1;
        }
    }

    /// The ids of the statuses, ordered by when they alter actions.
    pub fn alter_order(&self) -> (r: Vec<StatusId>)
        requires
            self.wf(),
        ensures
            r@ == self.spec_alter_order(),
    {
        proof {
            self.status.lemma_view();
        }
        let mut out: Vec<StatusId> = Vec::new();
        self.push_ids_of_rank(0, &mut out);
        self.push_ids_of_rank(1, &mut out);
        self.push_ids_of_rank(2, &mut out);
        assert(out@ =~= self.spec_alter_order());
        out
    }

    /// The ids of the statuses in the order they react to events.
    pub fn trigger_order(&self) -> (r: Vec<StatusId>)
        requires
            self.wf(),
        ensures
            r@ == self.spec_trigger_order(),
    {
        let ids = self.status.keys();
        let mut out: Vec<StatusId> = Vec::new();
        let mut i: usize = 0;
        while i < ids.len()
            invariant
                i <= ids@.len(),
                ids@ == self.status.id_seq(),
                out@ == ids@.take(i as int),
            decreases ids@.len() - i,
        {
            out.push(ids[i]);
            assert(out@ =~= ids@.take(i + 1));
            i = i + 1;
        }
        assert(out@ =~= self.spec_trigger_order());
        out
    }

    /// `action` as altered by the statuses of this entity, which lies at `on`.
    pub fn apply_alters(&self, on: &Path, action: &Action) -> (r: Action)
        requires
            self.wf(),
        ensures
            r@ == spec_apply_alters(
                self.status@,
                self.spec_alter_order(),
                Set::empty(),
                *on,
                action@,
                self.spec_alter_order().len(),
            ),
    {
        let mut action = action.copy();
        let order = self.alter_order();
        let ghost ord = order@;
        let ghost n = ord.len();
        let mut skip: VecSet<StatusId> = VecSet::new();
        let ghost goal = spec_apply_alters(self.status@, ord, Set::empty(), *on, action@, n);
        proof {
            assert(skip@ == Set::<StatusId>::empty());
        }
        loop
            invariant
                self.wf(),
                order@ == ord,
                n == ord.len(),
                skip@.subset_of(ord.to_set()),
                skip@.finite(),
                skip@.len() <= n,
                goal == spec_apply_alters(self.status@, ord, skip@, *on, action@, (n - skip@.len()) as nat),
            ensures
                goal == action@,
            decreases n - skip@.len(),
        {
            if skip.len() == order.len() {
                break;
            }
            // Find the first status, in order, that alters the action.
            let mut found: Option<(StatusId, Action)> = None;
            let mut i: usize = 0;
            while i < order.len() && found.is_none()
                invariant
                    self.wf(),
                    order@ == ord,
                    i <= ord.len(),
                    found is None ==> first_alter_from(self.status@, ord, skip@, *on, action@, 0)
                        == first_alter_from(self.status@, ord, skip@, *on, action@, i as int),
                    found matches Some((id, b)) ==> first_alter_from(self.status@, ord, skip@, *on, action@, 0)
                        == Some((id, b@)),
                decreases ord.len() - i + (if found is None { 1int } else { 0int }),
            {
                let id = order[i];
                if !skip.contains(&id) {
                    match self.status.get(&id) {
                        Some(status) => {
                            match status.alter(on, &action) {
                                Some(new) => {
                                    found = Some((id, new));
                                },
                                None => {},
                            }
                        },
                        None => {},
                    }
                }
                if found.is_none() {
                    i = i + 1;
                }
            }
            let ghost cur = action@;
            match found {
                Some((id, new)) => {
                    proof {
                        use_type_invariant(&skip);
                        skip.lemma_elems();
                        lemma_first_alter_in_order(self.status@, ord, skip@, *on, cur, 0);
                        assert(!skip@.contains(id));
                        assert(ord.to_set().contains(id));
                        vstd::set_lib::lemma_len_subset(skip@.insert(id), ord.to_set());
                        ord.lemma_cardinality_of_set();
                    }
                    action = new;
                    skip.insert(id);
                },
                None => {
                    break;
                },
            }
        }
        action
    }
}

/// `e2` is `e1` with status `s` added under the id `e1` hands out next.
pub open spec fn status_added(e1: Entity, e2: Entity, s: Status) -> bool {
    &&& e2.wf()
    &&& e2.status@ == e1.status@.insert(e1.status.next(), s)
    &&& e2.status.key_seq() == e1.status.key_seq().push(e1.status.next())
    &&& e2.status.id_seq() == e1.status.id_seq().push(crate::id_map::id_of(e1.status.next()))
    &&& e2.status.value_seq() == e1.status.value_seq().push(s)
    &&& e2.status.next() == e1.status.next() + 1
}

/// `e2` is `e1` without the status under `id`, which it had.
pub open spec fn status_removed(e1: Entity, e2: Entity, id: StatusId) -> bool {
    let i = e1.status.key_seq().index_of(id@);
    &&& e2.wf()
    &&& e2.status@ == e1.status@.remove(id@)
    &&& e2.status.key_seq() == e1.status.key_seq().remove(i)
    &&& e2.status.id_seq() == e1.status.id_seq().remove(i)
    &&& e2.status.value_seq() == e1.status.value_seq().remove(i)
    &&& e2.status.next() == e1.status.next()
}

} // verus!

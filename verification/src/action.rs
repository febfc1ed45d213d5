//! Actions that change the world, the events they produce, and the paths that address
//! the world's entities.
use vstd::prelude::*;
use vstd::string::StringExecFns;
use crate::card::Card;
use crate::creature::Creature;
use crate::error::{Error, debug_text};
use crate::hex::Hex;
use crate::id_map::{Id, same_id};
use crate::part::{Part, PartTag, TagMod, TagModId};
use crate::status::{Status, StatusId};
use crate::vec_set::{SetElem, VecSet};

verus! {

/// The address of an entity: the world itself, a creature, one of its parts, or a card.
#[derive(Debug, Clone, Copy)]
pub enum Path {
    Global,
    Creature { cid: Id<Creature> },
    Part { cid: Id<Creature>, pid: Id<Part> },
    Card { cid: Id<Creature>, pid: Id<Part>, card: Id<Card> },
}

pub open spec fn spec_path_creature(p: Path) -> Option<Id<Creature>> {
    match p {
        Path::Creature { cid } => Some(cid),
        Path::Part { cid, .. } => Some(cid),
        Path::Card { cid, .. } => Some(cid),
        Path::Global => None,
    }
}

pub open spec fn spec_path_part(p: Path) -> Option<(Id<Creature>, Id<Part>)> {
    match p {
        Path::Part { cid, pid } => Some((cid, pid)),
        _ => None,
    }
}

impl Path {
    /// The creature this path lies in, if any.
    pub fn creature(&self) -> (r: Option<Id<Creature>>)
        ensures
            r == spec_path_creature(*self),
    {
        match self {
            Path::Creature { cid } => Some(*cid),
            Path::Part { cid, .. } => Some(*cid),
            Path::Card { cid, .. } => Some(*cid),
            Path::Global => None,
        }
    }

    /// The creature and part of a path that names a part.
    pub fn part(&self) -> (r: Option<(Id<Creature>, Id<Part>)>)
        ensures
            r == spec_path_part(*self),
    {
        match self {
            Path::Part { cid, pid } => Some((*cid, *pid)),
            _ => None,
        }
    }

    /// Whether two paths are the same.
    pub fn same(&self, other: &Path) -> (r: bool)
        ensures
            r == (*self == *other),
    {
        match (self, other) {
            (Path::Global, Path::Global) => true,
            (Path::Creature { cid: a }, Path::Creature { cid: b }) => same_id(a, b),
            (Path::Part { cid: a, pid: p }, Path::Part { cid: b, pid: q }) => same_id(a, b)
                && same_id(p, q),
            (Path::Card { cid: a, pid: p, card: c }, Path::Card { cid: b, pid: q, card: d }) => {
                same_id(a, b) && same_id(p, q) && same_id(c, d)
            },
            _ => false,
        }
    }
}

impl SetElem for Path {
    fn same(&self, other: &Path) -> (r: bool) {
        Path::same(self, other)
    }
}

/// Whether an optional creature id equals another.
pub fn same_creature_opt(a: &Option<Id<Creature>>, b: &Option<Id<Creature>>) -> (r: bool)
    ensures
        r == (*a == *b),
{
    match (a, b) {
        (Some(x), Some(y)) => same_id(x, y),
        (None, None) => true,
        _ => false,
    }
}

/// Labels that travel with an action and the events it causes.
#[derive(Debug, Clone, Copy, PartialEq, Eq, Structural, Hash)]
pub enum Tag {
    Attack,
    Normal,
}

impl SetElem for Tag {
    fn same(&self, other: &Tag) -> (r: bool) {
        *self == *other
    }
}

/// A set of tags holding exactly `t`.
pub fn tags_of(t: Tag) -> (r: VecSet<Tag>)
    ensures
        r@ == set![t],
{
    let mut s = VecSet::new();
    s.insert(t);
    assert(s@ =~= set![t]);
    s
}

/// Data with its source, its target and its tags.
#[derive(Debug, Clone)]
pub struct Meta<T> {
    pub source: Path,
    pub target: Path,
    pub tags: VecSet<Tag>,
    pub data: T,
}

/// The abstract value of a `Meta`: the tags as a set and the data by its view.
pub struct MetaView<D> {
    pub source: Path,
    pub target: Path,
    pub tags: Set<Tag>,
    pub data: D,
}

impl<T: View> View for Meta<T> {
    type V = MetaView<T::V>;

    open spec fn view(&self) -> MetaView<T::V> {
        MetaView { source: self.source, target: self.target, tags: self.tags@, data: self.data@ }
    }
}

impl<T> Meta<T> {
    /// Data aimed from the world at the world, untagged.
    pub fn new(data: T) -> (r: Meta<T>)
        ensures
            r.source == Path::Global,
            r.target == Path::Global,
            r.tags@ == Set::<Tag>::empty(),
            r.data == data,
    {
        Meta { source: Path::Global, target: Path::Global, tags: VecSet::new(), data }
    }

    /// Other data with the same source, target and tags.
    pub fn carry<D>(&self, data: D) -> (r: Meta<D>)
        ensures
            r.source == self.source,
            r.target == self.target,
            r.tags@ == self.tags@,
            r.data == data,
    {
        Meta { source: self.source, target: self.target, tags: self.tags.copy(), data }
    }
}

/// Data aimed from the world at creature `cid`, untagged.
pub fn to_creature<T>(cid: Id<Creature>, data: T) -> (r: Meta<T>)
    ensures
        r.source == Path::Global,
        r.target == (Path::Creature { cid }),
        r.tags@ == Set::<Tag>::empty(),
        r.data == data,
{
    Meta { source: Path::Global, target: Path::Creature { cid }, tags: VecSet::new(), data }
}

/// What an action asks for.
#[derive(Debug, Clone)]
pub enum ActionData {
    // Special
    Nothing,
    Fail { description: String },
    // Entity
    AddStatus { status: Status },
    RemoveStatus { id: StatusId },
    // Creature
    Move { to: Hex },
    GainAP { ap: i32 },
    SpendAP { ap: i32 },
    GainMP { mp: i32 },
    SpendMP { mp: i32 },
    NewHand,
    // Card
    Discard,
    // Part
    Hit { damage: i32 },
    Heal { hp: i32 },
    SetTags { tags: Vec<PartTag> },
    ClearTags { tags: Vec<PartTag> },
    AddTagMod { m: TagMod },
    ClearTagMod { id: TagModId },
}

/// `ActionData` with its texts and tag lists as sequences.
pub enum ActionDataView {
    Nothing,
    Fail { description: Seq<char> },
    AddStatus { status: Status },
    RemoveStatus { id: StatusId },
    Move { to: Hex },
    GainAP { ap: i32 },
    SpendAP { ap: i32 },
    GainMP { mp: i32 },
    SpendMP { mp: i32 },
    NewHand,
    Discard,
    Hit { damage: i32 },
    Heal { hp: i32 },
    SetTags { tags: Seq<PartTag> },
    ClearTags { tags: Seq<PartTag> },
    AddTagMod { m: TagMod },
    ClearTagMod { id: TagModId },
}

impl View for ActionData {
    type V = ActionDataView;

    open spec fn view(&self) -> ActionDataView {
        match self {
            ActionData::Nothing => ActionDataView::Nothing,
            ActionData::Fail { description } => ActionDataView::Fail {
                description: description@,
            },
            ActionData::AddStatus { status } => ActionDataView::AddStatus { status: *status },
            ActionData::RemoveStatus { id } => ActionDataView::RemoveStatus { id: *id },
            ActionData::Move { to } => ActionDataView::Move { to: *to },
            ActionData::GainAP { ap } => ActionDataView::GainAP { ap: *ap },
            ActionData::SpendAP { ap } => ActionDataView::SpendAP { ap: *ap },
            ActionData::GainMP { mp } => ActionDataView::GainMP { mp: *mp },
            ActionData::SpendMP { mp } => ActionDataView::SpendMP { mp: *mp },
            ActionData::NewHand => ActionDataView::NewHand,
            ActionData::Discard => ActionDataView::Discard,
            ActionData::Hit { damage } => ActionDataView::Hit { damage: *damage },
            ActionData::Heal { hp } => ActionDataView::Heal { hp: *hp },
            ActionData::SetTags { tags } => ActionDataView::SetTags { tags: tags@ },
            ActionData::ClearTags { tags } => ActionDataView::ClearTags { tags: tags@ },
            ActionData::AddTagMod { m } => ActionDataView::AddTagMod { m: *m },
            ActionData::ClearTagMod { id } => ActionDataView::ClearTagMod { id: *id },
        }
    }
}

fn copy_tags(v: &Vec<PartTag>) -> (r: Vec<PartTag>)
    ensures
        r@ == v@,
{
    let mut out: Vec<PartTag> = Vec::new();
    let mut i: usize = 0;
    while i < v.len()
        invariant
            i <= v@.len(),
            out@ == v@.take(i as int),
        decreases v@.len() - i,
    {
        out.push(v[i]);
        assert(out@ =~= v@.take(i + 1));
        i = i + 1;
    }
    assert(out@ =~= v@);
    out
}

impl ActionData {
    /// A copy with the same view.
    pub fn copy(&self) -> (r: ActionData)
        ensures
            r@ == self@,
    {
        match self {
            ActionData::Nothing => ActionData::Nothing,
            ActionData::Fail { description } => ActionData::Fail {
                description: description.clone(),
            },
            ActionData::AddStatus { status } => ActionData::AddStatus { status: *status },
            ActionData::RemoveStatus { id } => ActionData::RemoveStatus { id: *id },
            ActionData::Move { to } => ActionData::Move { to: *to },
            ActionData::GainAP { ap } => ActionData::GainAP { ap: *ap },
            ActionData::SpendAP { ap } => ActionData::SpendAP { ap: *ap },
            ActionData::GainMP { mp } => ActionData::GainMP { mp: *mp },
            ActionData::SpendMP { mp } => ActionData::SpendMP { mp: *mp },
            ActionData::NewHand => ActionData::NewHand,
            ActionData::Discard => ActionData::Discard,
            ActionData::Hit { damage } => ActionData::Hit { damage: *damage },
            ActionData::Heal { hp } => ActionData::Heal { hp: *hp },
            ActionData::SetTags { tags } => ActionData::SetTags { tags: copy_tags(tags) },
            ActionData::ClearTags { tags } => ActionData::ClearTags { tags: copy_tags(tags) },
            ActionData::AddTagMod { m } => ActionData::AddTagMod { m: *m },
            ActionData::ClearTagMod { id } => ActionData::ClearTagMod { id: *id },
        }
    }
}

pub type Action = Meta<ActionData>;

impl Meta<ActionData> {
    /// A copy with the same view.
    pub fn copy(&self) -> (r: Action)
        ensures
            r@ == self@,
    {
        self.carry(self.data.copy())
    }
}

/// What happened.
#[derive(Debug, Clone)]
pub enum EventData {
    // Special
    Nothing,
    Failed { description: String },
    // Global
    PlayerTurnEnd,
    NpcTurnEnd,
    // Entity
    StatusAdded { id: StatusId },
    StatusRemoved { id: StatusId },
    // Creature
    Moved { from: Hex, to: Hex },
    ChangeAP { delta: i32 },
    ChangeMP { delta: i32 },
    Died,
    DeckRecycled,
    // Card
    Discarded,
    Drew,
    // Part
    ChangeHP { delta: i32 },
    TagsSet { tags: Vec<PartTag> },
    TagsCleared { tags: Vec<PartTag> },
    TagsModded { id: TagModId },
    TagsUnmodded { id: TagModId },
    // Cosmetic
    FloatText { text: String },
}

/// `EventData` with its texts and tag lists as sequences.
pub enum EventDataView {
    Nothing,
    Failed { description: Seq<char> },
    PlayerTurnEnd,
    NpcTurnEnd,
    StatusAdded { id: StatusId },
    StatusRemoved { id: StatusId },
    Moved { from: Hex, to: Hex },
    ChangeAP { delta: i32 },
    ChangeMP { delta: i32 },
    Died,
    DeckRecycled,
    Discarded,
    Drew,
    ChangeHP { delta: i32 },
    TagsSet { tags: Seq<PartTag> },
    TagsCleared { tags: Seq<PartTag> },
    TagsModded { id: TagModId },
    TagsUnmodded { id: TagModId },
    FloatText { text: Seq<char> },
}

impl View for EventData {
    type V = EventDataView;

    open spec fn view(&self) -> EventDataView {
        match self {
            EventData::Nothing => EventDataView::Nothing,
            EventData::Failed { description } => EventDataView::Failed {
                description: description@,
            },
            EventData::PlayerTurnEnd => EventDataView::PlayerTurnEnd,
            EventData::NpcTurnEnd => EventDataView::NpcTurnEnd,
            EventData::StatusAdded { id } => EventDataView::StatusAdded { id: *id },
            EventData::StatusRemoved { id } => EventDataView::StatusRemoved { id: *id },
            EventData::Moved { from, to } => EventDataView::Moved { from: *from, to: *to },
            EventData::ChangeAP { delta } => EventDataView::ChangeAP { delta: *delta },
            EventData::ChangeMP { delta } => EventDataView::ChangeMP { delta: *delta },
            EventData::Died => EventDataView::Died,
            EventData::DeckRecycled => EventDataView::DeckRecycled,
            EventData::Discarded => EventDataView::Discarded,
            EventData::Drew => EventDataView::Drew,
            EventData::ChangeHP { delta } => EventDataView::ChangeHP { delta: *delta },
            EventData::TagsSet { tags } => EventDataView::TagsSet { tags: tags@ },
            EventData::TagsCleared { tags } => EventDataView::TagsCleared { tags: tags@ },
            EventData::TagsModded { id } => EventDataView::TagsModded { id: *id },
            EventData::TagsUnmodded { id } => EventDataView::TagsUnmodded { id: *id },
            EventData::FloatText { text } => EventDataView::FloatText { text: text@ },
        }
    }
}

pub open spec fn spec_is_global(d: EventDataView) -> bool {
    d is PlayerTurnEnd || d is NpcTurnEnd
}

/// No event of `es` is heard by every entity.
pub open spec fn local_events(es: Seq<MetaView<EventDataView>>) -> bool {
    forall|i: int| 0 <= i < es.len() ==> !spec_is_global(#[trigger] es[i].data)
}

impl EventData {
    /// Whether every entity hears this event, not only those it is about.
    pub fn is_global(&self) -> (r: bool)
        ensures
            r == spec_is_global(self@),
    {
        match self {
            EventData::PlayerTurnEnd => true,
            EventData::NpcTurnEnd => true,
            _ => false,
        }
    }

    /// A copy with the same view.
    pub fn copy(&self) -> (r: EventData)
        ensures
            r@ == self@,
    {
        match self {
            EventData::Nothing => EventData::Nothing,
            EventData::Failed { description } => EventData::Failed {
                description: description.clone(),
            },
            EventData::PlayerTurnEnd => EventData::PlayerTurnEnd,
            EventData::NpcTurnEnd => EventData::NpcTurnEnd,
            EventData::StatusAdded { id } => EventData::StatusAdded { id: *id },
            EventData::StatusRemoved { id } => EventData::StatusRemoved { id: *id },
            EventData::Moved { from, to } => EventData::Moved { from: *from, to: *to },
            EventData::ChangeAP { delta } => EventData::ChangeAP { delta: *delta },
            EventData::ChangeMP { delta } => EventData::ChangeMP { delta: *delta },
            EventData::Died => EventData::Died,
            EventData::DeckRecycled => EventData::DeckRecycled,
            EventData::Discarded => EventData::Discarded,
            EventData::Drew => EventData::Drew,
            EventData::ChangeHP { delta } => EventData::ChangeHP { delta: *delta },
            EventData::TagsSet { tags } => EventData::TagsSet { tags: copy_tags(tags) },
            EventData::TagsCleared { tags } => EventData::TagsCleared { tags: copy_tags(tags) },
            EventData::TagsModded { id } => EventData::TagsModded { id: *id },
            EventData::TagsUnmodded { id } => EventData::TagsUnmodded { id: *id },
            EventData::FloatText { text } => EventData::FloatText { text: text.clone() },
        }
    }
}

pub type Event = Meta<EventData>;

/// The event that reports a failure with `err`.
pub open spec fn failed_event(err: Error) -> MetaView<EventDataView> {
    MetaView {
        source: Path::Global,
        target: Path::Global,
        tags: Set::empty(),
        data: EventDataView::Failed { description: debug_text(err) },
    }
}

impl Meta<EventData> {
    pub fn is_global(&self) -> (r: bool)
        ensures
            r == spec_is_global(self.data@),
    {
        self.data.is_global()
    }

    /// The event that reports a failure with `err`.
    pub fn failed(err: Error) -> (r: Event)
        ensures
            r@ == failed_event(err),
    {
        Meta::new(EventData::Failed { description: err.debug_text() })
    }

    /// Whether a list of events starts with a failure.
    pub fn is_failure(events: &[Event]) -> (r: bool)
        ensures
            r == (events@.len() > 0 && events@[0].data is Failed),
    {
        if events.len() == 0 {
            false
        } else {
            match &events[0].data {
                EventData::Failed { .. } => true,
                _ => false,
            }
        }
    }

    /// A copy with the same view.
    pub fn copy(&self) -> (r: Event)
        ensures
            r@ == self@,
    {
        self.carry(self.data.copy())
    }
}

/// The views of a list of events.
pub open spec fn event_views(es: Seq<Event>) -> Seq<MetaView<EventDataView>> {
    es.map_values(|e: Event| e@)
}

/// A resolution's result, its events by their views.
pub open spec fn result_views(r: Result<Vec<Event>, Error>) -> Result<Seq<MetaView<EventDataView>>, Error> {
    match r {
        Ok(es) => Ok(event_views(es@)),
        Err(e) => Err(e),
    }
}

/// The views of a list of actions.
pub open spec fn action_views(es: Seq<Action>) -> Seq<MetaView<ActionDataView>> {
    es.map_values(|e: Action| e@)
}

/// `events` is the list `before` followed by `after`, by their views.
pub open spec fn events_concat(
    all: Seq<Event>,
    before: Seq<MetaView<EventDataView>>,
    after: Seq<MetaView<EventDataView>>,
) -> bool {
    event_views(all) == before + after
}

/// A copy of a list of events.
pub fn copy_events(es: &Vec<Event>) -> (r: Vec<Event>)
    ensures
        event_views(r@) == event_views(es@),
{
    let mut out: Vec<Event> = Vec::new();
    let mut i: usize = 0;
    while i < es.len()
        invariant
            i <= es@.len(),
            out@.len() == i,
            forall|j: int| 0 <= j < i ==> #[trigger] out@[j]@ == es@[j]@,
        decreases es@.len() - i,
    {
        out.push(es[i].copy());
        i = i + 1;
    }
    assert(event_views(out@) =~= event_views(es@));
    out
}

/// Appends the events of `more` to `out`.
pub fn extend_events(out: &mut Vec<Event>, more: Vec<Event>)
    ensures
        event_views(final(out)@) == event_views(old(out)@) + event_views(more@),
{
    let ghost o = out@;
    let ghost m = more@;
    let mut more = more;
    out.append(&mut more);
    assert(out@ =~= o + m);
    assert(event_views(out@) =~= event_views(o) + event_views(m));
}

} // verus!

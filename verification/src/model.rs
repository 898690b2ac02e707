//! Mathematical model of the engine: views of the executable data types and
//! the replay interpreter that the executable apply/undo/redo functions are
//! proved against.

use vstd::prelude::*;
use std::rc::Rc;

use crate::property::{self, Value2};
use crate::transaction::PropChange;
use crate::entity::{Entity, DocError, CHG_CREATED, CHG_DEL_PROP, CHG_UPD_PROP, CHG_ADD_PROP, CHG_DELETED, INSERT_DEPTH};
use crate::transaction::{Changes, EntityChanges, Transaction};

verus! {

broadcast use vstd::std_specs::vec::axiom_vec_index_decreases;

/// View of an [`Entity`]: the tree node as a pure value.
pub struct EntityV {
    pub name: Seq<u32>,
    pub props: Seq<Rc<Value2>>,
    pub children: Option<Seq<EntityV>>,
}

/// View of an [`EntityChanges`] record.
pub struct EntityChangesV {
    pub ename: Seq<u32>,
    pub props: Seq<PropChange>,
}

/// View of one entity-level change.
pub enum ChangeV {
    Update(EntityChangesV),
    Delete(Seq<u32>),
}

/// View of one entity, defined by structural recursion over the tree.
pub open spec fn v_entity(e: Entity) -> EntityV
    decreases e, 0nat, 0nat,
{
    EntityV {
        name: e.name@,
        props: e.props2@,
        children: match e.children {
            Option::None => Option::None,
            Option::Some(c) => Option::Some(v_entities_from(c, 0)),
        },
    }
}

/// View of the entities of `c` from index `i` on.
pub open spec fn v_entities_from(c: Vec<Entity>, i: int) -> Seq<EntityV>
    decreases c, 1nat, c.len() - i,
{
    if 0 <= i < c.len() {
        seq![v_entity(c[i])] + v_entities_from(c, i + 1)
    } else {
        Seq::empty()
    }
}

/// View of a whole content vector.
pub open spec fn v_content(c: Vec<Entity>) -> Seq<EntityV> {
    v_entities_from(c, 0)
}

/// The view of a vector of entities is element-wise [`v_entity`].
pub proof fn lemma_v_entities_from(c: Vec<Entity>, i: int)
    requires
        0 <= i <= c.len(),
    ensures
        v_entities_from(c, i).len() == c.len() - i,
        forall|j: int| i <= j < c.len() ==> v_entities_from(c, i)[j - i] == v_entity(c[j]),
    decreases c.len() - i,
{
    if i < c.len() {
        lemma_v_entities_from(c, i + 1);
    }
}

/// The view of a whole content vector, element-wise.
pub proof fn lemma_v_content(c: Vec<Entity>)
    ensures
        v_content(c).len() == c.len(),
        forall|j: int| 0 <= j < c.len() ==> v_content(c)[j] == v_entity(c[j]),
{
    lemma_v_entities_from(c, 0);
}

impl View for Entity {
    type V = EntityV;

    open spec fn view(&self) -> EntityV {
        v_entity(*self)
    }
}

impl View for EntityChanges {
    type V = EntityChangesV;

    open spec fn view(&self) -> EntityChangesV {
        EntityChangesV { ename: self.ename@, props: self.props@ }
    }
}

impl View for Changes {
    type V = ChangeV;

    open spec fn view(&self) -> ChangeV {
        match self {
            Changes::Update(ec) => ChangeV::Update(ec@),
            Changes::Delete(n) => ChangeV::Delete(n@),
        }
    }
}

/// View of a change list.
pub open spec fn changes_view(d: Seq<Changes>) -> Seq<ChangeV> {
    d.map_values(|c: Changes| c@)
}

/// Recording one more change appends its view.
pub proof fn lemma_changes_view_push(d: Seq<Changes>, x: Changes)
    ensures
        changes_view(d.push(x)) == changes_view(d).push(x@),
{
    assert(changes_view(d.push(x)) =~= changes_view(d).push(x@));
}

/// View of a transaction: just its ordered change list.
pub open spec fn tx_view(t: Transaction) -> Seq<ChangeV> {
    changes_view(t.data@)
}

/// View of one document history.
pub struct StorageV {
    pub id: u32,
    pub txs: Seq<Seq<ChangeV>>,
    pub applied: int,
    pub last_id: u32,
}

impl View for crate::entity::TransactionStorage {
    type V = StorageV;

    open spec fn view(&self) -> StorageV {
        StorageV {
            id: self.id,
            txs: self.htrs@.map_values(|t: Transaction| tx_view(t)),
            applied: self.applied as int,
            last_id: self.last_id,
        }
    }
}

/// View of the history cache.
pub open spec fn v_storages(ss: Vec<crate::entity::TransactionStorage>) -> Seq<StorageV> {
    ss@.map_values(|s: crate::entity::TransactionStorage| s@)
}

/// Trailing segment of a non-empty name.
pub open spec fn last_seg(name: Seq<u32>) -> u32 {
    name[name.len() - 1]
}

/// First index of `content` whose entity's trailing name segment is `seg`,
/// or `-1` if there is none.
pub open spec fn find_by_seg(content: Seq<EntityV>, seg: u32) -> int
    decreases content.len(),
{
    if content.len() == 0 {
        -1
    } else if last_seg(content[0].name) == seg {
        0
    } else {
        let r = find_by_seg(content.drop_first(), seg);
        if r < 0 {
            -1
        } else {
            r + 1
        }
    }
}

/// What [`find_by_seg`] finds: the first match, or nothing to find.
pub proof fn lemma_find_by_seg(content: Seq<EntityV>, seg: u32)
    ensures
        find_by_seg(content, seg) >= 0 ==> {
            let r = find_by_seg(content, seg);
            &&& r < content.len()
            &&& content[r].name.len() > 0 ==> last_seg(content[r].name) == seg
            &&& last_seg(content[r].name) == seg
            &&& forall|j: int| 0 <= j < r ==> last_seg(content[j].name) != seg
        },
        find_by_seg(content, seg) < 0 ==> forall|j: int|
            0 <= j < content.len() ==> last_seg(content[j].name) != seg,
    decreases content.len(),
{
    if content.len() > 0 && last_seg(content[0].name) != seg {
        lemma_find_by_seg(content.drop_first(), seg);
        assert(forall|j: int|
            1 <= j < content.len() ==> content.drop_first()[j - 1] == content[j]);
    }
}

/// First index of `props` whose property has key `key`, or `-1`.
pub open spec fn find_prop(props: Seq<Rc<Value2>>, key: u32) -> int
    decreases props.len(),
{
    if props.len() == 0 {
        -1
    } else if props[0].key == key {
        0
    } else {
        let r = find_prop(props.drop_first(), key);
        if r < 0 {
            -1
        } else {
            r + 1
        }
    }
}

/// What [`find_prop`] finds: the first match, or nothing to find.
pub proof fn lemma_find_prop(props: Seq<Rc<Value2>>, key: u32)
    ensures
        find_prop(props, key) >= 0 ==> {
            let r = find_prop(props, key);
            &&& r < props.len()
            &&& props[r].key == key
            &&& forall|j: int| 0 <= j < r ==> props[j].key != key
        },
        find_prop(props, key) < 0 ==> forall|j: int|
            0 <= j < props.len() ==> props[j].key != key,
    decreases props.len(),
{
    if props.len() > 0 && props[0].key != key {
        lemma_find_prop(props.drop_first(), key);
        assert(forall|j: int| 1 <= j < props.len() ==> props.drop_first()[j - 1] == props[j]);
    }
}

/// Summary of one apply: per entity name, the OR of its change flags.
pub open spec fn chg_one(name: Seq<u32>, flags: u32) -> Map<Seq<u32>, u32> {
    Map::empty().insert(name, flags)
}

/// Merge two change summaries, OR-ing the flags of shared names.
pub open spec fn chg_merge(a: Map<Seq<u32>, u32>, b: Map<Seq<u32>, u32>) -> Map<Seq<u32>, u32> {
    Map::new(
        |k: Seq<u32>| a.contains_key(k) || b.contains_key(k),
        |k: Seq<u32>|
            if a.contains_key(k) && b.contains_key(k) {
                a[k] | b[k]
            } else if a.contains_key(k) {
                a[k]
            } else {
                b[k]
            },
    )
}

/// First index of the history with identity `id`, or `-1`.
pub open spec fn find_storage(ss: Seq<StorageV>, id: u32) -> int
    decreases ss.len(),
{
    if ss.len() == 0 {
        -1
    } else if ss[0].id == id {
        0
    } else {
        let r = find_storage(ss.drop_first(), id);
        if r < 0 {
            -1
        } else {
            r + 1
        }
    }
}

/// What [`find_storage`] finds: the first match, or nothing to find.
pub proof fn lemma_find_storage(ss: Seq<StorageV>, id: u32)
    ensures
        find_storage(ss, id) >= 0 ==> {
            let r = find_storage(ss, id);
            &&& r < ss.len()
            &&& ss[r].id == id
            &&& forall|j: int| 0 <= j < r ==> ss[j].id != id
        },
        find_storage(ss, id) < 0 ==> forall|j: int| 0 <= j < ss.len() ==> ss[j].id != id,
    decreases ss.len(),
{
    if ss.len() > 0 && ss[0].id != id {
        lemma_find_storage(ss.drop_first(), id);
        assert(forall|j: int| 1 <= j < ss.len() ==> ss.drop_first()[j - 1] == ss[j]);
    }
}

/// A history that has never been seen before: no transactions, name counter
/// at its start.
pub open spec fn empty_storage(id: u32) -> StorageV {
    StorageV { id: id, txs: Seq::empty(), applied: 0, last_id: crate::entity::START_NAME }
}

/// All committed change lists of a document, concatenated in commit order.
pub open spec fn concat_all(txs: Seq<Seq<ChangeV>>) -> Seq<ChangeV>
    decreases txs.len(),
{
    if txs.len() == 0 {
        Seq::empty()
    } else {
        txs[0] + concat_all(txs.drop_first())
    }
}

/// Result of replaying changes against a content level.
pub struct ApplyOut {
    pub content: Seq<EntityV>,
    pub storages: Seq<StorageV>,
    pub changed: Map<Seq<u32>, u32>,
}

/// Result of applying property changes to one entity.
pub struct PropOut {
    pub entity: EntityV,
    pub storages: Seq<StorageV>,
    pub changed: Map<Seq<u32>, u32>,
}

/// Apply one property change to an entity.
///
/// An `Update` replaces the value stored at the key if present, and appends
/// the property otherwise.  Appending the document-insertion sentinel key
/// additionally materializes the inserted document's content as the entity's
/// children: the committed transactions of that document (lazily registered
/// in the history cache when unseen) are concatenated and replayed against
/// an empty child list — a snapshot at insertion time.  A `Delete` removes
/// the key if present (by swapping the last property into its slot) and is a
/// silent no-op otherwise.
pub open spec fn sp_apply_prop(e: EntityV, c: PropChange, ss: Seq<StorageV>, fuel: nat) -> Result<
    PropOut,
    DocError,
>
    decreases fuel, 0nat, 0nat,
{
    match c {
        PropChange::Update(p) => {
            let i = find_prop(e.props, p.key);
            if i >= 0 {
                Ok(
                    PropOut {
                        entity: EntityV { props: e.props.update(i, p), ..e },
                        storages: ss,
                        changed: chg_one(e.name, CHG_UPD_PROP),
                    },
                )
            } else {
                let e1 = EntityV { props: e.props.push(p), ..e };
                if p.key == property::INS_DOC {
                    match p.value {
                        property::PropData::Doc(doc_id) => {
                            if fuel == 0 {
                                Err(DocError::RecursionLimit)
                            } else {
                                let j0 = find_storage(ss, doc_id);
                                let j = if j0 >= 0 {
                                    j0
                                } else {
                                    ss.len() as int
                                };
                                let ss1 = if j0 >= 0 {
                                    ss
                                } else {
                                    ss.push(empty_storage(doc_id))
                                };
                                match sp_apply_changes(
                                    Seq::empty(),
                                    concat_all(ss1[j].txs),
                                    ss1,
                                    (fuel - 1) as nat,
                                ) {
                                    Ok(o) => Ok(
                                        PropOut {
                                            entity: EntityV {
                                                children: Some(o.content),
                                                ..e1
                                            },
                                            storages: o.storages,
                                            changed: chg_merge(
                                                chg_one(e.name, CHG_ADD_PROP),
                                                o.changed,
                                            ),
                                        },
                                    ),
                                    Err(er) => Err(er),
                                }
                            }
                        }
                        _ => Err(DocError::UnexpectedValueType),
                    }
                } else {
                    Ok(
                        PropOut {
                            entity: e1,
                            storages: ss,
                            changed: chg_one(e.name, CHG_ADD_PROP),
                        },
                    )
                }
            }
        }
        PropChange::Delete(key) => {
            let i = find_prop(e.props, key);
            let e1 = if i >= 0 {
                EntityV { props: e.props.update(i, e.props.last()).drop_last(), ..e }
            } else {
                e
            };
            Ok(PropOut { entity: e1, storages: ss, changed: chg_one(e.name, CHG_DEL_PROP) })
        }
    }
}

/// Apply a list of property changes to one entity, in order.
pub open spec fn sp_apply_props(
    e: EntityV,
    props: Seq<PropChange>,
    ss: Seq<StorageV>,
    fuel: nat,
) -> Result<PropOut, DocError>
    decreases fuel, 1nat, props.len(),
{
    if props.len() == 0 {
        Ok(PropOut { entity: e, storages: ss, changed: Map::empty() })
    } else {
        match sp_apply_prop(e, props[0], ss, fuel) {
            Ok(o1) => match sp_apply_props(o1.entity, props.drop_first(), o1.storages, fuel) {
                Ok(o2) => Ok(
                    PropOut {
                        entity: o2.entity,
                        storages: o2.storages,
                        changed: chg_merge(o1.changed, o2.changed),
                    },
                ),
                Err(er) => Err(er),
            },
            Err(er) => Err(er),
        }
    }
}

/// Create or update the entity addressed by `ename`, then apply its property
/// changes.
///
/// The name is resolved one segment at a time: every segment but the last
/// selects, at the current level, the first entity whose trailing name
/// segment matches and descends into its children (`EntityNotFound` if
/// absent, `NotAContainer` if it has no children list).  For the last
/// segment, a missing entity is created as a fresh leaf, marked `CREATED`.
pub open spec fn sp_create_or_update(
    content: Seq<EntityV>,
    ename: Seq<u32>,
    props: Seq<PropChange>,
    ss: Seq<StorageV>,
    fuel: nat,
) -> Result<ApplyOut, DocError>
    decreases fuel, 2nat, ename.len(),
{
    if ename.len() > 1 {
        let i = find_by_seg(content, ename[0]);
        if i < 0 {
            Err(DocError::EntityNotFound)
        } else {
            match content[i].children {
                None => Err(DocError::NotAContainer),
                Some(ch) => match sp_create_or_update(ch, ename.drop_first(), props, ss, fuel) {
                    Ok(o) => Ok(
                        ApplyOut {
                            content: content.update(
                                i,
                                EntityV { children: Some(o.content), ..content[i] },
                            ),
                            storages: o.storages,
                            changed: o.changed,
                        },
                    ),
                    Err(er) => Err(er),
                },
            }
        }
    } else if ename.len() == 1 {
        let i = find_by_seg(content, ename[0]);
        if i >= 0 {
            match sp_apply_props(content[i], props, ss, fuel) {
                Ok(o) => Ok(
                    ApplyOut {
                        content: content.update(i, o.entity),
                        storages: o.storages,
                        changed: o.changed,
                    },
                ),
                Err(er) => Err(er),
            }
        } else {
            let fresh = EntityV { name: seq![ename[0]], props: Seq::empty(), children: None };
            match sp_apply_props(fresh, props, ss, fuel) {
                Ok(o) => Ok(
                    ApplyOut {
                        content: content.push(o.entity),
                        storages: o.storages,
                        changed: chg_merge(chg_one(seq![ename[0]], CHG_CREATED), o.changed),
                    },
                ),
                Err(er) => Err(er),
            }
        }
    } else {
        Err(DocError::EntityNotFound)
    }
}

/// Resolving a multi-segment name fails before anything is applied: some
/// non-final segment matches no entity at its level, or matches an entity
/// without a children list.
pub open spec fn sp_resolution_fails(content: Seq<EntityV>, ename: Seq<u32>) -> bool
    decreases ename.len(),
{
    if ename.len() > 1 {
        let i = find_by_seg(content, ename[0]);
        if i < 0 {
            true
        } else {
            match content[i].children {
                None => true,
                Some(ch) => sp_resolution_fails(ch, ename.drop_first()),
            }
        }
    } else {
        false
    }
}

/// Replay an ordered change list against a content level, one change after
/// another.
///
/// A `Delete` change resolves its name by trailing segment at this level
/// only and removes the match by swapping the last entity into its place;
/// a missing match is an error.
pub open spec fn sp_apply_changes(
    content: Seq<EntityV>,
    changes: Seq<ChangeV>,
    ss: Seq<StorageV>,
    fuel: nat,
) -> Result<ApplyOut, DocError>
    decreases fuel, 3nat, changes.len(),
{
    if changes.len() == 0 {
        Ok(ApplyOut { content: content, storages: ss, changed: Map::empty() })
    } else {
        match changes[0] {
            ChangeV::Update(ec) => match sp_create_or_update(content, ec.ename, ec.props, ss, fuel) {
                Ok(o1) => match sp_apply_changes(o1.content, changes.drop_first(), o1.storages, fuel) {
                    Ok(o2) => Ok(
                        ApplyOut {
                            content: o2.content,
                            storages: o2.storages,
                            changed: chg_merge(o1.changed, o2.changed),
                        },
                    ),
                    Err(er) => Err(er),
                },
                Err(er) => Err(er),
            },
            ChangeV::Delete(name) => {
                if name.len() > 0 {
                    let i = find_by_seg(content, last_seg(name));
                    if i >= 0 {
                        let c1 = content.update(i, content.last()).drop_last();
                        match sp_apply_changes(c1, changes.drop_first(), ss, fuel) {
                            Ok(o2) => Ok(
                                ApplyOut {
                                    content: o2.content,
                                    storages: o2.storages,
                                    changed: chg_merge(chg_one(name, CHG_DELETED), o2.changed),
                                },
                            ),
                            Err(er) => Err(er),
                        }
                    } else {
                        Err(DocError::EntityNotFound)
                    }
                } else {
                    Err(DocError::EntityNotFound)
                }
            }
        }
    }
}

/// Replay the first `n` committed transactions from an empty tree.
pub open spec fn sp_replay(txs: Seq<Seq<ChangeV>>, n: int, ss: Seq<StorageV>) -> Result<
    (Seq<EntityV>, Seq<StorageV>),
    DocError,
>
    decreases n,
{
    if n <= 0 {
        Ok((Seq::empty(), ss))
    } else {
        match sp_replay(txs, n - 1, ss) {
            Ok((c, ss1)) => match sp_apply_changes(c, txs[n - 1], ss1, INSERT_DEPTH as nat) {
                Ok(o) => Ok((o.content, o.storages)),
                Err(er) => Err(er),
            },
            Err(er) => Err(er),
        }
    }
}

/// One name's flags, OR-ed into a summary (what one recorded change does).
pub open spec fn chg_add(m: Map<Seq<u32>, u32>, name: Seq<u32>, flags: u32) -> Map<Seq<u32>, u32> {
    if m.contains_key(name) {
        m.insert(name, m[name] | flags)
    } else {
        m.insert(name, flags)
    }
}

/// OR-ing one entry is merging a one-entry summary.
pub proof fn lemma_chg_add_is_merge(m: Map<Seq<u32>, u32>, name: Seq<u32>, flags: u32)
    ensures
        chg_add(m, name, flags) == chg_merge(m, chg_one(name, flags)),
{
    assert(chg_add(m, name, flags) =~= chg_merge(m, chg_one(name, flags)));
}

/// The empty summary is the identity of merging.
pub proof fn lemma_chg_merge_empty(m: Map<Seq<u32>, u32>)
    ensures
        chg_merge(m, Map::<Seq<u32>, u32>::empty()) == m,
        chg_merge(Map::<Seq<u32>, u32>::empty(), m) == m,
{
    assert(chg_merge(m, Map::<Seq<u32>, u32>::empty()) =~= m);
    assert(chg_merge(Map::<Seq<u32>, u32>::empty(), m) =~= m);
}

/// Merging summaries is associative.
pub proof fn lemma_chg_merge_assoc(
    a: Map<Seq<u32>, u32>,
    b: Map<Seq<u32>, u32>,
    c: Map<Seq<u32>, u32>,
)
    ensures
        chg_merge(chg_merge(a, b), c) == chg_merge(a, chg_merge(b, c)),
{
    assert forall|k: Seq<u32>| #[trigger] chg_merge(chg_merge(a, b), c).contains_key(k)
        implies chg_merge(chg_merge(a, b), c)[k] == chg_merge(a, chg_merge(b, c))[k] by {
        assert forall|x: u32, y: u32, z: u32| ((x | y) | z) == (x | (y | z)) by {
            assert(forall|x: u32, y: u32, z: u32| ((x | y) | z) == (x | (y | z))) by (bit_vector);
        }
    }
    assert(chg_merge(chg_merge(a, b), c) =~= chg_merge(a, chg_merge(b, c)));
}

/// The summary map held by an association list of (name, flags) entries.
pub open spec fn entries_map(s: Seq<(crate::entity::Name, u32)>) -> Map<Seq<u32>, u32>
    decreases s.len(),
{
    if s.len() == 0 {
        Map::empty()
    } else {
        entries_map(s.drop_last()).insert(s.last().0@, s.last().1)
    }
}

/// What an association list with unique names holds.
pub proof fn lemma_entries_map(s: Seq<(crate::entity::Name, u32)>)
    requires
        forall|i: int, j: int| 0 <= i < j < s.len() ==> (#[trigger] s[i]).0@ != (#[trigger] s[j]).0@,
    ensures
        forall|k: Seq<u32>|
            entries_map(s).contains_key(k) <==> exists|i: int| 0 <= i < s.len() && (#[trigger] s[i]).0@ == k,
        forall|i: int|
            0 <= i < s.len() ==> entries_map(s)[(#[trigger] s[i]).0@] == s[i].1,
        entries_map(s).dom().finite(),
        entries_map(s).dom().len() == s.len(),
    decreases s.len(),
{
    if s.len() > 0 {
        lemma_entries_map(s.drop_last());
        assert(forall|i: int| 0 <= i < s.len() - 1 ==> s.drop_last()[i] == s[i]);
        assert(!entries_map(s.drop_last()).contains_key(s.last().0@));
        assert(entries_map(s).dom() =~= entries_map(s.drop_last()).dom().insert(s.last().0@));
        vstd::set::axiom_set_insert_len(entries_map(s.drop_last()).dom(), s.last().0@);
    }
}

/// Replacing an entry's flags (same name) replaces its map entry.
pub proof fn lemma_entries_map_update(
    s: Seq<(crate::entity::Name, u32)>,
    i: int,
    e: (crate::entity::Name, u32),
)
    requires
        0 <= i < s.len(),
        e.0@ == s[i].0@,
        forall|p: int, q: int| 0 <= p < q < s.len() ==> (#[trigger] s[p]).0@ != (#[trigger] s[q]).0@,
    ensures
        entries_map(s.update(i, e)) == entries_map(s).insert(e.0@, e.1),
    decreases s.len(),
{
    if i == s.len() - 1 {
        assert(s.update(i, e).drop_last() =~= s.drop_last());
        assert(entries_map(s.update(i, e)) =~= entries_map(s).insert(e.0@, e.1));
    } else {
        assert(s.update(i, e).drop_last() =~= s.drop_last().update(i, e));
        assert(forall|p: int| 0 <= p < s.len() - 1 ==> s.drop_last()[p] == s[p]);
        lemma_entries_map_update(s.drop_last(), i, e);
        assert(e.0@ != s.last().0@);
        assert(entries_map(s.update(i, e)) =~= entries_map(s).insert(e.0@, e.1));
    }
}

/// Fold one recorded change after another into a summary.
pub open spec fn entries_fold(
    m: Map<Seq<u32>, u32>,
    s: Seq<(crate::entity::Name, u32)>,
) -> Map<Seq<u32>, u32>
    decreases s.len(),
{
    if s.len() == 0 {
        m
    } else {
        chg_add(entries_fold(m, s.drop_last()), s.last().0@, s.last().1)
    }
}

/// Folding one more entry records that entry.
pub proof fn lemma_entries_fold_push(
    m: Map<Seq<u32>, u32>,
    s: Seq<(crate::entity::Name, u32)>,
    e: (crate::entity::Name, u32),
)
    ensures
        entries_fold(m, s.push(e)) == chg_add(entries_fold(m, s), e.0@, e.1),
{
    assert(s.push(e).drop_last() =~= s);
}

/// Folding a unique-name association list merges its summary map.
pub proof fn lemma_entries_fold_is_merge(m: Map<Seq<u32>, u32>, s: Seq<(crate::entity::Name, u32)>)
    requires
        forall|i: int, j: int| 0 <= i < j < s.len() ==> (#[trigger] s[i]).0@ != (#[trigger] s[j]).0@,
    ensures
        entries_fold(m, s) == chg_merge(m, entries_map(s)),
    decreases s.len(),
{
    if s.len() == 0 {
        lemma_chg_merge_empty(m);
    } else {
        assert(forall|i: int| 0 <= i < s.len() - 1 ==> s.drop_last()[i] == s[i]);
        lemma_entries_fold_is_merge(m, s.drop_last());
        lemma_entries_map(s.drop_last());
        assert(!entries_map(s.drop_last()).contains_key(s.last().0@));
        assert(entries_fold(m, s) =~= chg_merge(m, entries_map(s)));
    }
}

/// The view of a content vector depends only on its sequence of entities.
pub proof fn lemma_v_content_eq(c1: Vec<Entity>, c2: Vec<Entity>)
    requires
        c1@ == c2@,
    ensures
        v_content(c1) == v_content(c2),
{
    lemma_v_content(c1);
    lemma_v_content(c2);
    assert(v_content(c1) =~= v_content(c2));
}

/// Once replay fails, replaying any longer prefix fails the same way.
pub proof fn lemma_replay_err(txs: Seq<Seq<ChangeV>>, k: int, n: int, ss: Seq<StorageV>)
    requires
        0 <= k <= n,
        sp_replay(txs, k, ss) is Err,
    ensures
        sp_replay(txs, n, ss) == sp_replay(txs, k, ss),
    decreases n - k,
{
    if k < n {
        lemma_replay_err(txs, k, n - 1, ss);
    }
}

/// Concatenating one more change list appends it at the end.
pub proof fn lemma_concat_all_push(txs: Seq<Seq<ChangeV>>, t: Seq<ChangeV>)
    ensures
        concat_all(txs.push(t)) == concat_all(txs) + t,
    decreases txs.len(),
{
    if txs.len() == 0 {
        assert(txs.push(t).drop_first() =~= Seq::<Seq<ChangeV>>::empty());
        assert(txs.push(t)[0] == t);
        assert(concat_all(txs.push(t)) == t + concat_all(Seq::<Seq<ChangeV>>::empty()));
        assert(concat_all(txs.push(t)) =~= concat_all(txs) + t);
    } else {
        assert(txs.push(t).drop_first() =~= txs.drop_first().push(t));
        lemma_concat_all_push(txs.drop_first(), t);
        assert(concat_all(txs.push(t)) =~= concat_all(txs) + t);
    }
}

/// The second history cache extends the first: the cached histories are
/// untouched, and anything appended is an empty history.
pub open spec fn storages_extend(s1: Seq<StorageV>, s2: Seq<StorageV>) -> bool {
    &&& s2.len() >= s1.len()
    &&& s2.subrange(0, s1.len() as int) == s1
    &&& forall|j: int|
        s1.len() <= j < s2.len() ==> (#[trigger] s2[j]).txs.len() == 0 && s2[j].applied == 0
}

/// Extension of history caches is reflexive.
pub proof fn lemma_storages_extend_refl(s: Seq<StorageV>)
    ensures
        storages_extend(s, s),
{
    assert(s.subrange(0, s.len() as int) =~= s);
}

/// Extension of history caches is transitive.
pub proof fn lemma_storages_extend_trans(a: Seq<StorageV>, b: Seq<StorageV>, c: Seq<StorageV>)
    requires
        storages_extend(a, b),
        storages_extend(b, c),
    ensures
        storages_extend(a, c),
{
    assert(forall|i: int| 0 <= i < b.len() ==> c[i] == #[trigger] b[i]) by {
        assert(forall|i: int|
            0 <= i < b.len() ==> c.subrange(0, b.len() as int)[i] == #[trigger] c[i]);
    }
    assert(forall|i: int| 0 <= i < a.len() ==> b[i] == #[trigger] a[i]) by {
        assert(forall|i: int|
            0 <= i < a.len() ==> b.subrange(0, a.len() as int)[i] == #[trigger] b[i]);
    }
    assert(c.subrange(0, a.len() as int) =~= a);
    assert forall|j: int| a.len() <= j < c.len() implies (#[trigger] c[j]).txs.len() == 0
        && c[j].applied == 0 by {
        if j < b.len() {
            assert(c[j] == b[j]);
        }
    }
}

/// Resolve a name inside an entity, one segment at a time: each segment
/// selects, among the children, the first entity whose trailing name
/// segment matches.  An empty rest resolves to the entity itself.
pub open spec fn sp_get_child(e: EntityV, rest: Seq<u32>) -> Option<EntityV>
    decreases rest.len(),
{
    if rest.len() == 0 {
        Some(e)
    } else {
        match e.children {
            None => None,
            Some(c) => {
                let i = find_by_seg(c, rest[0]);
                if i < 0 {
                    None
                } else {
                    sp_get_child(c[i], rest.drop_first())
                }
            }
        }
    }
}

/// Resolve a full name against the top content level.
pub open spec fn sp_get_entity(content: Seq<EntityV>, name: Seq<u32>) -> Option<EntityV> {
    if name.len() == 0 {
        None
    } else {
        let i = find_by_seg(content, name[0]);
        if i < 0 {
            None
        } else {
            sp_get_child(content[i], name.drop_first())
        }
    }
}

/// Views of a sequence of borrowed entities.
pub open spec fn v_refs(s: Seq<&Entity>) -> Seq<EntityV> {
    s.map_values(|e: &Entity| v_entity(*e))
}

/// Pre-order, depth-first traversal of one entity: the entity itself, then
/// (if descending) its nested children.
pub open spec fn preorder_one(e: EntityV, wc: bool) -> Seq<EntityV>
    decreases e, 0nat, 0nat,
{
    seq![e] + (if wc {
        match e.children {
            Some(c) => preorder_from(c, 0, wc),
            None => Seq::empty(),
        }
    } else {
        Seq::empty()
    })
}

/// Pre-order traversal of the entities of a level from index `i` on.
pub open spec fn preorder_from(c: Seq<EntityV>, i: int, wc: bool) -> Seq<EntityV>
    decreases c, 1nat, c.len() - i,
{
    if 0 <= i < c.len() {
        preorder_one(c[i], wc) + preorder_from(c, i + 1, wc)
    } else {
        Seq::empty()
    }
}

/// Pre-order traversal of a whole content level.
pub open spec fn preorder(c: Seq<EntityV>, wc: bool) -> Seq<EntityV> {
    preorder_from(c, 0, wc)
}

/// Whether a name is in the selection.
pub open spec fn sel_contains(names: Seq<Seq<u32>>, n: Seq<u32>) -> bool {
    exists|i: int| 0 <= i < names.len() && names[i] == n
}

/// The property lists of the selected entities, in traversal order.
pub open spec fn sp_copy(po: Seq<EntityV>, names: Seq<Seq<u32>>) -> Seq<Seq<Rc<Value2>>>
    decreases po.len(),
{
    if po.len() == 0 {
        Seq::empty()
    } else {
        (if sel_contains(names, po[0].name) {
            seq![po[0].props]
        } else {
            Seq::empty()
        }) + sp_copy(po.drop_first(), names)
    }
}

/// The changes pasting a clipboard appends to the pending transaction: one
/// freshly named creation per snapshot, whose property updates reuse the
/// snapshot's shared property instances.
pub open spec fn paste_changes(ps: Seq<Seq<Rc<Value2>>>, c0: u32) -> Seq<ChangeV> {
    Seq::new(
        ps.len(),
        |i: int|
            ChangeV::Update(
                EntityChangesV {
                    ename: seq![(c0 + i) as u32],
                    props: ps[i].map_values(|p: Rc<Value2>| PropChange::Update(p)),
                },
            ),
    )
}

/// Extension keeps every history's cursor within its committed log.
pub proof fn lemma_extend_keeps_applied(s1: Seq<StorageV>, s2: Seq<StorageV>)
    requires
        storages_extend(s1, s2),
        forall|j: int| 0 <= j < s1.len() ==> (#[trigger] s1[j]).applied <= s1[j].txs.len(),
    ensures
        forall|j: int| 0 <= j < s2.len() ==> (#[trigger] s2[j]).applied <= s2[j].txs.len(),
{
    assert forall|j: int| 0 <= j < s2.len() implies (#[trigger] s2[j]).applied
        <= s2[j].txs.len() by {
        if j < s1.len() {
            assert(s2.subrange(0, s1.len() as int)[j] == s2[j]);
            assert(s2[j] == s1[j]);
        }
    }
}

/// Replacing an entity by a well-formed one keeps the level well formed.
pub proof fn lemma_wf_update(c: Seq<EntityV>, i: int, e: EntityV)
    requires
        wf_entities(c),
        wf_entity(e),
        0 <= i < c.len(),
    ensures
        wf_entities(c.update(i, e)),
{
    assert forall|j: int| 0 <= j < c.update(i, e).len() implies wf_entity(
        #[trigger] c.update(i, e)[j],
    ) by {
        if j != i {
            assert(c.update(i, e)[j] == c[j]);
        }
    }
}

/// Appending a well-formed entity keeps the level well formed.
pub proof fn lemma_wf_push(c: Seq<EntityV>, e: EntityV)
    requires
        wf_entities(c),
        wf_entity(e),
    ensures
        wf_entities(c.push(e)),
{
    assert forall|j: int| 0 <= j < c.push(e).len() implies wf_entity(#[trigger] c.push(e)[j]) by {
        if j < c.len() {
            assert(c.push(e)[j] == c[j]);
        }
    }
}

/// Removing an entity (swapping the last into its slot) keeps the level
/// well formed.
pub proof fn lemma_wf_swap_remove(c: Seq<EntityV>, i: int)
    requires
        wf_entities(c),
        0 <= i < c.len(),
    ensures
        wf_entities(c.update(i, c.last()).drop_last()),
{
    let c2 = c.update(i, c.last()).drop_last();
    assert forall|j: int| 0 <= j < c2.len() implies wf_entity(#[trigger] c2[j]) by {
        if j == i {
            assert(c2[j] == c.last());
        } else {
            assert(c2[j] == c[j]);
        }
    }
}

/// Well-formed entity: a non-empty name, recursively.
pub open spec fn wf_entity(e: EntityV) -> bool
    decreases e, 0nat,
{
    e.name.len() > 0 && match e.children {
        None => true,
        Some(c) => wf_entities(c),
    }
}

/// Well-formed content level: every entity is well formed.
pub open spec fn wf_entities(c: Seq<EntityV>) -> bool
    decreases c, 1nat,
{
    forall|i: int| 0 <= i < c.len() ==> wf_entity(#[trigger] c[i])
}

} // verus!

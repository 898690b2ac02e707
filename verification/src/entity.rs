//! Entities: named nodes of a document's content tree.

use vstd::prelude::*;
use std::rc::Rc;

use crate::property::{self, Value2};

verus! {

/// Errors reported by apply, undo and switch.
///
/// All of these are returned to the immediate caller; none are caught or
/// retried internally.  A failed replay step may leave the content partially
/// mutated; callers needing a consistent tree should rebuild via `undo(0)`.
#[derive(Clone, Copy, PartialEq, Eq, Structural, Debug)]
pub enum DocError {
    /// An update or delete addressed a name with no matching entity at the
    /// expected level.
    EntityNotFound,
    /// A multi-segment name traversed into an entity without a children list.
    NotAContainer,
    /// The document-insertion sentinel held a value of the wrong type.
    UnexpectedValueType,
    /// An undo/redo delta would move past the end of the committed history.
    HistoryOverflow,
    /// An undo/redo delta would move before the start of the history.
    HistoryUnderflow,
    /// Nested document insertion exceeded the fixed depth bound.
    RecursionLimit,
}

/// Change flag: the entity was created during this apply.
pub const CHG_CREATED: u32 = 1;
/// Change flag: a property was deleted from the entity.
pub const CHG_DEL_PROP: u32 = 2;
/// Change flag: an existing property of the entity was replaced.
pub const CHG_UPD_PROP: u32 = 4;
/// Change flag: a property was added to the entity.
pub const CHG_ADD_PROP: u32 = 8;
/// Change flag: the entity was deleted.
pub const CHG_DELETED: u32 = 16;

/// Bound on the nesting depth of document insertion during one replay,
/// needed to guarantee that replay terminates: a cyclic insertion chain
/// fails with [`DocError::RecursionLimit`] instead of descending forever.
/// Acyclic nesting deeper than this — far beyond any stack the recursion
/// could survive — fails with the same error.
pub const INSERT_DEPTH: u32 = 1024;

/// Name of a document entity.
///
/// Documents may be nested one inside another; therefore, the name is a
/// vector with one segment per nesting level.  The name of a removed entity
/// is reserved and will never be used again.
pub type Name = Vec<u32>;

/// Minimal (and initial) entity name segment.
pub const START_NAME: u32 = 0;

/// A named node in a document's content tree, holding properties and
/// optional nested children.
#[derive(Debug)]
pub struct Entity {
    /// The entity's stored name.  For a top-level entity this is its full
    /// one-segment name; an entity materialized from an inserted document
    /// keeps the source-local name it had there, so resolution inside the
    /// host works by trailing segment, not by comparing stored names.
    pub name: Name,
    /// Properties assigned to this entity.
    pub props2: Vec<Rc<property::Value2>>,
    /// `Some` iff this entity hosts an inserted document; it usually stores
    /// nested entities.
    pub children: Option<Vec<Entity>>,
}

/// Copies a name, segment by segment.
pub fn clone_name(v: &Name) -> (r: Name)
    ensures
        r@ == v@,
{
    let mut r: Name = Vec::new();
    let mut i: usize = 0;
    while i < v.len()
        invariant
            i <= v.len(),
            r@ == v@.subrange(0, i as int),
        decreases v.len() - i,
    {
        r.push(v[i]);
        i = i + 1;
    }
    assert(r@ =~= v@);
    r
}

/// Summary of one apply: for every entity touched, the OR of its change
/// flags, as an association list with unique names.  Keys are the
/// entities' stored names; for an entity inside an inserted snapshot that
/// is its source-local name, which can coincide with a top-level name.
#[derive(Debug)]
pub struct ChangedEntities {
    pub data: Vec<(Name, u32)>,
}

impl View for ChangedEntities {
    type V = Map<Seq<u32>, u32>;

    open spec fn view(&self) -> Map<Seq<u32>, u32> {
        crate::model::entries_map(self.data@)
    }
}

impl ChangedEntities {
    /// The names in the list are unique.
    pub open spec fn inv(self) -> bool {
        forall|i: int, j: int|
            0 <= i < j < self.data@.len() ==> (#[trigger] self.data@[i]).0@ != (
            #[trigger] self.data@[j]).0@
    }

    /// An empty summary.
    pub fn new() -> (r: Self)
        ensures
            r.inv(),
            r@ == Map::<Seq<u32>, u32>::empty(),
    {
        ChangedEntities { data: Vec::new() }
    }

    /// A summary of one change to one entity.
    pub fn from(name: &Name, flags: u32) -> (r: Self)
        ensures
            r.inv(),
            r@ == crate::model::chg_one(name@, flags),
    {
        let mut data: Vec<(Name, u32)> = Vec::new();
        data.push((clone_name(name), flags));
        let r = ChangedEntities { data };
        proof {
            assert(r.data@.drop_last() =~= Seq::<(Name, u32)>::empty());
            assert(crate::model::entries_map(Seq::<(Name, u32)>::empty())
                == Map::<Seq<u32>, u32>::empty());
            assert(r@ =~= crate::model::chg_one(name@, flags));
        }
        r
    }

    /// The flags recorded for a name, if any.
    pub fn get(&self, name: &Name) -> (r: Option<u32>)
        requires
            self.inv(),
        ensures
            match r {
                Some(f) => self@.contains_key(name@) && self@[name@] == f,
                None => !self@.contains_key(name@),
            },
    {
        proof {
            crate::model::lemma_entries_map(self.data@);
        }
        let mut i: usize = 0;
        while i < self.data.len()
            invariant
                self.inv(),
                i <= self.data.len(),
                forall|j: int| 0 <= j < i ==> (#[trigger] self.data@[j]).0@ != name@,
            decreases self.data.len() - i,
        {
            if name_eq(&self.data[i].0, name) {
                return Some(self.data[i].1);
            }
            i = i + 1;
        }
        None
    }

    /// How many entities the summary mentions.
    pub fn len(&self) -> (r: usize)
        requires
            self.inv(),
        ensures
            r == self@.dom().len(),
    {
        proof {
            crate::model::lemma_entries_map(self.data@);
        }
        self.data.len()
    }

    /// Record one more change: OR the flags into the name's entry.
    pub fn add(&mut self, name: &Name, flags: u32)
        requires
            old(self).inv(),
        ensures
            final(self).inv(),
            final(self)@ == crate::model::chg_add(old(self)@, name@, flags),
    {
        proof {
            crate::model::lemma_entries_map(self.data@);
        }
        let ghost m0 = self@;
        let mut i: usize = 0;
        while i < self.data.len()
            invariant
                self.inv(),
                self@ == m0,
                i <= self.data.len(),
                forall|j: int| 0 <= j < i ==> (#[trigger] self.data@[j]).0@ != name@,
            decreases self.data.len() - i,
        {
            if name_eq(&self.data[i].0, name) {
                let f0 = self.data[i].1;
                let nm = clone_name(name);
                let ghost d0 = self.data@;
                self.data[i] = (nm, f0 | flags);
                proof {
                    crate::model::lemma_entries_map_update(d0, i as int, (nm, f0 | flags));
                    crate::model::lemma_entries_map(d0);
                    assert(self@ =~= crate::model::chg_add(m0, name@, flags));
                }
                return ;
            }
            i = i + 1;
        }
        let ghost d0 = self.data@;
        self.data.push((clone_name(name), flags));
        proof {
            assert(self.data@.drop_last() =~= d0);
            crate::model::lemma_entries_map(d0);
            assert(self@ =~= crate::model::chg_add(m0, name@, flags));
        }
    }

    /// Merge another summary into this one, OR-ing the flags of shared
    /// names.
    pub fn merge(&mut self, other: Self)
        requires
            old(self).inv(),
            other.inv(),
        ensures
            final(self).inv(),
            final(self)@ == crate::model::chg_merge(old(self)@, other@),
    {
        let ghost m0 = self@;
        let ghost od = other.data@;
        let mut i: usize = 0;
        while i < other.data.len()
            invariant
                self.inv(),
                other.inv(),
                other.data@ == od,
                i <= other.data.len(),
                self@ == crate::model::entries_fold(m0, od.take(i as int)),
            decreases other.data.len() - i,
        {
            proof {
                assert(od.take(i as int + 1) =~= od.take(i as int).push(od[i as int]));
                crate::model::lemma_entries_fold_push(m0, od.take(i as int), od[i as int]);
            }
            self.add(&other.data[i].0, other.data[i].1);
            i = i + 1;
        }
        proof {
            assert(od.take(od.len() as int) =~= od);
            crate::model::lemma_entries_fold_is_merge(m0, od);
        }
    }
}

/// Compare two names segment by segment.
pub fn name_eq(a: &Name, b: &Name) -> (r: bool)
    ensures
        r == (a@ == b@),
{
    if a.len() != b.len() {
        proof {
            assert(a@.len() != b@.len());
        }
        return false;
    }
    let mut i: usize = 0;
    while i < a.len()
        invariant
            a@.len() == b@.len(),
            i <= a.len(),
            forall|j: int| 0 <= j < i ==> a@[j] == b@[j],
        decreases a.len() - i,
    {
        if a[i] != b[i] {
            return false;
        }
        i = i + 1;
    }
    proof {
        assert(a@ =~= b@);
    }
    true
}

/// The history of changes of one logical document: its committed
/// transactions, how many of them are currently applied (fewer than the
/// total after an undo), and the latest entity name segment handed out.
pub struct TransactionStorage {
    pub id: property::DocId,
    pub htrs: Vec<crate::transaction::Transaction>,
    /// How many transactions from `htrs` are currently applied.
    pub applied: usize,
    /// Latest used name segment of an entity created in this document.
    pub last_id: u32,
}

/// First position in `props` holding the key, if any.
fn find_prop_idx(props: &Vec<Rc<Value2>>, key: property::KT) -> (r: Option<usize>)
    ensures
        match r {
            Some(i) => crate::model::find_prop(props@, key) == i && i < props@.len(),
            None => crate::model::find_prop(props@, key) < 0,
        },
{
    proof {
        crate::model::lemma_find_prop(props@, key);
    }
    let mut i: usize = 0;
    while i < props.len()
        invariant
            i <= props.len(),
            forall|j: int| 0 <= j < i ==> (#[trigger] props@[j]).key != key,
        decreases props.len() - i,
    {
        if props[i].key == key {
            return Some(i);
        }
        i = i + 1;
    }
    None
}

/// First position in `content` whose entity's trailing name segment is
/// `seg`, if any.
fn find_seg_idx(content: &Vec<Entity>, seg: u32) -> (r: Option<usize>)
    requires
        crate::model::wf_entities(crate::model::v_content(*content)),
    ensures
        match r {
            Some(i) => crate::model::find_by_seg(crate::model::v_content(*content), seg) == i
                && i < content@.len(),
            None => crate::model::find_by_seg(crate::model::v_content(*content), seg) < 0,
        },
{
    proof {
        crate::model::lemma_v_content(*content);
        crate::model::lemma_find_by_seg(crate::model::v_content(*content), seg);
    }
    let mut i: usize = 0;
    while i < content.len()
        invariant
            i <= content.len(),
            forall|j: int|
                0 <= j < i ==> crate::model::last_seg(
                    crate::model::v_content(*content)[j].name,
                ) != seg,
        decreases content.len() - i,
    {
        proof {
            assert(crate::model::wf_entity(crate::model::v_content(*content)[i as int]));
            assert(content@[i as int].name@.len() > 0);
        }
        let nl = content[i].name.len();
        if content[i].name[nl - 1] == seg {
            return Some(i);
        }
        i = i + 1;
    }
    None
}

/// First position in the cache holding the history of `id`, if any.
fn find_storage_idx(ss: &Vec<TransactionStorage>, id: property::DocId) -> (r: Option<usize>)
    ensures
        match r {
            Some(i) => crate::model::find_storage(crate::model::v_storages(*ss), id) == i && i
                < ss@.len(),
            None => crate::model::find_storage(crate::model::v_storages(*ss), id) < 0,
        },
{
    proof {
        crate::model::lemma_find_storage(crate::model::v_storages(*ss), id);
    }
    let mut i: usize = 0;
    while i < ss.len()
        invariant
            i <= ss.len(),
            forall|j: int| 0 <= j < i ==> crate::model::v_storages(*ss)[j].id != id,
        decreases ss.len() - i,
    {
        proof {
            assert(crate::model::v_storages(*ss)[i as int] == ss@[i as int]@);
        }
        if ss[i].id == id {
            return Some(i);
        }
        i = i + 1;
    }
    None
}

/// Whether the selection holds this name.
fn name_in(names: &Vec<Name>, n: &Name) -> (r: bool)
    ensures
        r == crate::model::sel_contains(names@.map_values(|m: Name| m@), n@),
{
    let mut i: usize = 0;
    while i < names.len()
        invariant
            i <= names.len(),
            forall|j: int| 0 <= j < i ==> (#[trigger] names@[j])@ != n@,
        decreases names.len() - i,
    {
        if name_eq(&names[i], n) {
            proof {
                assert(names@.map_values(|m: Name| m@)[i as int] == n@);
            }
            return true;
        }
        i = i + 1;
    }
    false
}

impl Entity {
    /// Read this entity's property at `key` as a `T`; `None` if the key is
    /// absent or its payload holds another type.
    pub fn get_property<T: property::PropGet>(&self, key: property::KT) -> (r: Option<T>)
        ensures
            ({
                let i = crate::model::find_prop(crate::model::v_entity(*self).props, key);
                if i >= 0 {
                    match r {
                        Some(v) => T::extract(
                            crate::model::v_entity(*self).props[i].value@,
                        ) == Some(v@),
                        None => T::extract(crate::model::v_entity(*self).props[i].value@) is None,
                    }
                } else {
                    r is None
                }
            }),
    {
        match find_prop_idx(&self.props2, key) {
            Some(pos) => T::from_data(&self.props2[pos].value),
            None => None,
        }
    }

    /// The shared pointer of this entity's property at `key`, if present.
    pub fn get_property_ptr(&self, key: property::KT) -> (r: Option<Rc<Value2>>)
        ensures
            ({
                let i = crate::model::find_prop(crate::model::v_entity(*self).props, key);
                if i >= 0 {
                    r == Some(crate::model::v_entity(*self).props[i])
                } else {
                    r is None
                }
            }),
    {
        match find_prop_idx(&self.props2, key) {
            Some(pos) => Some(rc_clone(&self.props2[pos])),
            None => None,
        }
    }

    /// The properties assigned to this entity.
    pub fn properties(&self) -> (r: &Vec<Rc<Value2>>)
        ensures
            r@ == crate::model::v_entity(*self).props,
    {
        &self.props2
    }

    /// Resolve `name[start..]` inside this entity, one segment at a time.
    fn get_child<'a>(&'a self, name: &Name, start: usize) -> (r: Option<&'a Entity>)
        requires
            crate::model::wf_entity(crate::model::v_entity(*self)),
            start <= name.len(),
        ensures
            match r {
                Some(e) => crate::model::sp_get_child(
                    crate::model::v_entity(*self),
                    name@.skip(start as int),
                ) == Some(crate::model::v_entity(*e)),
                None => crate::model::sp_get_child(
                    crate::model::v_entity(*self),
                    name@.skip(start as int),
                ) is None,
            },
        decreases *self,
    {
        if start == name.len() {
            proof {
                assert(name@.skip(start as int) =~= Seq::<u32>::empty());
            }
            return Some(self);
        }
        proof {
            assert(name@.skip(start as int)[0] == name@[start as int]);
            assert(name@.skip(start as int).drop_first() =~= name@.skip(start as int + 1));
        }
        match &self.children {
            None => None,
            Some(chlds) => {
                match find_seg_idx(chlds, name[start]) {
                    Some(pos) => {
                        proof {
                            crate::model::lemma_v_content(*chlds);
                        }
                        chlds[pos].get_child(name, start + 1)
                    }
                    None => None,
                }
            }
        }
    }
}

/// A snapshot of one entity for the clipboard: its shared property
/// pointers, with no deep copy and no name.
#[derive(Debug)]
pub struct PlainEntity {
    pub props: Vec<Rc<Value2>>,
}

/// Copies a vector of shared property pointers; the copies refer to the
/// identical payload instances.
fn clone_rc_vec(v: &Vec<Rc<Value2>>) -> (r: Vec<Rc<Value2>>)
    ensures
        r@ == v@,
{
    let mut r: Vec<Rc<Value2>> = Vec::new();
    let mut i: usize = 0;
    while i < v.len()
        invariant
            i <= v.len(),
            r@ == v@.subrange(0, i as int),
        decreases v.len() - i,
    {
        r.push(rc_clone(&v[i]));
        i = i + 1;
    }
    proof {
        assert(r@ =~= v@);
    }
    r
}

impl Clone for PlainEntity {
    /// The clone shares the property instances.
    fn clone(&self) -> (r: Self)
        ensures
            r.props@ == self.props@,
    {
        PlainEntity { props: clone_rc_vec(&self.props) }
    }
}

impl PlainEntity {
    /// Snapshot an entity's property list, sharing its instances.
    pub fn new(e: &Entity) -> (r: Self)
        ensures
            r.props@ == crate::model::v_entity(*e).props,
    {
        PlainEntity { props: clone_rc_vec(&e.props2) }
    }
}

/// Collect one entity and (optionally) its nested children, in pre-order.
fn collect_one<'a>(e: &'a Entity, with_children: bool, out: &mut Vec<&'a Entity>)
    ensures
        final(out)@.len() == old(out)@.len() + crate::model::preorder_one(
            crate::model::v_entity(*e),
            with_children,
        ).len(),
        final(out)@.subrange(0, old(out)@.len() as int) == old(out)@,
        crate::model::v_refs(final(out)@) == crate::model::v_refs(old(out)@)
            + crate::model::preorder_one(crate::model::v_entity(*e), with_children),
    decreases *e, 0nat,
{
    let ghost out0 = out@;
    out.push(e);
    proof {
        assert(crate::model::v_refs(out@) =~= crate::model::v_refs(out0) + seq![
            crate::model::v_entity(*e),
        ]);
    }
    if with_children {
        match &e.children {
            Some(chlds) => {
                collect_preorder(chlds, with_children, out);
                proof {
                    assert(final(out)@.subrange(0, out0.len() as int) =~= out0);
                }
            }
            None => {}
        }
    }
    proof {
        assert(crate::model::v_refs(out@) =~= crate::model::v_refs(out0)
            + crate::model::preorder_one(crate::model::v_entity(*e), with_children));
        assert(out@.subrange(0, out0.len() as int) =~= out0);
    }
}

/// Collect a content level and (optionally) its nested children, in
/// pre-order.
fn collect_preorder<'a>(content: &'a Vec<Entity>, with_children: bool, out: &mut Vec<&'a Entity>)
    ensures
        final(out)@.len() == old(out)@.len() + crate::model::preorder(
            crate::model::v_content(*content),
            with_children,
        ).len(),
        final(out)@.subrange(0, old(out)@.len() as int) == old(out)@,
        crate::model::v_refs(final(out)@) == crate::model::v_refs(old(out)@)
            + crate::model::preorder(crate::model::v_content(*content), with_children),
    decreases *content, 1nat,
{
    let ghost out0 = out@;
    let ghost cv = crate::model::v_content(*content);
    proof {
        crate::model::lemma_v_content(*content);
        assert(crate::model::v_refs(out@) + crate::model::preorder_from(cv, 0, with_children)
            =~= crate::model::v_refs(out0) + crate::model::preorder_from(cv, 0, with_children));
    }
    let mut i: usize = 0;
    while i < content.len()
        invariant
            i <= content.len(),
            out@.len() >= out0.len(),
            out@.subrange(0, out0.len() as int) == out0,
            crate::model::v_refs(out0) + crate::model::preorder_from(cv, 0, with_children)
                == crate::model::v_refs(out@) + crate::model::preorder_from(
                cv,
                i as int,
                with_children,
            ),
        decreases content.len() - i,
    {
        let ghost outk = out@;
        collect_one(&content[i], with_children, out);
        proof {
            assert(out@.subrange(0, out0.len() as int) =~= outk.subrange(
                0,
                out0.len() as int,
            ));
            assert(crate::model::v_refs(out0) + crate::model::preorder_from(
                cv,
                0,
                with_children,
            ) =~= crate::model::v_refs(out@) + crate::model::preorder_from(
                cv,
                i + 1,
                with_children,
            ));
        }
        i = i + 1;
    }
    proof {
        assert(crate::model::preorder_from(cv, content@.len() as int, with_children)
            =~= Seq::<crate::model::EntityV>::empty());
        assert(crate::model::v_refs(out@) =~= crate::model::v_refs(out0)
            + crate::model::preorder(cv, with_children));
    }
}

/// Deterministic pre-order, depth-first iterator over a content tree,
/// optionally descending into inserted documents.  Pausable and resumable;
/// exhausted once it has yielded every entity.
pub struct EntityIterator<'a> {
    items: Vec<&'a Entity>,
    pos: usize,
}

impl<'a> EntityIterator<'a> {
    /// The entities this iterator yields, in order.
    pub closed spec fn s_seq(self) -> Seq<crate::model::EntityV> {
        crate::model::v_refs(self.items@)
    }

    /// How many entities have been yielded.
    pub closed spec fn s_pos(self) -> int {
        self.pos as int
    }

    /// Yield the next entity in pre-order, or `None` when exhausted.
    pub fn next(&mut self) -> (r: Option<&'a Entity>)
        ensures
            final(self).s_seq() == old(self).s_seq(),
            if old(self).s_pos() < old(self).s_seq().len() {
                &&& r matches Some(e) && crate::model::v_entity(*e) == old(self).s_seq()[old(
                    self,
                ).s_pos()]
                &&& final(self).s_pos() == old(self).s_pos() + 1
            } else {
                r is None && final(self).s_pos() == old(self).s_pos()
            },
    {
        if self.pos < self.items.len() {
            let e = self.items[self.pos];
            self.pos = self.pos + 1;
            Some(e)
        } else {
            None
        }
    }

    /// How many entities are left to yield.
    pub fn count(self) -> (r: usize)
        ensures
            r == if self.s_pos() <= self.s_seq().len() {
                self.s_seq().len() - self.s_pos()
            } else {
                0
            },
    {
        if self.pos <= self.items.len() {
            self.items.len() - self.pos
        } else {
            0
        }
    }
}

/// Iterator over the properties of one entity.
pub struct PropertyIterator<'a> {
    index: usize,
    properties: &'a Vec<Rc<Value2>>,
}

impl<'a> PropertyIterator<'a> {
    /// The property list this iterator walks.
    pub closed spec fn s_seq(self) -> Seq<Rc<Value2>> {
        self.properties@
    }

    /// How many properties have been yielded.
    pub closed spec fn s_pos(self) -> int {
        self.index as int
    }

    /// Yield the next property, or `None` when exhausted.
    pub fn next(&mut self) -> (r: Option<&'a Value2>)
        ensures
            final(self).s_seq() == old(self).s_seq(),
            if old(self).s_pos() < old(self).s_seq().len() {
                &&& r matches Some(p) && *p == old(self).s_seq()[old(self).s_pos()]
                &&& final(self).s_pos() == old(self).s_pos() + 1
            } else {
                r is None && final(self).s_pos() == old(self).s_pos()
            },
    {
        if self.index < self.properties.len() {
            self.index = self.index + 1;
            Some(&self.properties[self.index - 1])
        } else {
            None
        }
    }
}

/// Clones a shared property pointer.  The clone refers to the identical
/// payload instance; only the sharing count increases.
///
/// Relies on `Rc::clone`, which returns a pointer to the same allocation.
#[verifier::external_body]
pub fn rc_clone(v: &Rc<Value2>) -> (res: Rc<Value2>)
    ensures
        res == *v,
{
    v.clone()
}

impl Entity {
    /// Apply one property change to this entity, as
    /// [`crate::model::sp_apply_prop`] describes.  On an error the entity
    /// may be left partially mutated, but it stays well formed and the
    /// committed histories are untouched.
    fn apply_changes(
        &mut self,
        changes: &crate::transaction::PropChange,
        storages: &mut Vec<TransactionStorage>,
        fuel: u32,
    ) -> (r: Result<ChangedEntities, DocError>)
        requires
            crate::model::wf_entity(crate::model::v_entity(*old(self))),
        ensures
            crate::model::wf_entity(crate::model::v_entity(*final(self))),
            crate::model::storages_extend(
                crate::model::v_storages(*old(storages)),
                crate::model::v_storages(*final(storages)),
            ),
            ({
                let sr = crate::model::sp_apply_prop(
                    crate::model::v_entity(*old(self)),
                    *changes,
                    crate::model::v_storages(*old(storages)),
                    fuel as nat,
                );
                match r {
                    Ok(ch) => ch.inv() && (sr matches Ok(o) && crate::model::v_entity(
                        *final(self),
                    ) == o.entity && crate::model::v_storages(*final(storages)) == o.storages
                        && ch@ == o.changed),
                    Err(er) => sr == Err::<crate::model::PropOut, DocError>(er),
                }
            }),
        decreases fuel, 0nat, 0nat,
    {
        let ghost e0 = crate::model::v_entity(*self);
        let ghost ss0 = crate::model::v_storages(*storages);
        proof {
            crate::model::lemma_storages_extend_refl(ss0);
        }
        match changes {
            crate::transaction::PropChange::Update(prop_ptr) => {
                let key = prop_ptr.key;
                match find_prop_idx(&self.props2, key) {
                    Some(pos) => {
                        self.props2[pos] = rc_clone(prop_ptr);
                        proof {
                            assert(crate::model::v_entity(*self) == crate::model::EntityV {
                                props: e0.props.update(pos as int, *prop_ptr),
                                ..e0
                            });
                        }
                        Ok(ChangedEntities::from(&self.name, CHG_UPD_PROP))
                    }
                    None => {
                        self.props2.push(rc_clone(prop_ptr));
                        let ghost e1 = crate::model::v_entity(*self);
                        proof {
                            assert(e1 == crate::model::EntityV {
                                props: e0.props.push(*prop_ptr),
                                ..e0
                            });
                        }
                        let mut entity_changes = ChangedEntities::from(&self.name, CHG_ADD_PROP);
                        if key == property::INS_DOC {
                            match &prop_ptr.value {
                                property::PropData::Doc(doc_id) => {
                                    let doc_id = *doc_id;
                                    if fuel == 0 {
                                        return Err(DocError::RecursionLimit);
                                    }
                                    // Open the inserted document and replay
                                    // its merged history into the children
                                    // of this entity.
                                    let idx = Document::get_or_open_transactions(storages, doc_id);
                                    let ghost ss1 = crate::model::v_storages(*storages);
                                    let united = crate::transaction::Transaction::merge(
                                        &storages[idx].htrs,
                                    );
                                    let mut content: Vec<Entity> = Vec::new();
                                    proof {
                                        assert(crate::model::v_content(content)
                                            =~= Seq::<crate::model::EntityV>::empty());
                                        assert(crate::model::v_storages(*storages)[idx as int]
                                            == storages@[idx as int]@);
                                    }
                                    let rr = Document::apply_transaction_private(
                                        &united,
                                        &mut content,
                                        storages,
                                        fuel - 1,
                                    );
                                    proof {
                                        crate::model::lemma_storages_extend_trans(
                                            ss0,
                                            ss1,
                                            crate::model::v_storages(*storages),
                                        );
                                    }
                                    match rr {
                                        Ok(chgs) => {
                                            entity_changes.merge(chgs);
                                            self.children = Some(content);
                                            Ok(entity_changes)
                                        }
                                        Err(er) => Err(er),
                                    }
                                }
                                _ => Err(DocError::UnexpectedValueType),
                            }
                        } else {
                            Ok(entity_changes)
                        }
                    }
                }
            }
            crate::transaction::PropChange::Delete(key) => {
                // Removal of a property; all attempts to delete a
                // non-existent property are ignored.
                match find_prop_idx(&self.props2, *key) {
                    Some(pos) => {
                        self.props2.swap_remove(pos);
                        proof {
                            assert(crate::model::v_entity(*self) == crate::model::EntityV {
                                props: e0.props.update(pos as int, e0.props.last()).drop_last(),
                                ..e0
                            });
                        }
                        Ok(ChangedEntities::from(&self.name, CHG_DEL_PROP))
                    }
                    None => Ok(ChangedEntities::from(&self.name, CHG_DEL_PROP)),
                }
            }
        }
    }
}

/// Apply a list of property changes to one entity, in order, as
/// [`crate::model::sp_apply_props`] describes.
fn apply_props_list(
    e: &mut Entity,
    props: &Vec<crate::transaction::PropChange>,
    storages: &mut Vec<TransactionStorage>,
    fuel: u32,
) -> (r: Result<ChangedEntities, DocError>)
    requires
        crate::model::wf_entity(crate::model::v_entity(*old(e))),
    ensures
        crate::model::wf_entity(crate::model::v_entity(*final(e))),
        crate::model::storages_extend(
            crate::model::v_storages(*old(storages)),
            crate::model::v_storages(*final(storages)),
        ),
        ({
            let sr = crate::model::sp_apply_props(
                crate::model::v_entity(*old(e)),
                props@,
                crate::model::v_storages(*old(storages)),
                fuel as nat,
            );
            match r {
                Ok(ch) => ch.inv() && (sr matches Ok(o) && crate::model::v_entity(*final(e))
                    == o.entity && crate::model::v_storages(*final(storages)) == o.storages && ch@
                    == o.changed),
                Err(er) => sr == Err::<crate::model::PropOut, DocError>(er),
            }
        }),
    decreases fuel, 1nat, 0nat,
{
    let ghost e0 = crate::model::v_entity(*e);
    let ghost ss0 = crate::model::v_storages(*storages);
    let ghost f = fuel as nat;
    let mut acc = ChangedEntities::new();
    let mut k: usize = 0;
    proof {
        crate::model::lemma_storages_extend_refl(ss0);
        assert(props@.skip(0) =~= props@);
        if let Ok(o) = crate::model::sp_apply_props(e0, props@, ss0, f) {
            crate::model::lemma_chg_merge_empty(o.changed);
        }
    }
    while k < props.len()
        invariant
            k <= props.len(),
            acc.inv(),
            crate::model::wf_entity(crate::model::v_entity(*e)),
            crate::model::storages_extend(ss0, crate::model::v_storages(*storages)),
            ({
                let whole = crate::model::sp_apply_props(e0, props@, ss0, f);
                match crate::model::sp_apply_props(
                    crate::model::v_entity(*e),
                    props@.skip(k as int),
                    crate::model::v_storages(*storages),
                    f,
                ) {
                    Ok(o) => whole == Ok::<crate::model::PropOut, DocError>(
                        crate::model::PropOut {
                            entity: o.entity,
                            storages: o.storages,
                            changed: crate::model::chg_merge(acc@, o.changed),
                        },
                    ),
                    Err(er) => whole == Err::<crate::model::PropOut, DocError>(er),
                }
            }),
        decreases props.len() - k,
    {
        let ghost ek = crate::model::v_entity(*e);
        let ghost ssk = crate::model::v_storages(*storages);
        let ghost acck = acc@;
        proof {
            assert(props@.skip(k as int)[0] == props@[k as int]);
            assert(props@.skip(k as int).drop_first() =~= props@.skip(k as int + 1));
        }
        let rr = e.apply_changes(&props[k], storages, fuel);
        proof {
            crate::model::lemma_storages_extend_trans(
                ss0,
                ssk,
                crate::model::v_storages(*storages),
            );
        }
        match rr {
            Ok(ch) => {
                proof {
                    let o1 = crate::model::sp_apply_prop(ek, props@[k as int], ssk, f)->Ok_0;
                    match crate::model::sp_apply_props(
                        crate::model::v_entity(*e),
                        props@.skip(k as int + 1),
                        crate::model::v_storages(*storages),
                        f,
                    ) {
                        Ok(o2) => {
                            crate::model::lemma_chg_merge_assoc(acck, o1.changed, o2.changed);
                        }
                        Err(_) => {}
                    }
                }
                acc.merge(ch);
                k = k + 1;
            }
            Err(er) => {
                return Err(er);
            }
        }
    }
    proof {
        assert(props@.skip(props@.len() as int) =~= Seq::<crate::transaction::PropChange>::empty());
        crate::model::lemma_chg_merge_empty(acc@);
    }
    Ok(acc)
}

/// The document opened in the editor: one materialized content tree, the
/// pending transaction, the active document's history, and a cache of the
/// histories of every other document ever referenced.
pub struct Document {
    /// The document consists of the entities.
    content: Vec<Entity>,
    /// The current active transaction making changes to this document.
    atrs: crate::transaction::Transaction,
    /// History of the changes made to this document.
    my: TransactionStorage,
    /// Cache of all used documents.
    other: Vec<TransactionStorage>,
}

impl Document {
    /// The materialized content tree.
    pub closed spec fn s_content(self) -> Seq<crate::model::EntityV> {
        crate::model::v_content(self.content)
    }

    /// The changes accumulated in the pending transaction.
    pub closed spec fn s_pending(self) -> Seq<crate::model::ChangeV> {
        crate::model::tx_view(self.atrs)
    }

    /// The name counter the pending transaction creates entities from.
    pub closed spec fn s_counter(self) -> u32 {
        self.atrs.last_id->Some_0@.last()
    }

    /// The active document's history.
    pub closed spec fn s_my(self) -> crate::model::StorageV {
        self.my@
    }

    /// The cached histories of the other documents.
    pub closed spec fn s_others(self) -> Seq<crate::model::StorageV> {
        crate::model::v_storages(self.other)
    }

    /// Well-formedness: the content tree has non-empty names throughout,
    /// the pending transaction holds a one-segment name seed, and every
    /// history has applied at most as many transactions as it committed.
    pub closed spec fn wf(self) -> bool {
        &&& crate::model::wf_entities(crate::model::v_content(self.content))
        &&& self.atrs.last_id matches Some(n) && n@.len() == 1
        &&& self.my@.applied <= self.my@.txs.len()
        &&& forall|j: int|
            0 <= j < crate::model::v_storages(self.other).len() ==> (
            #[trigger] crate::model::v_storages(self.other)[j]).applied
                <= crate::model::v_storages(self.other)[j].txs.len()
    }

    /// What well-formedness guarantees about the history cursors: the
    /// active document and every cached document have applied at most as
    /// many transactions as they committed.
    pub proof fn lemma_wf_bounds(self)
        requires
            self.wf(),
        ensures
            0 <= self.s_my().applied <= self.s_my().txs.len(),
            forall|j: int|
                0 <= j < self.s_others().len() ==> 0 <= (#[trigger] self.s_others()[j]).applied
                    <= self.s_others()[j].txs.len(),
    {
        assert forall|j: int| 0 <= j < self.s_others().len() implies 0 <= (
        #[trigger] self.s_others()[j]).applied <= self.s_others()[j].txs.len() by {
            assert(self.s_others()[j] == self.other@[j]@);
        }
    }

    /// A new, empty document with the given identity.
    pub fn new(id: property::DocId) -> (r: Document)
        ensures
            r.wf(),
            r.s_content() == Seq::<crate::model::EntityV>::empty(),
            r.s_pending() == Seq::<crate::model::ChangeV>::empty(),
            r.s_counter() == START_NAME,
            r.s_my() == crate::model::empty_storage(id),
            r.s_others() == Seq::<crate::model::StorageV>::empty(),
    {
        let mut seed: Name = Vec::new();
        seed.push(START_NAME);
        let r = Document {
            content: Vec::new(),
            atrs: crate::transaction::Transaction { data: Vec::new(), last_id: Some(seed) },
            my: TransactionStorage { id: id, htrs: Vec::new(), applied: 0, last_id: START_NAME },
            other: Vec::new(),
        };
        proof {
            assert(r.s_content() =~= Seq::<crate::model::EntityV>::empty());
            assert(r.s_pending() =~= Seq::<crate::model::ChangeV>::empty());
            assert(r.s_my().txs =~= Seq::<Seq<crate::model::ChangeV>>::empty());
            assert(r.s_others() =~= Seq::<crate::model::StorageV>::empty());
        }
        r
    }

    /// How much history the active document has: committed transactions,
    /// and how many of them are currently applied.
    pub fn history_size(&self) -> (r: (usize, usize))
        ensures
            r.0 == self.s_my().txs.len(),
            r.1 == self.s_my().applied,
    {
        (self.my.htrs.len(), self.my.applied)
    }

    /// The pending transaction.
    pub fn atrs(&self) -> (r: &crate::transaction::Transaction)
        ensures
            crate::model::tx_view(*r) == self.s_pending(),
    {
        &self.atrs
    }

    /// Apply all the modifications accumulated in the pending transaction
    /// to the materialized content, without committing them, as
    /// [`crate::model::sp_apply_changes`] describes.  Re-invoking it
    /// re-replays the entire accumulated transaction against content that
    /// already reflects it.
    pub fn apply_transaction(&mut self) -> (r: Result<ChangedEntities, DocError>)
        requires
            old(self).wf(),
        ensures
            final(self).wf(),
            final(self).s_pending() == old(self).s_pending(),
            final(self).s_counter() == old(self).s_counter(),
            final(self).s_my() == old(self).s_my(),
            crate::model::storages_extend(old(self).s_others(), final(self).s_others()),
            ({
                let sr = crate::model::sp_apply_changes(
                    old(self).s_content(),
                    old(self).s_pending(),
                    old(self).s_others(),
                    INSERT_DEPTH as nat,
                );
                match r {
                    Ok(ch) => ch.inv() && (sr matches Ok(o) && final(self).s_content()
                        == o.content && final(self).s_others() == o.storages && ch@ == o.changed),
                    Err(er) => sr == Err::<crate::model::ApplyOut, DocError>(er),
                }
            }),
    {
        let ghost ss0 = self.s_others();
        let r = Document::apply_transaction_private(
            &self.atrs,
            &mut self.content,
            &mut self.other,
            INSERT_DEPTH,
        );
        proof {
            crate::model::lemma_extend_keeps_applied(ss0, self.s_others());
        }
        r
    }

    /// Apply the pending transaction, then archive it: persist the name
    /// counter into the history, truncate any undone future transactions,
    /// append the finished transaction, and start a fresh pending
    /// transaction seeded with the updated counter.  A committed document
    /// stays in replay position:
    /// [`crate::laws::lemma_replay_position_after_commit`].
    pub fn commit_transaction(&mut self) -> (r: Result<ChangedEntities, DocError>)
        requires
            old(self).wf(),
        ensures
            final(self).wf(),
            final(self).s_counter() == old(self).s_counter(),
            crate::model::storages_extend(old(self).s_others(), final(self).s_others()),
            ({
                let sr = crate::model::sp_apply_changes(
                    old(self).s_content(),
                    old(self).s_pending(),
                    old(self).s_others(),
                    INSERT_DEPTH as nat,
                );
                match r {
                    Ok(ch) => {
                        &&& ch.inv()
                        &&& (sr matches Ok(o) && final(self).s_content() == o.content
                            && final(self).s_others() == o.storages && ch@ == o.changed)
                        &&& final(self).s_my().id == old(self).s_my().id
                        &&& final(self).s_my().txs == old(self).s_my().txs.take(
                            old(self).s_my().applied,
                        ).push(old(self).s_pending())
                        &&& final(self).s_my().applied == old(self).s_my().applied + 1
                        &&& final(self).s_my().last_id == old(self).s_counter()
                        &&& final(self).s_pending() == Seq::<crate::model::ChangeV>::empty()
                    },
                    Err(er) => {
                        &&& sr == Err::<crate::model::ApplyOut, DocError>(er)
                        &&& final(self).s_pending() == old(self).s_pending()
                        &&& final(self).s_my() == old(self).s_my()
                    },
                }
            }),
    {
        let changes = match self.apply_transaction() {
            Ok(c) => c,
            Err(er) => {
                return Err(er);
            }
        };
        // Save the last used entity name back into the document's history.
        match &self.atrs.last_id {
            Some(trs_last_id) => {
                if trs_last_id.len() > 0 {
                    self.my.last_id = trs_last_id[trs_last_id.len() - 1];
                }
            }
            None => {}
        }
        // Archive the finished transaction and start a new one.
        let mut seed: Name = Vec::new();
        seed.push(self.my.last_id);
        let mut finished = crate::transaction::Transaction {
            data: Vec::new(),
            last_id: Some(seed),
        };
        core::mem::swap(&mut self.atrs, &mut finished);
        let ghost h0 = self.my.htrs@;
        self.my.htrs.truncate(self.my.applied);
        self.my.htrs.push(finished);
        self.my.applied = self.my.htrs.len();
        proof {
            assert(self.s_pending() =~= Seq::<crate::model::ChangeV>::empty());
            assert(self.s_my().txs =~= old(self).s_my().txs.take(
                old(self).s_my().applied,
            ).push(old(self).s_pending()));
        }
        Ok(changes)
    }

    /// Move the undo/redo cursor by `delta` and rebuild the content by
    /// replaying that many committed transactions from an empty tree, as
    /// [`crate::model::sp_replay`] describes.  `delta = 0` is a legal
    /// rebuild.  Fails with `HistoryUnderflow` when the new position would
    /// be negative, and with `HistoryOverflow` when it would pass the end
    /// of the committed history; both leave the document unchanged.
    /// Undoing and redoing the same count restores the content:
    /// [`crate::laws::lemma_undo_redo_restores`].
    pub fn undo(&mut self, delta: isize) -> (r: Result<(), DocError>)
        requires
            old(self).wf(),
        ensures
            final(self).wf(),
            final(self).s_pending() == old(self).s_pending(),
            final(self).s_counter() == old(self).s_counter(),
            final(self).s_my().id == old(self).s_my().id,
            final(self).s_my().txs == old(self).s_my().txs,
            final(self).s_my().last_id == old(self).s_my().last_id,
            crate::model::storages_extend(old(self).s_others(), final(self).s_others()),
            ({
                let new_pos = old(self).s_my().applied + delta;
                if new_pos < 0 {
                    r == Err::<(), DocError>(DocError::HistoryUnderflow)
                        && *final(self) == *old(self)
                } else if new_pos > old(self).s_my().txs.len() {
                    r == Err::<(), DocError>(DocError::HistoryOverflow)
                        && *final(self) == *old(self)
                } else {
                    match crate::model::sp_replay(
                        old(self).s_my().txs,
                        new_pos,
                        old(self).s_others(),
                    ) {
                        Ok(p) => r == Ok::<(), DocError>(()) && final(self).s_content() == p.0
                            && final(self).s_others() == p.1 && final(self).s_my().applied
                            == new_pos,
                        Err(er) => r == Err::<(), DocError>(er),
                    }
                }
            }),
    {
        let ghost txs0 = self.s_my().txs;
        let ghost others0 = self.s_others();
        let new_pos: usize;
        if delta >= 0 {
            let d = delta as usize;
            if self.my.htrs.len() - self.my.applied < d {
                proof {
                    crate::model::lemma_storages_extend_refl(others0);
                }
                return Err(DocError::HistoryOverflow);
            }
            new_pos = self.my.applied + d;
        } else {
            let mag = ((-(delta + 1)) as usize) + 1;
            if mag > self.my.applied {
                proof {
                    crate::model::lemma_storages_extend_refl(others0);
                }
                return Err(DocError::HistoryUnderflow);
            }
            new_pos = self.my.applied - mag;
        }
        self.content.clear();
        self.my.applied = 0;
        let mut i: usize = 0;
        proof {
            crate::model::lemma_storages_extend_refl(others0);
            assert(self.s_content() =~= Seq::<crate::model::EntityV>::empty());
        }
        while i < new_pos
            invariant
                i <= new_pos,
                new_pos <= self.my.htrs@.len(),
                self.atrs == old(self).atrs,
                self.my.htrs@ == old(self).my.htrs@,
                self.my.id == old(self).my.id,
                self.my.last_id == old(self).my.last_id,
                self.my.applied == i,
                crate::model::wf_entities(crate::model::v_content(self.content)),
                crate::model::storages_extend(others0, crate::model::v_storages(self.other)),
                crate::model::sp_replay(txs0, i as int, others0) == Ok::<
                    (Seq<crate::model::EntityV>, Seq<crate::model::StorageV>),
                    DocError,
                >((crate::model::v_content(self.content), crate::model::v_storages(self.other))),
            decreases new_pos - i,
        {
            let ghost ck = crate::model::v_content(self.content);
            let ghost ssk = crate::model::v_storages(self.other);
            proof {
                assert(txs0[i as int] == crate::model::tx_view(self.my.htrs@[i as int]));
            }
            let rr = Document::apply_transaction_private(
                &self.my.htrs[i],
                &mut self.content,
                &mut self.other,
                INSERT_DEPTH,
            );
            proof {
                crate::model::lemma_storages_extend_trans(
                    others0,
                    ssk,
                    crate::model::v_storages(self.other),
                );
            }
            match rr {
                Ok(_) => {
                    self.my.applied = self.my.applied + 1;
                    i = i + 1;
                }
                Err(er) => {
                    proof {
                        crate::model::lemma_replay_err(txs0, i + 1, new_pos as int, others0);
                        crate::model::lemma_extend_keeps_applied(
                            others0,
                            crate::model::v_storages(self.other),
                        );
                    }
                    return Err(er);
                }
            }
        }
        proof {
            crate::model::lemma_extend_keeps_applied(
                others0,
                crate::model::v_storages(self.other),
            );
        }
        Ok(())
    }

    /// Change the current document without destroying the engine: the
    /// active history swaps places with the cached history of `id` (a
    /// brand-new empty history if `id` was never seen), the content is
    /// rebuilt from the newly active history, and the pending
    /// transaction's name seed is reset from it.  The pending changes
    /// themselves are kept.
    pub fn switch(&mut self, id: property::DocId) -> (r: Result<(), DocError>)
        requires
            old(self).wf(),
        ensures
            final(self).wf(),
            final(self).s_pending() == old(self).s_pending(),
            ({
                let pos = crate::model::find_storage(old(self).s_others(), id);
                let st1 = if pos >= 0 {
                    old(self).s_others()[pos]
                } else {
                    crate::model::empty_storage(id)
                };
                let ss1 = if pos >= 0 {
                    old(self).s_others().update(pos, old(self).s_my())
                } else {
                    old(self).s_others().push(old(self).s_my())
                };
                match crate::model::sp_replay(st1.txs, st1.applied, ss1) {
                    Ok(p) => r == Ok::<(), DocError>(()) && final(self).s_my() == st1
                        && final(self).s_content() == p.0 && final(self).s_others() == p.1
                        && final(self).s_counter() == st1.last_id,
                    Err(er) => r == Err::<(), DocError>(er),
                }
            }),
    {
        let ghost ss0 = self.s_others();
        let ghost my0 = self.s_my();
        match find_storage_idx(&self.other, id) {
            None => {
                let mut tmp = TransactionStorage {
                    id: id,
                    htrs: Vec::new(),
                    applied: 0,
                    last_id: START_NAME,
                };
                core::mem::swap(&mut self.my, &mut tmp);
                self.other.push(tmp);
                proof {
                    assert(self.s_my().txs =~= Seq::<Seq<crate::model::ChangeV>>::empty());
                    assert(self.s_my() == crate::model::empty_storage(id));
                    assert(self.s_others() =~= ss0.push(my0));
                }
            }
            Some(res) => {
                let elem = &mut self.other[res];
                core::mem::swap(elem, &mut self.my);
                proof {
                    assert(self.s_others() =~= ss0.update(res as int, my0));
                }
            }
        }
        match self.undo(0) {
            Ok(_) => {}
            Err(er) => {
                return Err(er);
            }
        }
        let mut seed: Name = Vec::new();
        seed.push(self.my.last_id);
        self.atrs.last_id = Some(seed);
        Ok(())
    }

    /// Allocate the next entity name and record an update change for it in
    /// the pending transaction.
    pub fn create_entity(&mut self) -> (r: &mut crate::transaction::EntityChanges)
        requires
            old(self).wf(),
            old(self).s_counter() < u32::MAX,
        ensures
            r.ename@ == seq![old(self).s_counter()],
            r.props@.len() == 0,
            final(self).wf(),
            final(self).s_pending() == old(self).s_pending().push(
                crate::model::ChangeV::Update(final(r)@),
            ),
            final(self).s_counter() == old(self).s_counter() + 1,
            final(self).s_content() == old(self).s_content(),
            final(self).s_my() == old(self).s_my(),
            final(self).s_others() == old(self).s_others(),
    {
        proof {
            let d0 = self.atrs.data@;
            assert forall|x: crate::transaction::Changes|
                crate::model::changes_view(#[trigger] d0.push(x)) == crate::model::changes_view(
                    d0,
                ).push(x@) by {
                crate::model::lemma_changes_view_push(d0, x);
            }
        }
        self.atrs.create_entity()
    }

    /// Record an update change for an existing (or, at apply time,
    /// not-yet-existing) name in the pending transaction.
    pub fn update_entity(&mut self, name: Name) -> (r: &mut crate::transaction::EntityChanges)
        requires
            old(self).wf(),
        ensures
            r.ename@ == name@,
            r.props@.len() == 0,
            final(self).wf(),
            final(self).s_pending() == old(self).s_pending().push(
                crate::model::ChangeV::Update(final(r)@),
            ),
            final(self).s_counter() == old(self).s_counter(),
            final(self).s_content() == old(self).s_content(),
            final(self).s_my() == old(self).s_my(),
            final(self).s_others() == old(self).s_others(),
    {
        proof {
            let d0 = self.atrs.data@;
            assert forall|x: crate::transaction::Changes|
                crate::model::changes_view(#[trigger] d0.push(x)) == crate::model::changes_view(
                    d0,
                ).push(x@) by {
                crate::model::lemma_changes_view_push(d0, x);
            }
        }
        self.atrs.update_entity(name)
    }

    /// Record a whole-entity deletion in the pending transaction.
    pub fn delete_entity(&mut self, name: Name)
        requires
            old(self).wf(),
        ensures
            final(self).wf(),
            final(self).s_pending() == old(self).s_pending().push(
                crate::model::ChangeV::Delete(name@),
            ),
            final(self).s_counter() == old(self).s_counter(),
            final(self).s_content() == old(self).s_content(),
            final(self).s_my() == old(self).s_my(),
            final(self).s_others() == old(self).s_others(),
    {
        let ghost d0 = self.atrs.data@;
        self.atrs.delete_entity(name);
        proof {
            crate::model::lemma_changes_view_push(
                d0,
                crate::transaction::Changes::Delete(name),
            );
        }
    }

    /// Find an entity of this or an inserted document by its full name.
    pub fn get_entity(&self, name: Name) -> (r: Option<&Entity>)
        requires
            self.wf(),
        ensures
            match r {
                Some(e) => crate::model::sp_get_entity(self.s_content(), name@) == Some(
                    crate::model::v_entity(*e),
                ),
                None => crate::model::sp_get_entity(self.s_content(), name@) is None,
            },
    {
        if name.len() == 0 {
            return None;
        }
        proof {
            crate::model::lemma_v_content(self.content);
        }
        match find_seg_idx(&self.content, name[0]) {
            Some(pos) => {
                proof {
                    assert(name@.drop_first() =~= name@.skip(1));
                }
                self.content[pos].get_child(&name, 1)
            }
            None => None,
        }
    }

    /// Read one property of one entity, by full entity name and key.  This
    /// convenient method is useful if all you need to do is read a
    /// property.
    pub fn get_property<T: property::PropGet>(&self, entity_name: Name, key: property::KT) -> (r:
        Option<T>)
        requires
            self.wf(),
        ensures
            ({
                match crate::model::sp_get_entity(self.s_content(), entity_name@) {
                    Some(e) => {
                        let i = crate::model::find_prop(e.props, key);
                        if i >= 0 {
                            match r {
                                Some(v) => T::extract(e.props[i].value@) == Some(v@),
                                None => T::extract(e.props[i].value@) is None,
                            }
                        } else {
                            r is None
                        }
                    },
                    None => r is None,
                }
            }),
    {
        match self.get_entity(entity_name) {
            Some(entity) => entity.get_property::<T>(key),
            None => None,
        }
    }

    /// Iterate the entities of the content tree in pre-order;
    /// `with_children` controls whether the traversal descends into
    /// inserted documents.
    pub fn entities(&self, with_children: bool) -> (r: EntityIterator<'_>)
        requires
            self.wf(),
        ensures
            r.s_seq() == crate::model::preorder(self.s_content(), with_children),
            r.s_pos() == 0,
    {
        let mut items: Vec<&Entity> = Vec::new();
        collect_preorder(&self.content, with_children, &mut items);
        proof {
            assert(crate::model::v_refs(items@) =~= crate::model::preorder(
                self.s_content(),
                with_children,
            ));
        }
        EntityIterator { items: items, pos: 0 }
    }

    /// Create and return a snapshot of all the entities selected by name.
    /// Selection compares each yielded entity's *stored* name; an entity
    /// inside an inserted snapshot stores its source-local name, not its
    /// full path in this document.  The snapshots share the entities'
    /// property instances; nothing is deep-copied.  To make a "cut",
    /// delete the entities just after copying.
    pub fn copy(&self, names: Vec<Name>) -> (r: Vec<PlainEntity>)
        requires
            self.wf(),
        ensures
            ({
                let sel = crate::model::sp_copy(
                    crate::model::preorder(self.s_content(), true),
                    names@.map_values(|n: Name| n@),
                );
                &&& r@.len() == sel.len()
                &&& forall|j: int| 0 <= j < sel.len() ==> (#[trigger] r@[j]).props@ == sel[j]
            }),
    {
        let ghost po = crate::model::preorder(self.s_content(), true);
        let ghost sel = names@.map_values(|n: Name| n@);
        let mut out: Vec<PlainEntity> = Vec::new();
        let mut it = self.entities(true);
        proof {
            assert(po.skip(0) =~= po);
        }
        loop
            invariant
                it.s_seq() == po,
                0 <= it.s_pos() <= po.len(),
                crate::model::sp_copy(po, sel) == out@.map_values(|p: PlainEntity| p.props@)
                    + crate::model::sp_copy(po.skip(it.s_pos()), sel),
            decreases po.len() - it.s_pos(),
        {
            let ghost k = it.s_pos();
            match it.next() {
                Some(e) => {
                    proof {
                        assert(po.skip(k)[0] == po[k]);
                        assert(po.skip(k).drop_first() =~= po.skip(k + 1));
                    }
                    if name_in(&names, &e.name) {
                        out.push(PlainEntity::new(e));
                        proof {
                            assert(out@.map_values(|p: PlainEntity| p.props@) =~= out@.drop_last()
                                .map_values(|p: PlainEntity| p.props@).push(
                                crate::model::v_entity(*e).props,
                            ));
                            assert(crate::model::sp_copy(po, sel) =~= out@.map_values(
                                |p: PlainEntity| p.props@,
                            ) + crate::model::sp_copy(po.skip(k + 1), sel));
                        }
                    }
                }
                None => {
                    proof {
                        assert(po.skip(it.s_pos()) =~= Seq::<crate::model::EntityV>::empty());
                        assert(crate::model::sp_copy(po, sel) =~= out@.map_values(
                            |p: PlainEntity| p.props@,
                        ));
                    }
                    break ;
                }
            }
        }
        out
    }

    /// Create, in the pending transaction, copies of entities previously
    /// copied with [`Document::copy`].  The document owns all the created
    /// entities, even those taken from an inserted document; the copies'
    /// property values are the same shared instances as the source's.
    pub fn paste(&mut self, clipboard: Vec<PlainEntity>)
        requires
            old(self).wf(),
            old(self).s_counter() + clipboard@.len() <= u32::MAX,
        ensures
            final(self).wf(),
            final(self).s_pending() == old(self).s_pending() + crate::model::paste_changes(
                clipboard@.map_values(|p: PlainEntity| p.props@),
                old(self).s_counter(),
            ),
            final(self).s_counter() == old(self).s_counter() + clipboard@.len(),
            final(self).s_content() == old(self).s_content(),
            final(self).s_my() == old(self).s_my(),
            final(self).s_others() == old(self).s_others(),
    {
        let ghost ps = clipboard@.map_values(|p: PlainEntity| p.props@);
        let ghost c0 = self.s_counter();
        let ghost p0 = self.s_pending();
        let mut i: usize = 0;
        proof {
            assert(p0 + crate::model::paste_changes(ps, c0).take(0)
                =~= p0);
        }
        while i < clipboard.len()
            invariant
                i <= clipboard.len(),
                self.wf(),
                self.s_counter() == c0 + i,
                self.s_pending() == p0 + crate::model::paste_changes(ps, c0).take(i as int),
                self.s_content() == old(self).s_content(),
                self.s_my() == old(self).s_my(),
                self.s_others() == old(self).s_others(),
            decreases clipboard.len() - i,
        {
            let entity = &clipboard[i];
            let changes = self.create_entity();
            let mut j: usize = 0;
            while j < entity.props.len()
                invariant
                    j <= entity.props.len(),
                    changes.ename@ == seq![(c0 + i) as u32],
                    changes.props@ == entity.props@.subrange(0, j as int).map_values(
                        |p: Rc<Value2>| crate::transaction::PropChange::Update(p),
                    ),
                decreases entity.props.len() - j,
            {
                let ghost pr = changes.props@;
                changes.copy(rc_clone(&entity.props[j]));
                proof {
                    assert(changes.props@ =~= entity.props@.subrange(0, j + 1).map_values(
                        |p: Rc<Value2>| crate::transaction::PropChange::Update(p),
                    ));
                }
                j = j + 1;
            }
            proof {
                assert(entity.props@.subrange(0, entity.props@.len() as int) =~= entity.props@);
            }
            i = i + 1;
            proof {
                assert(self.s_pending() =~= p0 + crate::model::paste_changes(ps, c0).take(
                    i as int,
                ));
            }
        }
        proof {
            assert(crate::model::paste_changes(ps, c0).take(clipboard@.len() as int)
                =~= crate::model::paste_changes(ps, c0));
        }
    }

    /// Find the history of `id` in the cache, or register a fresh empty one.
    /// Returns its position.
    fn get_or_open_transactions(history: &mut Vec<TransactionStorage>, id: property::DocId) -> (idx:
        usize)
        ensures
            ({
                let ss0 = crate::model::v_storages(*old(history));
                let j0 = crate::model::find_storage(ss0, id);
                &&& idx < final(history)@.len()
                &&& crate::model::v_storages(*final(history)) == (if j0 >= 0 {
                    ss0
                } else {
                    ss0.push(crate::model::empty_storage(id))
                })
                &&& idx as int == (if j0 >= 0 {
                    j0
                } else {
                    ss0.len() as int
                })
                &&& crate::model::storages_extend(
                    ss0,
                    crate::model::v_storages(*final(history)),
                )
            }),
    {
        let ghost ss0 = crate::model::v_storages(*history);
        match find_storage_idx(history, id) {
            Some(i) => {
                proof {
                    crate::model::lemma_storages_extend_refl(ss0);
                }
                i
            }
            None => {
                let n = history.len();
                history.push(
                    TransactionStorage {
                        id: id,
                        htrs: Vec::new(),
                        applied: 0,
                        last_id: START_NAME,
                    },
                );
                proof {
                    assert(history@.last()@.txs
                        =~= Seq::<Seq<crate::model::ChangeV>>::empty());
                    assert(history@.last()@ == crate::model::empty_storage(id));
                    assert(crate::model::v_storages(*history) =~= ss0.push(
                        crate::model::empty_storage(id),
                    ));
                    assert(crate::model::v_storages(*history).subrange(0, ss0.len() as int)
                        =~= ss0);
                }
                n
            }
        }
    }

    /// Replay the ordered changes of one transaction against `content`,
    /// without clearing it first, as [`crate::model::sp_apply_changes`]
    /// describes: a forward delta application, not a full rebuild.
    fn apply_transaction_private(
        trs: &crate::transaction::Transaction,
        content: &mut Vec<Entity>,
        inserted_storages: &mut Vec<TransactionStorage>,
        fuel: u32,
    ) -> (r: Result<ChangedEntities, DocError>)
        requires
            crate::model::wf_entities(crate::model::v_content(*old(content))),
        ensures
            crate::model::wf_entities(crate::model::v_content(*final(content))),
            crate::model::storages_extend(
                crate::model::v_storages(*old(inserted_storages)),
                crate::model::v_storages(*final(inserted_storages)),
            ),
            ({
                let sr = crate::model::sp_apply_changes(
                    crate::model::v_content(*old(content)),
                    crate::model::tx_view(*trs),
                    crate::model::v_storages(*old(inserted_storages)),
                    fuel as nat,
                );
                match r {
                    Ok(ch) => ch.inv() && (sr matches Ok(o) && crate::model::v_content(
                        *final(content),
                    ) == o.content && crate::model::v_storages(*final(inserted_storages))
                        == o.storages && ch@ == o.changed),
                    Err(er) => sr == Err::<crate::model::ApplyOut, DocError>(er),
                }
            }),
        decreases fuel, 3nat, 0nat,
    {
        let ghost c0 = crate::model::v_content(*content);
        let ghost ss0 = crate::model::v_storages(*inserted_storages);
        let ghost cs = crate::model::tx_view(*trs);
        let ghost f = fuel as nat;
        let mut entity_changes = ChangedEntities::new();
        let mut k: usize = 0;
        proof {
            crate::model::lemma_storages_extend_refl(ss0);
            assert(cs.skip(0) =~= cs);
            if let Ok(o) = crate::model::sp_apply_changes(c0, cs, ss0, f) {
                crate::model::lemma_chg_merge_empty(o.changed);
            }
        }
        while k < trs.data.len()
            invariant
                k <= trs.data.len(),
                entity_changes.inv(),
                crate::model::wf_entities(crate::model::v_content(*content)),
                crate::model::storages_extend(
                    ss0,
                    crate::model::v_storages(*inserted_storages),
                ),
                ({
                    let whole = crate::model::sp_apply_changes(c0, cs, ss0, f);
                    match crate::model::sp_apply_changes(
                        crate::model::v_content(*content),
                        cs.skip(k as int),
                        crate::model::v_storages(*inserted_storages),
                        f,
                    ) {
                        Ok(o) => whole == Ok::<crate::model::ApplyOut, DocError>(
                            crate::model::ApplyOut {
                                content: o.content,
                                storages: o.storages,
                                changed: crate::model::chg_merge(entity_changes@, o.changed),
                            },
                        ),
                        Err(er) => whole == Err::<crate::model::ApplyOut, DocError>(er),
                    }
                }),
            decreases trs.data.len() - k,
        {
            let ghost ck = crate::model::v_content(*content);
            let ghost ssk = crate::model::v_storages(*inserted_storages);
            let ghost acck = entity_changes@;
            proof {
                assert(cs.skip(k as int)[0] == cs[k as int]);
                assert(cs[k as int] == trs.data@[k as int]@);
                assert(cs.skip(k as int).drop_first() =~= cs.skip(k as int + 1));
            }
            match &trs.data[k] {
                crate::transaction::Changes::Update(changes) => {
                    if changes.ename.len() == 0 {
                        return Err(DocError::EntityNotFound);
                    }
                    proof {
                        assert(changes.ename@.skip(0) =~= changes.ename@);
                    }
                    let rr = Self::entity_create_or_update(
                        &changes.ename,
                        0,
                        &changes.props,
                        content,
                        inserted_storages,
                        fuel,
                    );
                    proof {
                        crate::model::lemma_storages_extend_trans(
                            ss0,
                            ssk,
                            crate::model::v_storages(*inserted_storages),
                        );
                    }
                    match rr {
                        Ok(chgs) => {
                            proof {
                                let o1 = crate::model::sp_create_or_update(
                                    ck,
                                    changes.ename@,
                                    changes.props@,
                                    ssk,
                                    f,
                                )->Ok_0;
                                match crate::model::sp_apply_changes(
                                    crate::model::v_content(*content),
                                    cs.skip(k as int + 1),
                                    crate::model::v_storages(*inserted_storages),
                                    f,
                                ) {
                                    Ok(o2) => {
                                        crate::model::lemma_chg_merge_assoc(
                                            acck,
                                            o1.changed,
                                            o2.changed,
                                        );
                                    }
                                    Err(_) => {}
                                }
                            }
                            entity_changes.merge(chgs);
                        }
                        Err(er) => {
                            return Err(er);
                        }
                    }
                }
                crate::transaction::Changes::Delete(name) => {
                    if name.len() == 0 {
                        return Err(DocError::EntityNotFound);
                    }
                    let nl = name.len();
                    let seg = name[nl - 1];
                    match find_seg_idx(content, seg) {
                        Some(pos) => {
                            let ghost cvec = *content;
                            content.swap_remove(pos);
                            entity_changes.add(name, CHG_DELETED);
                            proof {
                                crate::model::lemma_v_content(cvec);
                                crate::model::lemma_v_content(*content);
                                assert(crate::model::v_content(*content) =~= ck.update(
                                    pos as int,
                                    ck.last(),
                                ).drop_last());
                                crate::model::lemma_wf_swap_remove(ck, pos as int);
                                crate::model::lemma_chg_add_is_merge(acck, name@, CHG_DELETED);
                                match crate::model::sp_apply_changes(
                                    crate::model::v_content(*content),
                                    cs.skip(k as int + 1),
                                    crate::model::v_storages(*inserted_storages),
                                    f,
                                ) {
                                    Ok(o2) => {
                                        crate::model::lemma_chg_merge_assoc(
                                            acck,
                                            crate::model::chg_one(name@, CHG_DELETED),
                                            o2.changed,
                                        );
                                    }
                                    Err(_) => {}
                                }
                            }
                        }
                        None => {
                            return Err(DocError::EntityNotFound);
                        }
                    }
                }
            }
            k = k + 1;
        }
        proof {
            assert(cs.skip(cs.len() as int) =~= Seq::<crate::model::ChangeV>::empty());
            crate::model::lemma_chg_merge_empty(entity_changes@);
        }
        Ok(entity_changes)
    }

    /// Create or update the entity addressed by `ename[start..]` at this
    /// content level, then apply its property changes, as
    /// [`crate::model::sp_create_or_update`] describes.
    fn entity_create_or_update(
        ename: &Vec<u32>,
        start: usize,
        props: &Vec<crate::transaction::PropChange>,
        content: &mut Vec<Entity>,
        storages: &mut Vec<TransactionStorage>,
        fuel: u32,
    ) -> (r: Result<ChangedEntities, DocError>)
        requires
            start < ename.len(),
            crate::model::wf_entities(crate::model::v_content(*old(content))),
        ensures
            crate::model::wf_entities(crate::model::v_content(*final(content))),
            crate::model::storages_extend(
                crate::model::v_storages(*old(storages)),
                crate::model::v_storages(*final(storages)),
            ),
            ({
                let sr = crate::model::sp_create_or_update(
                    crate::model::v_content(*old(content)),
                    ename@.skip(start as int),
                    props@,
                    crate::model::v_storages(*old(storages)),
                    fuel as nat,
                );
                match r {
                    Ok(ch) => ch.inv() && (sr matches Ok(o) && crate::model::v_content(
                        *final(content),
                    ) == o.content && crate::model::v_storages(*final(storages)) == o.storages
                        && ch@ == o.changed),
                    Err(er) => sr == Err::<crate::model::ApplyOut, DocError>(er),
                }
            }),
            crate::model::sp_resolution_fails(
                crate::model::v_content(*old(content)),
                ename@.skip(start as int),
            ) ==> crate::model::v_content(*final(content)) == crate::model::v_content(
                *old(content),
            ) && crate::model::v_storages(*final(storages)) == crate::model::v_storages(
                *old(storages),
            ) && r is Err,
        decreases fuel, 2nat, ename.len() - start,
    {
        let ghost c0 = crate::model::v_content(*content);
        let ghost ss0 = crate::model::v_storages(*storages);
        let ghost nm = ename@.skip(start as int);
        proof {
            crate::model::lemma_storages_extend_refl(ss0);
            crate::model::lemma_v_content(*content);
            assert(nm[0] == ename@[start as int]);
        }
        let rest = ename.len() - start;
        let seg = ename[start];
        match find_seg_idx(content, seg) {
            None => {
                if rest > 1 {
                    return Err(DocError::EntityNotFound);
                }
                // No entity with this name: create a new leaf.
                let li = content.len();
                content.push(Entity { name: vec![seg], props2: Vec::new(), children: None });
                let ghost fresh = crate::model::v_entity(content@[li as int]);
                proof {
                    assert(content@[li as int].name@ =~= seq![seg]);
                    assert(content@[li as int].props2@
                        =~= Seq::<Rc<property::Value2>>::empty());
                    assert(fresh == crate::model::EntityV {
                        name: seq![seg],
                        props: Seq::empty(),
                        children: None,
                    });
                    crate::model::lemma_v_content(*content);
                    assert(crate::model::v_content(*content) =~= c0.push(fresh));
                }
                let mut entity_changes = ChangedEntities::from(&content[li].name, CHG_CREATED);
                let rr = apply_props_list(&mut content[li], props, storages, fuel);
                proof {
                    crate::model::lemma_v_content(*content);
                    assert(crate::model::v_content(*content) =~= c0.push(
                        crate::model::v_entity(content@[li as int]),
                    ));
                    crate::model::lemma_wf_push(
                        c0,
                        crate::model::v_entity(content@[li as int]),
                    );
                }
                match rr {
                    Ok(ch) => {
                        entity_changes.merge(ch);
                        Ok(entity_changes)
                    }
                    Err(er) => Err(er),
                }
            }
            Some(pos) => {
                let ghost epos = c0[pos as int];
                proof {
                    assert(epos == crate::model::v_entity(content@[pos as int]));
                    assert(crate::model::wf_entity(epos));
                }
                if rest > 1 {
                    proof {
                        assert(nm.drop_first() =~= ename@.skip(start as int + 1));
                    }
                    let rr = {
                        let ent = &mut content[pos];
                        match &mut ent.children {
                            None => Err(DocError::NotAContainer),
                            Some(ch) => {
                                proof {
                                    assert(epos.children == Some(crate::model::v_content(*ch)));
                                }
                                Self::entity_create_or_update(
                                    ename,
                                    start + 1,
                                    props,
                                    ch,
                                    storages,
                                    fuel,
                                )
                            }
                        }
                    };
                    proof {
                        crate::model::lemma_v_content(*content);
                        if epos.children is Some && rr is Ok {
                            let och = crate::model::sp_create_or_update(
                                epos.children->Some_0,
                                nm.drop_first(),
                                props@,
                                ss0,
                                fuel as nat,
                            )->Ok_0;
                            assert(crate::model::v_entity(content@[pos as int])
                                == crate::model::EntityV { children: Some(och.content), ..epos });
                            assert(crate::model::v_content(*content) =~= c0.update(
                                pos as int,
                                crate::model::EntityV { children: Some(och.content), ..epos },
                            ));
                        }
                        if epos.children is None {
                            assert(crate::model::v_content(*content) =~= c0);
                        } else if crate::model::sp_resolution_fails(
                            epos.children->Some_0,
                            nm.drop_first(),
                        ) {
                            assert(crate::model::v_entity(content@[pos as int]) == epos);
                            assert(crate::model::v_content(*content) =~= c0);
                        }
                        if epos.children is Some {
                            assert(crate::model::wf_entity(
                                crate::model::v_entity(content@[pos as int]),
                            ));
                            assert(crate::model::v_content(*content) =~= c0.update(
                                pos as int,
                                crate::model::v_entity(content@[pos as int]),
                            ));
                            crate::model::lemma_wf_update(
                                c0,
                                pos as int,
                                crate::model::v_entity(content@[pos as int]),
                            );
                        }
                    }
                    rr
                } else {
                    let rr = apply_props_list(&mut content[pos], props, storages, fuel);
                    proof {
                        crate::model::lemma_v_content(*content);
                        assert(crate::model::v_content(*content) =~= c0.update(
                            pos as int,
                            crate::model::v_entity(content@[pos as int]),
                        ));
                        crate::model::lemma_wf_update(
                            c0,
                            pos as int,
                            crate::model::v_entity(content@[pos as int]),
                        );
                    }
                    rr
                }
            }
        }
    }
}

} // verus!

//! Laws of the engine, proved against the replay interpreter in
//! [`crate::model`]: replay never rewrites committed history, replay is
//! insensitive to empty cache entries, and undo followed by redo restores
//! the content.

use vstd::prelude::*;
use std::rc::Rc;

use crate::entity::DocError;
use crate::model::{
    concat_all, empty_storage, find_storage, lemma_find_storage, sp_apply_changes, sp_apply_prop,
    sp_apply_props, sp_create_or_update, sp_replay, storages_extend, ApplyOut, ChangeV, EntityV,
    PropOut, StorageV,
};
use crate::transaction::PropChange;

verus! {

/// The committed transactions the cache holds for a document identity: the
/// first matching history's, or none for an identity never seen.
pub open spec fn history_txs(ss: Seq<StorageV>, id: u32) -> Seq<Seq<ChangeV>> {
    let i = find_storage(ss, id);
    if i >= 0 {
        ss[i].txs
    } else {
        Seq::empty()
    }
}

/// Where a history is found after appending one more entry.
pub proof fn lemma_find_storage_push(ss: Seq<StorageV>, st: StorageV, id: u32)
    ensures
        find_storage(ss.push(st), id) == if find_storage(ss, id) >= 0 {
            find_storage(ss, id)
        } else if st.id == id {
            ss.len() as int
        } else {
            -1
        },
    decreases ss.len(),
{
    if ss.len() == 0 {
        assert(ss.push(st).drop_first() =~= Seq::<StorageV>::empty());
        assert(find_storage(Seq::<StorageV>::empty(), id) == -1);
        assert(ss.push(st)[0] == st);
    } else {
        assert(ss.push(st)[0] == ss[0]);
        assert(ss.push(st).drop_first() =~= ss.drop_first().push(st));
        lemma_find_storage_push(ss.drop_first(), st, id);
    }
}

/// Committed history survives any extension of the cache: whatever replay
/// appends (always empty histories), every document identity keeps exactly
/// the committed transactions it had.
pub proof fn lemma_extension_preserves_histories(s1: Seq<StorageV>, s2: Seq<StorageV>)
    requires
        storages_extend(s1, s2),
    ensures
        forall|id: u32| #[trigger] history_txs(s2, id) == history_txs(s1, id),
{
    assert forall|id: u32| #[trigger] history_txs(s2, id) == history_txs(s1, id) by {
        lemma_find_storage(s1, id);
        lemma_find_storage(s2, id);
        assert(forall|j: int| 0 <= j < s1.len() ==> s2[j] == #[trigger] s1[j]) by {
            assert(forall|j: int|
                0 <= j < s1.len() ==> s2.subrange(0, s1.len() as int)[j] == #[trigger] s2[j]);
        }
        let i1 = find_storage(s1, id);
        let i2 = find_storage(s2, id);
        if i1 >= 0 {
            assert(s2[i1].id == id);
            assert(i2 >= 0);
            if i2 < i1 {
                assert(s1[i2].id == id);
                assert(false);
            }
            assert(i2 == i1);
        } else {
            if i2 >= 0 {
                if i2 < s1.len() {
                    assert(s1[i2] == s2[i2]);
                    assert(s1[i2].id != id);
                    assert(false);
                }
                assert(s2[i2].txs.len() == 0);
                assert(s2[i2].txs =~= Seq::<Seq<ChangeV>>::empty());
            }
        }
    }
}

/// Two caches that agree on every identity's committed transactions.
pub open spec fn st_equiv(s1: Seq<StorageV>, s2: Seq<StorageV>) -> bool {
    forall|id: u32| #[trigger] history_txs(s1, id) == history_txs(s2, id)
}

/// Registering an unseen identity as an empty history changes no
/// identity's committed transactions.
pub proof fn lemma_push_empty_equiv(ss: Seq<StorageV>, id: u32)
    requires
        find_storage(ss, id) < 0,
    ensures
        st_equiv(ss, ss.push(empty_storage(id))),
{
    assert forall|x: u32| #[trigger] history_txs(ss, x) == history_txs(
        ss.push(empty_storage(id)),
        x,
    ) by {
        lemma_find_storage_push(ss, empty_storage(id), x);
        if x == id {
            assert(history_txs(ss.push(empty_storage(id)), x) =~= Seq::<Seq<ChangeV>>::empty());
        } else {
            if find_storage(ss, x) >= 0 {
                lemma_find_storage(ss, x);
                assert(ss.push(empty_storage(id))[find_storage(ss, x)] == ss[find_storage(
                    ss,
                    x,
                )]);
            }
        }
    }
}

/// Applying one property change reads the cache only through the committed
/// transactions: equivalent caches give the same entity, the same summary
/// and the same error, and leave the caches equivalent — to each other and
/// to what they were.
pub proof fn lemma_cong_prop(e: EntityV, c: PropChange, s1: Seq<StorageV>, s2: Seq<StorageV>, fuel: nat)
    requires
        st_equiv(s1, s2),
    ensures
        ({
            let r1 = sp_apply_prop(e, c, s1, fuel);
            let r2 = sp_apply_prop(e, c, s2, fuel);
            match r1 {
                Ok(o1) => {
                    &&& (r2 matches Ok(o2) && o1.entity == o2.entity && o1.changed == o2.changed
                        && st_equiv(o1.storages, o2.storages))
                    &&& st_equiv(s1, o1.storages)
                },
                Err(er) => r2 == Err::<PropOut, DocError>(er),
            }
        }),
    decreases fuel, 0nat, 0nat,
{
    match c {
        PropChange::Update(p) => {
            let i = crate::model::find_prop(e.props, p.key);
            if i < 0 && p.key == crate::property::INS_DOC && fuel > 0 {
                if let crate::property::PropData::Doc(doc_id) = &p.value {
                let doc_id = *doc_id;
                let j1 = find_storage(s1, doc_id);
                let j2 = find_storage(s2, doc_id);
                let ss1 = if j1 >= 0 {
                    s1
                } else {
                    s1.push(empty_storage(doc_id))
                };
                let ss2 = if j2 >= 0 {
                    s2
                } else {
                    s2.push(empty_storage(doc_id))
                };
                let jj1 = if j1 >= 0 {
                    j1
                } else {
                    s1.len() as int
                };
                let jj2 = if j2 >= 0 {
                    j2
                } else {
                    s2.len() as int
                };
                if j1 < 0 {
                    lemma_push_empty_equiv(s1, doc_id);
                }
                if j2 < 0 {
                    lemma_push_empty_equiv(s2, doc_id);
                }
                lemma_find_storage(s1, doc_id);
                lemma_find_storage(s2, doc_id);
                assert(ss1[jj1].txs == history_txs(s1, doc_id)) by {
                    if j1 < 0 {
                        assert(ss1[jj1].txs =~= Seq::<Seq<ChangeV>>::empty());
                    }
                }
                assert(ss2[jj2].txs == history_txs(s2, doc_id)) by {
                    if j2 < 0 {
                        assert(ss2[jj2].txs =~= Seq::<Seq<ChangeV>>::empty());
                    }
                }
                assert forall|x: u32| #[trigger] history_txs(ss1, x) == history_txs(
                    ss2,
                    x,
                ) by {
                    assert(history_txs(s1, x) == history_txs(s2, x));
                    assert(history_txs(s1, x) == history_txs(ss1, x));
                    assert(history_txs(s2, x) == history_txs(ss2, x));
                }
                lemma_cong_changes(
                    Seq::empty(),
                    concat_all(ss1[jj1].txs),
                    ss1,
                    ss2,
                    (fuel - 1) as nat,
                );
                }
            }
        }
        PropChange::Delete(_) => {}
    }
}

/// Property-change lists read the cache only through the committed
/// transactions.
pub proof fn lemma_cong_props(
    e: EntityV,
    ps: Seq<PropChange>,
    s1: Seq<StorageV>,
    s2: Seq<StorageV>,
    fuel: nat,
)
    requires
        st_equiv(s1, s2),
    ensures
        ({
            let r1 = sp_apply_props(e, ps, s1, fuel);
            let r2 = sp_apply_props(e, ps, s2, fuel);
            match r1 {
                Ok(o1) => {
                    &&& (r2 matches Ok(o2) && o1.entity == o2.entity && o1.changed == o2.changed
                        && st_equiv(o1.storages, o2.storages))
                    &&& st_equiv(s1, o1.storages)
                },
                Err(er) => r2 == Err::<PropOut, DocError>(er),
            }
        }),
    decreases fuel, 1nat, ps.len(),
{
    if ps.len() > 0 {
        lemma_cong_prop(e, ps[0], s1, s2, fuel);
        match sp_apply_prop(e, ps[0], s1, fuel) {
            Ok(o1) => {
                let o2 = sp_apply_prop(e, ps[0], s2, fuel)->Ok_0;
                lemma_cong_props(o1.entity, ps.drop_first(), o1.storages, o2.storages, fuel);
            }
            Err(_) => {}
        }
    }
}

/// Entity creation and update read the cache only through the committed
/// transactions.
pub proof fn lemma_cong_cou(
    content: Seq<EntityV>,
    ename: Seq<u32>,
    ps: Seq<PropChange>,
    s1: Seq<StorageV>,
    s2: Seq<StorageV>,
    fuel: nat,
)
    requires
        st_equiv(s1, s2),
    ensures
        ({
            let r1 = sp_create_or_update(content, ename, ps, s1, fuel);
            let r2 = sp_create_or_update(content, ename, ps, s2, fuel);
            match r1 {
                Ok(o1) => {
                    &&& (r2 matches Ok(o2) && o1.content == o2.content && o1.changed == o2.changed
                        && st_equiv(o1.storages, o2.storages))
                    &&& st_equiv(s1, o1.storages)
                },
                Err(er) => r2 == Err::<ApplyOut, DocError>(er),
            }
        }),
    decreases fuel, 2nat, ename.len(),
{
    if ename.len() > 1 {
        let i = crate::model::find_by_seg(content, ename[0]);
        if i >= 0 && content[i].children is Some {
            lemma_cong_cou(
                content[i].children->Some_0,
                ename.drop_first(),
                ps,
                s1,
                s2,
                fuel,
            );
        }
    } else if ename.len() == 1 {
        let i = crate::model::find_by_seg(content, ename[0]);
        if i >= 0 {
            lemma_cong_props(content[i], ps, s1, s2, fuel);
        } else {
            let fresh = EntityV { name: seq![ename[0]], props: Seq::empty(), children: None };
            lemma_cong_props(fresh, ps, s1, s2, fuel);
        }
    }
}

/// Replaying a change list reads the cache only through the committed
/// transactions.
pub proof fn lemma_cong_changes(
    content: Seq<EntityV>,
    cs: Seq<ChangeV>,
    s1: Seq<StorageV>,
    s2: Seq<StorageV>,
    fuel: nat,
)
    requires
        st_equiv(s1, s2),
    ensures
        ({
            let r1 = sp_apply_changes(content, cs, s1, fuel);
            let r2 = sp_apply_changes(content, cs, s2, fuel);
            match r1 {
                Ok(o1) => {
                    &&& (r2 matches Ok(o2) && o1.content == o2.content && o1.changed == o2.changed
                        && st_equiv(o1.storages, o2.storages))
                    &&& st_equiv(s1, o1.storages)
                },
                Err(er) => r2 == Err::<ApplyOut, DocError>(er),
            }
        }),
    decreases fuel, 3nat, cs.len(),
{
    if cs.len() > 0 {
        match cs[0] {
            ChangeV::Update(ec) => {
                lemma_cong_cou(content, ec.ename, ec.props, s1, s2, fuel);
                match sp_create_or_update(content, ec.ename, ec.props, s1, fuel) {
                    Ok(o1) => {
                        let o2 = sp_create_or_update(content, ec.ename, ec.props, s2, fuel)->Ok_0;
                        lemma_cong_changes(
                            o1.content,
                            cs.drop_first(),
                            o1.storages,
                            o2.storages,
                            fuel,
                        );
                    }
                    Err(_) => {}
                }
            }
            ChangeV::Delete(name) => {
                if name.len() > 0 {
                    let i = crate::model::find_by_seg(content, crate::model::last_seg(name));
                    if i >= 0 {
                        lemma_cong_changes(
                            content.update(i, content.last()).drop_last(),
                            cs.drop_first(),
                            s1,
                            s2,
                            fuel,
                        );
                    }
                }
            }
        }
    }
}

/// Replaying a prefix of committed transactions reads the cache only
/// through the committed transactions, and leaves every identity's
/// committed transactions as they were.
pub proof fn lemma_cong_replay(
    txs: Seq<Seq<ChangeV>>,
    n: int,
    s1: Seq<StorageV>,
    s2: Seq<StorageV>,
)
    requires
        st_equiv(s1, s2),
    ensures
        ({
            let r1 = sp_replay(txs, n, s1);
            let r2 = sp_replay(txs, n, s2);
            match r1 {
                Ok(p1) => {
                    &&& (r2 matches Ok(p2) && p1.0 == p2.0 && st_equiv(p1.1, p2.1))
                    &&& st_equiv(s1, p1.1)
                },
                Err(er) => r2 == Err::<(Seq<EntityV>, Seq<StorageV>), DocError>(er),
            }
        }),
    decreases n,
{
    if n > 0 {
        lemma_cong_replay(txs, n - 1, s1, s2);
        match sp_replay(txs, n - 1, s1) {
            Ok(p1) => {
                let p2 = sp_replay(txs, n - 1, s2)->Ok_0;
                lemma_cong_changes(
                    p1.0,
                    txs[n - 1],
                    p1.1,
                    p2.1,
                    crate::entity::INSERT_DEPTH as nat,
                );
            }
            Err(_) => {}
        }
    }
}

/// No two entities of one level share a trailing name segment.
pub open spec fn uniq_level(c: Seq<EntityV>) -> bool {
    forall|i: int, j: int|
        0 <= i < j < c.len() ==> crate::model::last_seg((#[trigger] c[i]).name)
            != crate::model::last_seg((#[trigger] c[j]).name)
}

/// Sibling trailing name segments are unique inside this entity's nested
/// content, recursively.
pub open spec fn uniq_entity(e: EntityV) -> bool
    decreases e, 0nat,
{
    match e.children {
        None => true,
        Some(ch) => uniq_entities(ch),
    }
}

/// Sibling trailing name segments are unique at this level and below.
pub open spec fn uniq_entities(c: Seq<EntityV>) -> bool
    decreases c, 1nat,
{
    uniq_level(c) && forall|i: int| 0 <= i < c.len() ==> uniq_entity(#[trigger] c[i])
}

/// One property change keeps the entity's name, and keeps sibling names
/// unique inside its nested content.
pub proof fn lemma_uniq_prop(e: EntityV, c: PropChange, ss: Seq<StorageV>, fuel: nat)
    requires
        uniq_entity(e),
    ensures
        ({
            match sp_apply_prop(e, c, ss, fuel) {
                Ok(o) => o.entity.name == e.name && uniq_entity(o.entity),
                Err(_) => true,
            }
        }),
    decreases fuel, 0nat, 0nat,
{
    match c {
        PropChange::Update(p) => {
            let i = crate::model::find_prop(e.props, p.key);
            if i < 0 && p.key == crate::property::INS_DOC && fuel > 0 {
                if let crate::property::PropData::Doc(doc_id) = &p.value {
                    let doc_id = *doc_id;
                    let j0 = find_storage(ss, doc_id);
                    let ss1 = if j0 >= 0 {
                        ss
                    } else {
                        ss.push(empty_storage(doc_id))
                    };
                    let jj = if j0 >= 0 {
                        j0
                    } else {
                        ss.len() as int
                    };
                    lemma_uniq_changes(
                        Seq::empty(),
                        concat_all(ss1[jj].txs),
                        ss1,
                        (fuel - 1) as nat,
                    );
                }
            }
        }
        PropChange::Delete(_) => {}
    }
}

/// A property-change list keeps the entity's name, and keeps sibling names
/// unique inside its nested content.
pub proof fn lemma_uniq_props(e: EntityV, ps: Seq<PropChange>, ss: Seq<StorageV>, fuel: nat)
    requires
        uniq_entity(e),
    ensures
        ({
            match sp_apply_props(e, ps, ss, fuel) {
                Ok(o) => o.entity.name == e.name && uniq_entity(o.entity),
                Err(_) => true,
            }
        }),
    decreases fuel, 1nat, ps.len(),
{
    if ps.len() > 0 {
        lemma_uniq_prop(e, ps[0], ss, fuel);
        match sp_apply_prop(e, ps[0], ss, fuel) {
            Ok(o1) => {
                lemma_uniq_props(o1.entity, ps.drop_first(), o1.storages, fuel);
            }
            Err(_) => {}
        }
    }
}

/// Creating or updating an entity keeps sibling trailing name segments
/// unique: the final segment only ever creates an entity when no sibling
/// carries it.
pub proof fn lemma_uniq_cou(
    content: Seq<EntityV>,
    ename: Seq<u32>,
    ps: Seq<PropChange>,
    ss: Seq<StorageV>,
    fuel: nat,
)
    requires
        uniq_entities(content),
    ensures
        ({
            match sp_create_or_update(content, ename, ps, ss, fuel) {
                Ok(o) => uniq_entities(o.content),
                Err(_) => true,
            }
        }),
    decreases fuel, 2nat, ename.len(),
{
    if ename.len() > 1 {
        let i = crate::model::find_by_seg(content, ename[0]);
        crate::model::lemma_find_by_seg(content, ename[0]);
        if i >= 0 && content[i].children is Some {
            lemma_uniq_cou(content[i].children->Some_0, ename.drop_first(), ps, ss, fuel);
            match sp_create_or_update(
                content[i].children->Some_0,
                ename.drop_first(),
                ps,
                ss,
                fuel,
            ) {
                Ok(o) => {
                    let e2 = EntityV { children: Some(o.content), ..content[i] };
                    let c2 = content.update(i, e2);
                    assert forall|p: int, q: int|
                        0 <= p < q < c2.len() implies crate::model::last_seg((#[trigger] c2[p]).name)
                        != crate::model::last_seg((#[trigger] c2[q]).name) by {
                        assert(c2[p].name == content[p].name);
                        assert(c2[q].name == content[q].name);
                    }
                    assert forall|p: int| 0 <= p < c2.len() implies uniq_entity(
                        #[trigger] c2[p],
                    ) by {
                        if p != i {
                            assert(c2[p] == content[p]);
                        }
                    }
                }
                Err(_) => {}
            }
        }
    } else if ename.len() == 1 {
        let i = crate::model::find_by_seg(content, ename[0]);
        crate::model::lemma_find_by_seg(content, ename[0]);
        if i >= 0 {
            lemma_uniq_props(content[i], ps, ss, fuel);
            match sp_apply_props(content[i], ps, ss, fuel) {
                Ok(o) => {
                    let c2 = content.update(i, o.entity);
                    assert forall|p: int, q: int|
                        0 <= p < q < c2.len() implies crate::model::last_seg((#[trigger] c2[p]).name)
                        != crate::model::last_seg((#[trigger] c2[q]).name) by {
                        assert(c2[p].name == content[p].name);
                        assert(c2[q].name == content[q].name);
                    }
                    assert forall|p: int| 0 <= p < c2.len() implies uniq_entity(
                        #[trigger] c2[p],
                    ) by {
                        if p != i {
                            assert(c2[p] == content[p]);
                        }
                    }
                }
                Err(_) => {}
            }
        } else {
            let fresh = EntityV { name: seq![ename[0]], props: Seq::empty(), children: None };
            lemma_uniq_props(fresh, ps, ss, fuel);
            match sp_apply_props(fresh, ps, ss, fuel) {
                Ok(o) => {
                    let c2 = content.push(o.entity);
                    assert(crate::model::last_seg(o.entity.name) == ename[0]);
                    assert forall|p: int, q: int|
                        0 <= p < q < c2.len() implies crate::model::last_seg((#[trigger] c2[p]).name)
                        != crate::model::last_seg((#[trigger] c2[q]).name) by {
                        if q < content.len() {
                            assert(c2[p] == content[p]);
                            assert(c2[q] == content[q]);
                        } else {
                            assert(c2[q] == o.entity);
                            if p < content.len() {
                                assert(c2[p] == content[p]);
                                assert(crate::model::last_seg(content[p].name) != ename[0]);
                            }
                        }
                    }
                    assert forall|p: int| 0 <= p < c2.len() implies uniq_entity(
                        #[trigger] c2[p],
                    ) by {
                        if p < content.len() {
                            assert(c2[p] == content[p]);
                        } else {
                            assert(c2[p] == o.entity);
                        }
                    }
                }
                Err(_) => {}
            }
        }
    }
}

/// Replaying a change list keeps sibling trailing name segments unique at
/// every level of the content tree.
pub proof fn lemma_uniq_changes(
    content: Seq<EntityV>,
    cs: Seq<ChangeV>,
    ss: Seq<StorageV>,
    fuel: nat,
)
    requires
        uniq_entities(content),
    ensures
        ({
            match sp_apply_changes(content, cs, ss, fuel) {
                Ok(o) => uniq_entities(o.content),
                Err(_) => true,
            }
        }),
    decreases fuel, 3nat, cs.len(),
{
    if cs.len() > 0 {
        match cs[0] {
            ChangeV::Update(ec) => {
                lemma_uniq_cou(content, ec.ename, ec.props, ss, fuel);
                match sp_create_or_update(content, ec.ename, ec.props, ss, fuel) {
                    Ok(o1) => {
                        lemma_uniq_changes(o1.content, cs.drop_first(), o1.storages, fuel);
                    }
                    Err(_) => {}
                }
            }
            ChangeV::Delete(name) => {
                if name.len() > 0 {
                    let i = crate::model::find_by_seg(content, crate::model::last_seg(name));
                    if i >= 0 {
                        crate::model::lemma_find_by_seg(content, crate::model::last_seg(name));
                        let c2 = content.update(i, content.last()).drop_last();
                        assert forall|p: int, q: int|
                            0 <= p < q < c2.len() implies crate::model::last_seg(
                            (#[trigger] c2[p]).name,
                        ) != crate::model::last_seg((#[trigger] c2[q]).name) by {
                            let p0: int = if p == i {
                                content.len() - 1
                            } else {
                                p
                            };
                            let q0: int = if q == i {
                                content.len() - 1
                            } else {
                                q
                            };
                            assert(c2[p] == content[p0]);
                            assert(c2[q] == content[q0]);
                        }
                        assert forall|p: int| 0 <= p < c2.len() implies uniq_entity(
                            #[trigger] c2[p],
                        ) by {
                            if p == i {
                                assert(c2[p] == content[content.len() - 1]);
                            } else {
                                assert(c2[p] == content[p]);
                            }
                        }
                        lemma_uniq_changes(c2, cs.drop_first(), ss, fuel);
                    }
                }
            }
        }
    }
}

/// Name uniqueness invariant: rebuilding a document by replaying any
/// prefix of its committed transactions yields a content tree where no two
/// sibling entities share a trailing name segment, at any level.
pub proof fn lemma_replay_names_unique(txs: Seq<Seq<ChangeV>>, n: int, ss: Seq<StorageV>)
    ensures
        ({
            match sp_replay(txs, n, ss) {
                Ok(p) => uniq_entities(p.0),
                Err(_) => true,
            }
        }),
    decreases n,
{
    if n <= 0 {
        assert(uniq_entities(Seq::<EntityV>::empty()));
    } else {
        lemma_replay_names_unique(txs, n - 1, ss);
        match sp_replay(txs, n - 1, ss) {
            Ok(p) => {
                lemma_uniq_changes(p.0, txs[n - 1], p.1, crate::entity::INSERT_DEPTH as nat);
            }
            Err(_) => {}
        }
    }
}

/// The change list holds no property deletions.
pub open spec fn no_deletes(ps: Seq<PropChange>) -> bool {
    forall|i: int| 0 <= i < ps.len() ==> (#[trigger] ps[i]) is Update
}

/// The property stored at a key, if any.
pub open spec fn prop_val(
    props: Seq<Rc<crate::property::Value2>>,
    k: u32,
) -> Option<Rc<crate::property::Value2>> {
    let i = crate::model::find_prop(props, k);
    if i >= 0 {
        Some(props[i])
    } else {
        None
    }
}

/// The last property written at a key by a change list, if any.
pub open spec fn last_write(ps: Seq<PropChange>, k: u32) -> Option<Rc<crate::property::Value2>>
    decreases ps.len(),
{
    if ps.len() == 0 {
        None
    } else {
        let rest = last_write(ps.drop_first(), k);
        if rest is Some {
            rest
        } else {
            match ps[0] {
                PropChange::Update(p) => if p.key == k {
                    Some(p)
                } else {
                    None
                },
                PropChange::Delete(_) => None,
            }
        }
    }
}

/// An update somewhere in the list means the key has a last write.
pub proof fn lemma_last_write_present(ps: Seq<PropChange>, i: int)
    requires
        0 <= i < ps.len(),
        ps[i] is Update,
    ensures
        last_write(ps, ps[i]->Update_0.key) is Some,
    decreases ps.len(),
{
    if i > 0 {
        assert(ps.drop_first()[i - 1] == ps[i]);
        lemma_last_write_present(ps.drop_first(), i - 1);
    }
}

/// Every property key appears at most once.
pub open spec fn unique_keys(props: Seq<Rc<crate::property::Value2>>) -> bool {
    forall|i: int, j: int|
        0 <= i < j < props.len() ==> (#[trigger] props[i]).key != (#[trigger] props[j]).key
}

/// Where a key is found after appending one more property.
pub proof fn lemma_find_prop_push(
    props: Seq<Rc<crate::property::Value2>>,
    p: Rc<crate::property::Value2>,
    k: u32,
)
    ensures
        crate::model::find_prop(props.push(p), k) == if crate::model::find_prop(props, k) >= 0 {
            crate::model::find_prop(props, k)
        } else if p.key == k {
            props.len() as int
        } else {
            -1
        },
    decreases props.len(),
{
    if props.len() == 0 {
        assert(props.push(p).drop_first() =~= Seq::<Rc<crate::property::Value2>>::empty());
        assert(crate::model::find_prop(
            Seq::<Rc<crate::property::Value2>>::empty(),
            k,
        ) == -1);
        assert(props.push(p)[0] == p);
    } else {
        assert(props.push(p)[0] == props[0]);
        assert(props.push(p).drop_first() =~= props.drop_first().push(p));
        lemma_find_prop_push(props.drop_first(), p, k);
    }
}

/// Replacing a property with one of the same key moves no key.
pub proof fn lemma_find_prop_update_same_key(
    props: Seq<Rc<crate::property::Value2>>,
    i: int,
    p: Rc<crate::property::Value2>,
    k: u32,
)
    requires
        0 <= i < props.len(),
        p.key == props[i].key,
    ensures
        crate::model::find_prop(props.update(i, p), k) == crate::model::find_prop(props, k),
    decreases props.len(),
{
    if i == 0 {
        assert(props.update(0, p)[0] == p);
        assert(props.update(0, p).drop_first() =~= props.drop_first());
    } else {
        assert(props.update(i, p)[0] == props[0]);
        assert(props.update(i, p).drop_first() =~= props.drop_first().update(i - 1, p));
        lemma_find_prop_update_same_key(props.drop_first(), i - 1, p, k);
    }
}

/// Last write wins: after applying a deletion-free change list, every key
/// holds its last written property, and every untouched key keeps the
/// property it had.
pub proof fn lemma_apply_props_last_write(
    e: EntityV,
    ps: Seq<PropChange>,
    ss: Seq<StorageV>,
    fuel: nat,
)
    requires
        no_deletes(ps),
        unique_keys(e.props),
    ensures
        ({
            match sp_apply_props(e, ps, ss, fuel) {
                Ok(o) => {
                    &&& o.entity.name == e.name
                    &&& unique_keys(o.entity.props)
                    &&& forall|k: u32| #[trigger] prop_val(o.entity.props, k)
                        == if last_write(ps, k) is Some {
                            last_write(ps, k)
                        } else {
                            prop_val(e.props, k)
                        }
                },
                Err(_) => true,
            }
        }),
    decreases ps.len(),
{
    if ps.len() == 0 {
        return ;
    }
    assert(forall|i: int| 0 <= i < ps.len() - 1 ==> ps.drop_first()[i] == ps[i + 1]);
    let p0 = ps[0]->Update_0;
    let i0 = crate::model::find_prop(e.props, p0.key);
    crate::model::lemma_find_prop(e.props, p0.key);
    match sp_apply_prop(e, ps[0], ss, fuel) {
        Ok(o1) => {
            let e1 = o1.entity;
            if i0 >= 0 {
                assert(e1.props == e.props.update(i0, p0));
                assert forall|k: u32| true implies #[trigger] prop_val(e1.props, k) == (if p0.key
                    == k {
                    Some(p0)
                } else {
                    prop_val(e.props, k)
                }) by {
                    lemma_find_prop_update_same_key(e.props, i0, p0, k);
                    crate::model::lemma_find_prop(e.props, k);
                    let f = crate::model::find_prop(e.props, k);
                    if f >= 0 && f != i0 {
                        assert(e1.props[f] == e.props[f]);
                    }
                }
                assert forall|p: int, q: int| 0 <= p < q < e1.props.len() implies (
                #[trigger] e1.props[p]).key != (#[trigger] e1.props[q]).key by {
                    assert(e1.props[p].key == e.props[p].key);
                    assert(e1.props[q].key == e.props[q].key);
                }
            } else {
                assert(e1.props == e.props.push(p0));
                assert forall|k: u32| true implies #[trigger] prop_val(e1.props, k) == (if p0.key
                    == k {
                    Some(p0)
                } else {
                    prop_val(e.props, k)
                }) by {
                    lemma_find_prop_push(e.props, p0, k);
                    crate::model::lemma_find_prop(e.props, k);
                    let f = crate::model::find_prop(e.props, k);
                    if f >= 0 {
                        assert(e1.props[f] == e.props[f]);
                    }
                }
                assert forall|p: int, q: int| 0 <= p < q < e1.props.len() implies (
                #[trigger] e1.props[p]).key != (#[trigger] e1.props[q]).key by {
                    if q == e.props.len() {
                        crate::model::lemma_find_prop(e.props, p0.key);
                        assert(e1.props[p] == e.props[p]);
                        assert(e1.props[q] == p0);
                    } else {
                        assert(e1.props[p] == e.props[p]);
                        assert(e1.props[q] == e.props[q]);
                    }
                }
            }
            lemma_apply_props_last_write(e1, ps.drop_first(), o1.storages, fuel);
            match sp_apply_props(e1, ps.drop_first(), o1.storages, fuel) {
                Ok(o2) => {
                    assert forall|k: u32| #[trigger] prop_val(o2.entity.props, k)
                        == if last_write(ps, k) is Some {
                        last_write(ps, k)
                    } else {
                        prop_val(e.props, k)
                    } by {
                        assert(prop_val(o2.entity.props, k) == if last_write(
                            ps.drop_first(),
                            k,
                        ) is Some {
                            last_write(ps.drop_first(), k)
                        } else {
                            prop_val(e1.props, k)
                        });
                    }
                }
                Err(_) => {}
            }
        }
        Err(_) => {}
    }
}

/// When every key of a deletion-free change list is already present, the
/// replay is pure overwriting: it always succeeds, touches no history, and
/// keeps the entity's name, children and key positions.
pub proof fn lemma_apply_props_all_present(
    e: EntityV,
    ps: Seq<PropChange>,
    ss: Seq<StorageV>,
    fuel: nat,
)
    requires
        no_deletes(ps),
        forall|i: int|
            0 <= i < ps.len() ==> crate::model::find_prop(
                e.props,
                ((#[trigger] ps[i])->Update_0).key,
            ) >= 0,
    ensures
        ({
            match sp_apply_props(e, ps, ss, fuel) {
                Ok(o) => {
                    &&& o.storages == ss
                    &&& o.entity.name == e.name
                    &&& o.entity.children == e.children
                    &&& o.entity.props.len() == e.props.len()
                    &&& forall|k: u32| #[trigger] crate::model::find_prop(o.entity.props, k)
                        == crate::model::find_prop(e.props, k)
                },
                Err(_) => false,
            }
        }),
    decreases ps.len(),
{
    if ps.len() == 0 {
        return ;
    }
    assert(forall|i: int| 0 <= i < ps.len() - 1 ==> ps.drop_first()[i] == ps[i + 1]);
    let p0 = ps[0]->Update_0;
    let i0 = crate::model::find_prop(e.props, p0.key);
    assert(i0 >= 0);
    crate::model::lemma_find_prop(e.props, p0.key);
    let e1 = EntityV { props: e.props.update(i0, p0), ..e };
    assert forall|k: u32| true implies #[trigger] crate::model::find_prop(e1.props, k)
        == crate::model::find_prop(e.props, k) by {
        lemma_find_prop_update_same_key(e.props, i0, p0, k);
    }
    assert(sp_apply_prop(e, ps[0], ss, fuel) matches Ok(o1) && o1.entity == e1 && o1.storages
        == ss);
    assert(forall|i: int|
        0 <= i < ps.drop_first().len() ==> crate::model::find_prop(
            e1.props,
            ((#[trigger] ps.drop_first()[i])->Update_0).key,
        ) >= 0);
    lemma_apply_props_all_present(e1, ps.drop_first(), ss, fuel);
}

/// Every entity of this entity's nested content has unique property keys.
pub open spec fn keys_unique_entity(e: EntityV) -> bool
    decreases e, 0nat,
{
    unique_keys(e.props) && match e.children {
        None => true,
        Some(ch) => keys_unique_entities(ch),
    }
}

/// Every entity at this level and below has unique property keys.
pub open spec fn keys_unique_entities(c: Seq<EntityV>) -> bool
    decreases c, 1nat,
{
    forall|i: int| 0 <= i < c.len() ==> keys_unique_entity(#[trigger] c[i])
}

/// One property change keeps property keys unique throughout the entity.
pub proof fn lemma_keys_prop(e: EntityV, c: PropChange, ss: Seq<StorageV>, fuel: nat)
    requires
        keys_unique_entity(e),
    ensures
        ({
            match sp_apply_prop(e, c, ss, fuel) {
                Ok(o) => keys_unique_entity(o.entity),
                Err(_) => true,
            }
        }),
    decreases fuel, 0nat, 0nat,
{
    match c {
        PropChange::Update(p) => {
            let i = crate::model::find_prop(e.props, p.key);
            crate::model::lemma_find_prop(e.props, p.key);
            if i >= 0 {
                let pr2 = e.props.update(i, p);
                assert forall|a: int, b: int| 0 <= a < b < pr2.len() implies (
                #[trigger] pr2[a]).key != (#[trigger] pr2[b]).key by {
                    assert(pr2[a].key == e.props[a].key);
                    assert(pr2[b].key == e.props[b].key);
                }
            } else {
                let pr2 = e.props.push(p);
                assert forall|a: int, b: int| 0 <= a < b < pr2.len() implies (
                #[trigger] pr2[a]).key != (#[trigger] pr2[b]).key by {
                    if b == e.props.len() {
                        assert(pr2[a] == e.props[a]);
                        assert(pr2[b] == p);
                    } else {
                        assert(pr2[a] == e.props[a]);
                        assert(pr2[b] == e.props[b]);
                    }
                }
                if p.key == crate::property::INS_DOC && fuel > 0 {
                    if let crate::property::PropData::Doc(doc_id) = &p.value {
                        let doc_id = *doc_id;
                        let j0 = find_storage(ss, doc_id);
                        let ss1 = if j0 >= 0 {
                            ss
                        } else {
                            ss.push(empty_storage(doc_id))
                        };
                        let jj = if j0 >= 0 {
                            j0
                        } else {
                            ss.len() as int
                        };
                        lemma_keys_changes(
                            Seq::empty(),
                            concat_all(ss1[jj].txs),
                            ss1,
                            (fuel - 1) as nat,
                        );
                    }
                }
            }
        }
        PropChange::Delete(key) => {
            let i = crate::model::find_prop(e.props, key);
            crate::model::lemma_find_prop(e.props, key);
            if i >= 0 {
                let pr2 = e.props.update(i, e.props.last()).drop_last();
                assert forall|a: int, b: int| 0 <= a < b < pr2.len() implies (
                #[trigger] pr2[a]).key != (#[trigger] pr2[b]).key by {
                    let a0: int = if a == i {
                        e.props.len() - 1
                    } else {
                        a
                    };
                    let b0: int = if b == i {
                        e.props.len() - 1
                    } else {
                        b
                    };
                    assert(pr2[a] == e.props[a0]);
                    assert(pr2[b] == e.props[b0]);
                }
            }
        }
    }
}

/// A property-change list keeps property keys unique throughout the
/// entity.
pub proof fn lemma_keys_props(e: EntityV, ps: Seq<PropChange>, ss: Seq<StorageV>, fuel: nat)
    requires
        keys_unique_entity(e),
    ensures
        ({
            match sp_apply_props(e, ps, ss, fuel) {
                Ok(o) => keys_unique_entity(o.entity),
                Err(_) => true,
            }
        }),
    decreases fuel, 1nat, ps.len(),
{
    if ps.len() > 0 {
        lemma_keys_prop(e, ps[0], ss, fuel);
        match sp_apply_prop(e, ps[0], ss, fuel) {
            Ok(o1) => {
                lemma_keys_props(o1.entity, ps.drop_first(), o1.storages, fuel);
            }
            Err(_) => {}
        }
    }
}

/// Creating or updating an entity keeps property keys unique everywhere.
pub proof fn lemma_keys_cou(
    content: Seq<EntityV>,
    ename: Seq<u32>,
    ps: Seq<PropChange>,
    ss: Seq<StorageV>,
    fuel: nat,
)
    requires
        keys_unique_entities(content),
    ensures
        ({
            match sp_create_or_update(content, ename, ps, ss, fuel) {
                Ok(o) => keys_unique_entities(o.content),
                Err(_) => true,
            }
        }),
    decreases fuel, 2nat, ename.len(),
{
    if ename.len() > 1 {
        let i = crate::model::find_by_seg(content, ename[0]);
        crate::model::lemma_find_by_seg(content, ename[0]);
        if i >= 0 && content[i].children is Some {
            lemma_keys_cou(content[i].children->Some_0, ename.drop_first(), ps, ss, fuel);
            match sp_create_or_update(
                content[i].children->Some_0,
                ename.drop_first(),
                ps,
                ss,
                fuel,
            ) {
                Ok(o) => {
                    let c2 = content.update(i, EntityV { children: Some(o.content), ..content[i] });
                    assert forall|p: int| 0 <= p < c2.len() implies keys_unique_entity(
                        #[trigger] c2[p],
                    ) by {
                        if p != i {
                            assert(c2[p] == content[p]);
                        }
                    }
                }
                Err(_) => {}
            }
        }
    } else if ename.len() == 1 {
        let i = crate::model::find_by_seg(content, ename[0]);
        crate::model::lemma_find_by_seg(content, ename[0]);
        if i >= 0 {
            lemma_keys_props(content[i], ps, ss, fuel);
            match sp_apply_props(content[i], ps, ss, fuel) {
                Ok(o) => {
                    let c2 = content.update(i, o.entity);
                    assert forall|p: int| 0 <= p < c2.len() implies keys_unique_entity(
                        #[trigger] c2[p],
                    ) by {
                        if p != i {
                            assert(c2[p] == content[p]);
                        }
                    }
                }
                Err(_) => {}
            }
        } else {
            let fresh = EntityV { name: seq![ename[0]], props: Seq::empty(), children: None };
            lemma_keys_props(fresh, ps, ss, fuel);
            match sp_apply_props(fresh, ps, ss, fuel) {
                Ok(o) => {
                    let c2 = content.push(o.entity);
                    assert forall|p: int| 0 <= p < c2.len() implies keys_unique_entity(
                        #[trigger] c2[p],
                    ) by {
                        if p < content.len() {
                            assert(c2[p] == content[p]);
                        } else {
                            assert(c2[p] == o.entity);
                        }
                    }
                }
                Err(_) => {}
            }
        }
    }
}

/// Replaying a change list keeps property keys unique everywhere.
pub proof fn lemma_keys_changes(
    content: Seq<EntityV>,
    cs: Seq<ChangeV>,
    ss: Seq<StorageV>,
    fuel: nat,
)
    requires
        keys_unique_entities(content),
    ensures
        ({
            match sp_apply_changes(content, cs, ss, fuel) {
                Ok(o) => keys_unique_entities(o.content),
                Err(_) => true,
            }
        }),
    decreases fuel, 3nat, cs.len(),
{
    if cs.len() > 0 {
        match cs[0] {
            ChangeV::Update(ec) => {
                lemma_keys_cou(content, ec.ename, ec.props, ss, fuel);
                match sp_create_or_update(content, ec.ename, ec.props, ss, fuel) {
                    Ok(o1) => {
                        lemma_keys_changes(o1.content, cs.drop_first(), o1.storages, fuel);
                    }
                    Err(_) => {}
                }
            }
            ChangeV::Delete(name) => {
                if name.len() > 0 {
                    let i = crate::model::find_by_seg(content, crate::model::last_seg(name));
                    crate::model::lemma_find_by_seg(content, crate::model::last_seg(name));
                    if i >= 0 {
                        let c2 = content.update(i, content.last()).drop_last();
                        assert forall|p: int| 0 <= p < c2.len() implies keys_unique_entity(
                            #[trigger] c2[p],
                        ) by {
                            if p == i {
                                assert(c2[p] == content[content.len() - 1]);
                            } else {
                                assert(c2[p] == content[p]);
                            }
                        }
                        lemma_keys_changes(c2, cs.drop_first(), ss, fuel);
                    }
                }
            }
        }
    }
}

/// Idempotent reapply: applying a deletion-free property-change list a
/// second time (as re-invoking apply on an uncommitted pending transaction
/// does) succeeds, touches no history, and leaves the same name, the same
/// children and the same property value at every key as the first
/// application.
pub proof fn lemma_reapply_idempotent(e: EntityV, ps: Seq<PropChange>, ss: Seq<StorageV>, fuel: nat)
    requires
        no_deletes(ps),
        unique_keys(e.props),
        sp_apply_props(e, ps, ss, fuel) is Ok,
    ensures
        ({
            let o = sp_apply_props(e, ps, ss, fuel)->Ok_0;
            match sp_apply_props(o.entity, ps, o.storages, fuel) {
                Ok(o2) => {
                    &&& o2.storages == o.storages
                    &&& o2.entity.name == o.entity.name
                    &&& o2.entity.children == o.entity.children
                    &&& forall|k: u32| #[trigger] prop_val(o2.entity.props, k) == prop_val(
                        o.entity.props,
                        k,
                    )
                },
                Err(_) => false,
            }
        }),
{
    let o = sp_apply_props(e, ps, ss, fuel)->Ok_0;
    lemma_apply_props_last_write(e, ps, ss, fuel);
    assert forall|i: int| 0 <= i < ps.len() implies crate::model::find_prop(
        o.entity.props,
        ((#[trigger] ps[i])->Update_0).key,
    ) >= 0 by {
        lemma_last_write_present(ps, i);
        assert(prop_val(o.entity.props, ps[i]->Update_0.key) == last_write(
            ps,
            ps[i]->Update_0.key,
        ));
    }
    lemma_apply_props_all_present(o.entity, ps, o.storages, fuel);
    lemma_apply_props_last_write(o.entity, ps, o.storages, fuel);
}

/// Rebuilding a document by replay yields a content tree whose entities
/// all have unique property keys — the premise under which reapplying a
/// pending transaction is idempotent.
pub proof fn lemma_replay_keys_unique(txs: Seq<Seq<ChangeV>>, n: int, ss: Seq<StorageV>)
    ensures
        ({
            match sp_replay(txs, n, ss) {
                Ok(p) => keys_unique_entities(p.0),
                Err(_) => true,
            }
        }),
    decreases n,
{
    if n <= 0 {
        assert(keys_unique_entities(Seq::<EntityV>::empty()));
    } else {
        lemma_replay_keys_unique(txs, n - 1, ss);
        match sp_replay(txs, n - 1, ss) {
            Ok(p) => {
                lemma_keys_changes(p.0, txs[n - 1], p.1, crate::entity::INSERT_DEPTH as nat);
            }
            Err(_) => {}
        }
    }
}

/// Reapplying a deletion-free property-change list reproduces the first
/// application's entity exactly, property positions included, and touches
/// no history.
pub proof fn lemma_reapply_props_identity(
    e: EntityV,
    ps: Seq<PropChange>,
    ss: Seq<StorageV>,
    fuel: nat,
)
    requires
        no_deletes(ps),
        unique_keys(e.props),
        sp_apply_props(e, ps, ss, fuel) is Ok,
    ensures
        ({
            let o = sp_apply_props(e, ps, ss, fuel)->Ok_0;
            sp_apply_props(o.entity, ps, o.storages, fuel) matches Ok(o2) && o2.entity == o.entity
                && o2.storages == o.storages
        }),
{
    let o = sp_apply_props(e, ps, ss, fuel)->Ok_0;
    lemma_reapply_idempotent(e, ps, ss, fuel);
    lemma_apply_props_last_write(e, ps, ss, fuel);
    assert forall|i: int| 0 <= i < ps.len() implies crate::model::find_prop(
        o.entity.props,
        ((#[trigger] ps[i])->Update_0).key,
    ) >= 0 by {
        lemma_last_write_present(ps, i);
        assert(prop_val(o.entity.props, ps[i]->Update_0.key) == last_write(
            ps,
            ps[i]->Update_0.key,
        ));
    }
    lemma_apply_props_all_present(o.entity, ps, o.storages, fuel);
    let o2 = sp_apply_props(o.entity, ps, o.storages, fuel)->Ok_0;
    assert forall|j: int| 0 <= j < o.entity.props.len() implies #[trigger] o2.entity.props[j]
        == o.entity.props[j] by {
        let k = o.entity.props[j].key;
        crate::model::lemma_find_prop(o.entity.props, k);
        crate::model::lemma_find_prop(o2.entity.props, k);
        assert(crate::model::find_prop(o.entity.props, k) == j);
        assert(prop_val(o2.entity.props, k) == prop_val(o.entity.props, k));
    }
    assert(o2.entity.props =~= o.entity.props);
}

/// Where an entity is found after appending one more entity.
pub proof fn lemma_find_by_seg_push(c: Seq<EntityV>, e: EntityV, seg: u32)
    ensures
        crate::model::find_by_seg(c.push(e), seg) == if crate::model::find_by_seg(c, seg) >= 0 {
            crate::model::find_by_seg(c, seg)
        } else if crate::model::last_seg(e.name) == seg {
            c.len() as int
        } else {
            -1
        },
    decreases c.len(),
{
    if c.len() == 0 {
        assert(c.push(e).drop_first() =~= Seq::<EntityV>::empty());
        assert(crate::model::find_by_seg(Seq::<EntityV>::empty(), seg) == -1);
        assert(c.push(e)[0] == e);
    } else {
        assert(c.push(e)[0] == c[0]);
        assert(c.push(e).drop_first() =~= c.drop_first().push(e));
        lemma_find_by_seg_push(c.drop_first(), e, seg);
    }
}

/// Lookup by trailing segment depends only on the entities' names.
pub proof fn lemma_find_by_seg_names(c1: Seq<EntityV>, c2: Seq<EntityV>, seg: u32)
    requires
        c1.len() == c2.len(),
        forall|j: int| 0 <= j < c1.len() ==> (#[trigger] c1[j]).name == c2[j].name,
    ensures
        crate::model::find_by_seg(c1, seg) == crate::model::find_by_seg(c2, seg),
    decreases c1.len(),
{
    if c1.len() > 0 {
        assert(forall|j: int|
            0 <= j < c1.len() - 1 ==> (#[trigger] c1.drop_first()[j]).name
                == c2.drop_first()[j].name) by {
            assert(forall|j: int|
                0 <= j < c1.len() - 1 ==> (#[trigger] c1.drop_first()[j]) == c1[j + 1]
                    && c2.drop_first()[j] == c2[j + 1]);
        }
        lemma_find_by_seg_names(c1.drop_first(), c2.drop_first(), seg);
    }
}

/// Idempotent reapply of a whole update change: creating or updating an
/// entity with a deletion-free property-change list and then replaying the
/// identical change leaves the content tree and the history cache exactly
/// as the first application left them.  This is what makes re-invoking
/// apply on an uncommitted pending transaction safe for update changes.
pub proof fn lemma_reapply_update_change(
    content: Seq<EntityV>,
    ename: Seq<u32>,
    ps: Seq<PropChange>,
    ss: Seq<StorageV>,
    fuel: nat,
)
    requires
        no_deletes(ps),
        keys_unique_entities(content),
        sp_create_or_update(content, ename, ps, ss, fuel) is Ok,
    ensures
        ({
            let o = sp_create_or_update(content, ename, ps, ss, fuel)->Ok_0;
            sp_create_or_update(o.content, ename, ps, o.storages, fuel) matches Ok(o2)
                && o2.content == o.content && o2.storages == o.storages
        }),
    decreases ename.len(),
{
    let o = sp_create_or_update(content, ename, ps, ss, fuel)->Ok_0;
    if ename.len() > 1 {
        let i = crate::model::find_by_seg(content, ename[0]);
        crate::model::lemma_find_by_seg(content, ename[0]);
        let ch = content[i].children->Some_0;
        lemma_keys_cou(ch, ename.drop_first(), ps, ss, fuel);
        lemma_reapply_update_change(ch, ename.drop_first(), ps, ss, fuel);
        let oc = sp_create_or_update(ch, ename.drop_first(), ps, ss, fuel)->Ok_0;
        let e2 = EntityV { children: Some(oc.content), ..content[i] };
        assert(o.content == content.update(i, e2));
        assert forall|j: int| 0 <= j < content.len() implies (#[trigger] o.content[j]).name
            == content[j].name by {
            if j != i {
                assert(o.content[j] == content[j]);
            }
        }
        lemma_find_by_seg_names(o.content, content, ename[0]);
        assert(o.content[i].children == Some(oc.content));
        let oc2 = sp_create_or_update(oc.content, ename.drop_first(), ps, oc.storages, fuel)->Ok_0;
        assert(sp_create_or_update(o.content, ename, ps, o.storages, fuel) matches Ok(o2)
            && o2.content == o.content.update(
            i,
            EntityV { children: Some(oc2.content), ..o.content[i] },
        ) && o2.storages == oc2.storages);
        assert(EntityV { children: Some(oc2.content), ..o.content[i] } == o.content[i]);
        assert(o.content.update(i, o.content[i]) =~= o.content);
    } else {
        let i = crate::model::find_by_seg(content, ename[0]);
        crate::model::lemma_find_by_seg(content, ename[0]);
        if i >= 0 {
            lemma_apply_props_last_write(content[i], ps, ss, fuel);
            lemma_reapply_props_identity(content[i], ps, ss, fuel);
            let oe = sp_apply_props(content[i], ps, ss, fuel)->Ok_0;
            assert(o.content == content.update(i, oe.entity));
            assert forall|j: int| 0 <= j < content.len() implies (#[trigger] o.content[j]).name
                == content[j].name by {
                if j != i {
                    assert(o.content[j] == content[j]);
                }
            }
            lemma_find_by_seg_names(o.content, content, ename[0]);
            let oe2 = sp_apply_props(oe.entity, ps, oe.storages, fuel)->Ok_0;
            assert(o.content.update(i, oe2.entity) =~= o.content);
        } else {
            let fresh = EntityV { name: seq![ename[0]], props: Seq::empty(), children: None };
            lemma_apply_props_last_write(fresh, ps, ss, fuel);
            lemma_reapply_props_identity(fresh, ps, ss, fuel);
            let oe = sp_apply_props(fresh, ps, ss, fuel)->Ok_0;
            assert(o.content == content.push(oe.entity));
            lemma_find_by_seg_push(content, oe.entity, ename[0]);
            assert(crate::model::find_by_seg(o.content, ename[0]) == content.len());
            let oe2 = sp_apply_props(oe.entity, ps, oe.storages, fuel)->Ok_0;
            assert(o.content.update(content.len() as int, oe2.entity) =~= o.content);
        }
    }
}

/// Idempotent reapply of a pending transaction holding one update change
/// and no property deletions: replaying it a second time, without an
/// intervening commit, leaves the content and the history cache exactly as
/// one application left them.
pub proof fn lemma_reapply_transaction(
    content: Seq<EntityV>,
    ec: crate::model::EntityChangesV,
    ss: Seq<StorageV>,
    fuel: nat,
)
    requires
        no_deletes(ec.props),
        keys_unique_entities(content),
        sp_apply_changes(content, seq![ChangeV::Update(ec)], ss, fuel) is Ok,
    ensures
        ({
            let o = sp_apply_changes(content, seq![ChangeV::Update(ec)], ss, fuel)->Ok_0;
            sp_apply_changes(o.content, seq![ChangeV::Update(ec)], o.storages, fuel) matches Ok(o2)
                && o2.content == o.content && o2.storages == o.storages
        }),
{
    let cs = seq![ChangeV::Update(ec)];
    assert(cs.drop_first() =~= Seq::<ChangeV>::empty());
    assert(cs[0] == ChangeV::Update(ec));
    assert(sp_create_or_update(content, ec.ename, ec.props, ss, fuel) is Ok);
    lemma_reapply_update_change(content, ec.ename, ec.props, ss, fuel);
    let o1 = sp_create_or_update(content, ec.ename, ec.props, ss, fuel)->Ok_0;
    let o = sp_apply_changes(content, cs, ss, fuel)->Ok_0;
    assert(sp_apply_changes(o1.content, cs.drop_first(), o1.storages, fuel) == Ok::<
        ApplyOut,
        DocError,
    >(ApplyOut { content: o1.content, storages: o1.storages, changed: Map::empty() }));
    assert(o.content == o1.content && o.storages == o1.storages);
    let o2 = sp_create_or_update(o1.content, ec.ename, ec.props, o1.storages, fuel)->Ok_0;
    assert(o2.content == o1.content && o2.storages == o1.storages);
    assert(sp_apply_changes(o2.content, cs.drop_first(), o2.storages, fuel) == Ok::<
        ApplyOut,
        DocError,
    >(ApplyOut { content: o2.content, storages: o2.storages, changed: Map::empty() }));
}

/// Reapplying a deletion-free property-change list whose keys it has
/// already written reproduces the entity exactly, whatever the cache: the
/// pure-overwrite pass never reads it.
pub proof fn lemma_reapply_props_identity_any(
    e: EntityV,
    ps: Seq<PropChange>,
    ss: Seq<StorageV>,
    fuel: nat,
    ss2: Seq<StorageV>,
)
    requires
        no_deletes(ps),
        unique_keys(e.props),
        sp_apply_props(e, ps, ss, fuel) is Ok,
    ensures
        ({
            let o = sp_apply_props(e, ps, ss, fuel)->Ok_0;
            sp_apply_props(o.entity, ps, ss2, fuel) matches Ok(o2) && o2.entity == o.entity
                && o2.storages == ss2
        }),
{
    let o = sp_apply_props(e, ps, ss, fuel)->Ok_0;
    lemma_apply_props_last_write(e, ps, ss, fuel);
    assert forall|i: int| 0 <= i < ps.len() implies crate::model::find_prop(
        o.entity.props,
        ((#[trigger] ps[i])->Update_0).key,
    ) >= 0 by {
        lemma_last_write_present(ps, i);
        assert(prop_val(o.entity.props, ps[i]->Update_0.key) == last_write(
            ps,
            ps[i]->Update_0.key,
        ));
    }
    lemma_apply_props_all_present(o.entity, ps, ss2, fuel);
    lemma_apply_props_last_write(o.entity, ps, ss2, fuel);
    let o2 = sp_apply_props(o.entity, ps, ss2, fuel)->Ok_0;
    assert forall|j: int| 0 <= j < o.entity.props.len() implies #[trigger] o2.entity.props[j]
        == o.entity.props[j] by {
        let k = o.entity.props[j].key;
        crate::model::lemma_find_prop(o.entity.props, k);
        crate::model::lemma_find_prop(o2.entity.props, k);
        assert(crate::model::find_prop(o.entity.props, k) == j);
        assert(prop_val(o2.entity.props, k) == if last_write(ps, k) is Some {
            last_write(ps, k)
        } else {
            prop_val(o.entity.props, k)
        });
        assert(prop_val(o.entity.props, k) == if last_write(ps, k) is Some {
            last_write(ps, k)
        } else {
            prop_val(e.props, k)
        });
    }
    assert(o2.entity.props =~= o.entity.props);
}

/// Insertion snapshot: first attaching the insertion key with a document
/// identity materializes, as the entity's children, the replay of that
/// document's committed transactions — concatenated in commit order —
/// from an empty tree: an owned copy fixed at this instant.  No history's
/// committed transactions change in the process, so later commits to the
/// inserted document leave this copy untouched.
pub proof fn lemma_insertion_snapshot(
    e: EntityV,
    p: Rc<crate::property::Value2>,
    d: u32,
    ss: Seq<StorageV>,
    fuel: nat,
)
    requires
        crate::model::find_prop(e.props, p.key) < 0,
        p.key == crate::property::INS_DOC,
        p.value == crate::property::PropData::Doc(d),
        fuel > 0,
        sp_apply_prop(e, PropChange::Update(p), ss, fuel) is Ok,
    ensures
        ({
            let o = sp_apply_prop(e, PropChange::Update(p), ss, fuel)->Ok_0;
            let ss1 = if find_storage(ss, d) >= 0 {
                ss
            } else {
                ss.push(empty_storage(d))
            };
            &&& (sp_apply_changes(
                Seq::empty(),
                concat_all(history_txs(ss, d)),
                ss1,
                (fuel - 1) as nat,
            ) matches Ok(out) && o.entity.children == Some(out.content))
            &&& forall|id: u32| #[trigger] history_txs(o.storages, id) == history_txs(ss, id)
        }),
{
    let j0 = find_storage(ss, d);
    let ss1 = if j0 >= 0 {
        ss
    } else {
        ss.push(empty_storage(d))
    };
    let jj = if j0 >= 0 {
        j0
    } else {
        ss.len() as int
    };
    lemma_find_storage(ss, d);
    assert(ss1[jj].txs == history_txs(ss, d)) by {
        if j0 < 0 {
            assert(ss1[jj].txs =~= Seq::<Seq<ChangeV>>::empty());
        }
    }
    lemma_cong_prop(e, PropChange::Update(p), ss, ss, fuel);
}

/// No property change renames an entity.
pub proof fn lemma_apply_prop_name(e: EntityV, c: PropChange, ss: Seq<StorageV>, fuel: nat)
    ensures
        ({
            match sp_apply_prop(e, c, ss, fuel) {
                Ok(o) => o.entity.name == e.name,
                Err(_) => true,
            }
        }),
{
}

/// No property-change list renames an entity.
pub proof fn lemma_apply_props_name(e: EntityV, ps: Seq<PropChange>, ss: Seq<StorageV>, fuel: nat)
    ensures
        ({
            match sp_apply_props(e, ps, ss, fuel) {
                Ok(o) => o.entity.name == e.name,
                Err(_) => true,
            }
        }),
    decreases ps.len(),
{
    if ps.len() > 0 {
        lemma_apply_prop_name(e, ps[0], ss, fuel);
        match sp_apply_prop(e, ps[0], ss, fuel) {
            Ok(o1) => {
                lemma_apply_props_name(o1.entity, ps.drop_first(), o1.storages, fuel);
            }
            Err(_) => {}
        }
    }
}

/// Update changes addressed to other trailing segments neither move nor
/// modify the entity a segment selects.
pub proof fn lemma_changes_leave_other_seg(
    content: Seq<EntityV>,
    cs: Seq<ChangeV>,
    ss: Seq<StorageV>,
    fuel: nat,
    a: u32,
)
    requires
        forall|i: int|
            0 <= i < cs.len() ==> ((#[trigger] cs[i]) matches ChangeV::Update(ec)
                && ec.ename.len() == 1 && ec.ename[0] != a),
    ensures
        ({
            match sp_apply_changes(content, cs, ss, fuel) {
                Ok(o) => {
                    &&& crate::model::find_by_seg(o.content, a) == crate::model::find_by_seg(
                        content,
                        a,
                    )
                    &&& crate::model::find_by_seg(content, a) >= 0
                        ==> o.content[crate::model::find_by_seg(content, a)] == content[
                    crate::model::find_by_seg(content, a)]
                },
                Err(_) => true,
            }
        }),
    decreases cs.len(),
{
    if cs.len() == 0 {
        return ;
    }
    assert(forall|i: int| 0 <= i < cs.len() - 1 ==> cs.drop_first()[i] == cs[i + 1]);
    let ec = cs[0]->Update_0;
    let b = ec.ename[0];
    let i = crate::model::find_by_seg(content, b);
    crate::model::lemma_find_by_seg(content, b);
    crate::model::lemma_find_by_seg(content, a);
    match sp_create_or_update(content, ec.ename, ec.props, ss, fuel) {
        Ok(o1) => {
            if i >= 0 {
                lemma_apply_props_name(content[i], ec.props, ss, fuel);
                let oe = sp_apply_props(content[i], ec.props, ss, fuel)->Ok_0;
                assert(o1.content == content.update(i, oe.entity));
                assert forall|j: int| 0 <= j < content.len() implies (
                #[trigger] o1.content[j]).name == content[j].name by {
                    if j != i {
                        assert(o1.content[j] == content[j]);
                    }
                }
                lemma_find_by_seg_names(o1.content, content, a);
                if crate::model::find_by_seg(content, a) >= 0 {
                    assert(crate::model::last_seg(content[i].name) == b);
                    assert(o1.content[crate::model::find_by_seg(content, a)] == content[
                    crate::model::find_by_seg(content, a)]);
                }
            } else {
                let fresh = EntityV { name: seq![b], props: Seq::empty(), children: None };
                lemma_apply_props_name(fresh, ec.props, ss, fuel);
                let oe = sp_apply_props(fresh, ec.props, ss, fuel)->Ok_0;
                assert(o1.content == content.push(oe.entity));
                lemma_find_by_seg_push(content, oe.entity, a);
                if crate::model::find_by_seg(content, a) >= 0 {
                    assert(o1.content[crate::model::find_by_seg(content, a)] == content[
                    crate::model::find_by_seg(content, a)]);
                }
            }
            lemma_changes_leave_other_seg(o1.content, cs.drop_first(), o1.storages, fuel, a);
        }
        Err(_) => {}
    }
}

/// Idempotent reapply of a whole pending transaction: a transaction of
/// update changes, each addressing a distinct top-level entity and none
/// deleting a property, replays a second time (as re-invoking apply on an
/// uncommitted pending transaction does) to exactly the content tree and
/// history cache the first replay produced.
pub proof fn lemma_reapply_pending_transaction(
    content: Seq<EntityV>,
    cs: Seq<ChangeV>,
    ss: Seq<StorageV>,
    fuel: nat,
)
    requires
        forall|i: int|
            0 <= i < cs.len() ==> ((#[trigger] cs[i]) matches ChangeV::Update(ec)
                && ec.ename.len() == 1 && no_deletes(ec.props)),
        forall|i: int, j: int|
            0 <= i < j < cs.len() ==> (#[trigger] cs[i])->Update_0.ename[0] != (
            #[trigger] cs[j])->Update_0.ename[0],
        keys_unique_entities(content),
        sp_apply_changes(content, cs, ss, fuel) is Ok,
    ensures
        ({
            let o = sp_apply_changes(content, cs, ss, fuel)->Ok_0;
            sp_apply_changes(o.content, cs, o.storages, fuel) matches Ok(o2) && o2.content
                == o.content && o2.storages == o.storages
        }),
    decreases cs.len(),
{
    if cs.len() == 0 {
        return ;
    }
    assert(forall|i: int| 0 <= i < cs.len() - 1 ==> cs.drop_first()[i] == cs[i + 1]);
    let ec = cs[0]->Update_0;
    let a = ec.ename[0];
    let i = crate::model::find_by_seg(content, a);
    crate::model::lemma_find_by_seg(content, a);
    let o1 = sp_create_or_update(content, ec.ename, ec.props, ss, fuel)->Ok_0;
    let o = sp_apply_changes(content, cs, ss, fuel)->Ok_0;
    let on = sp_apply_changes(o1.content, cs.drop_first(), o1.storages, fuel)->Ok_0;
    assert(o.content == on.content && o.storages == on.storages);
    // The target entity of the head change, inside the first pass's result.
    let t: int = if i >= 0 {
        i
    } else {
        content.len() as int
    };
    let target0 = if i >= 0 {
        content[i]
    } else {
        EntityV { name: seq![a], props: Seq::empty(), children: None }
    };
    let oe = sp_apply_props(target0, ec.props, ss, fuel)->Ok_0;
    assert(o1.content == if i >= 0 {
        content.update(i, oe.entity)
    } else {
        content.push(oe.entity)
    });
    lemma_apply_props_name(target0, ec.props, ss, fuel);
    assert(crate::model::find_by_seg(o1.content, a) == t) by {
        if i >= 0 {
            assert forall|j: int| 0 <= j < content.len() implies (
            #[trigger] o1.content[j]).name == content[j].name by {
                if j != i {
                    assert(o1.content[j] == content[j]);
                }
            }
            lemma_find_by_seg_names(o1.content, content, a);
        } else {
            lemma_find_by_seg_push(content, oe.entity, a);
        }
    }
    assert(o1.content[t] == oe.entity);
    // The tail changes, targeting other segments, leave the head's target
    // in place.
    lemma_changes_leave_other_seg(o1.content, cs.drop_first(), o1.storages, fuel, a);
    crate::model::lemma_find_by_seg(on.content, a);
    assert(crate::model::find_by_seg(on.content, a) == t);
    assert(on.content[t] == oe.entity);
    // Re-applying the head change to the final tree is the identity.
    assert(unique_keys(target0.props)) by {
        if i >= 0 {
            assert(keys_unique_entity(content[i]));
        }
    }
    lemma_reapply_props_identity_any(target0, ec.props, ss, fuel, on.storages);
    let oe2 = sp_apply_props(oe.entity, ec.props, on.storages, fuel)->Ok_0;
    assert(sp_create_or_update(on.content, ec.ename, ec.props, on.storages, fuel) matches Ok(ob)
        && ob.content == on.content.update(t, oe2.entity) && ob.storages == on.storages);
    assert(on.content.update(t, oe2.entity) =~= on.content);
    // Re-applying the tail to the final state is the identity, by
    // induction from the state the head change produced.
    lemma_keys_cou(content, ec.ename, ec.props, ss, fuel);
    lemma_reapply_pending_transaction(o1.content, cs.drop_first(), o1.storages, fuel);
    assert(sp_apply_changes(on.content, cs.drop_first(), on.storages, fuel) matches Ok(ot)
        && ot.content == on.content && ot.storages == on.storages);
}

/// A successful replay means every shorter prefix replays successfully.
pub proof fn lemma_replay_prefix_ok(txs: Seq<Seq<ChangeV>>, m: int, n: int, ss: Seq<StorageV>)
    requires
        0 <= m <= n,
        sp_replay(txs, n, ss) is Ok,
    ensures
        sp_replay(txs, m, ss) is Ok,
    decreases n - m,
{
    if m < n {
        assert(sp_replay(txs, n - 1, ss) is Ok);
        lemma_replay_prefix_ok(txs, m, n - 1, ss);
    }
}

/// Replay reads only the first `n` committed transactions.
pub proof fn lemma_replay_prefix_only(
    txs1: Seq<Seq<ChangeV>>,
    txs2: Seq<Seq<ChangeV>>,
    n: int,
    ss: Seq<StorageV>,
)
    requires
        forall|i: int| 0 <= i < n ==> txs1[i] == txs2[i],
    ensures
        sp_replay(txs1, n, ss) == sp_replay(txs2, n, ss),
    decreases n,
{
    if n > 0 {
        lemma_replay_prefix_only(txs1, txs2, n - 1, ss);
    }
}

/// A document in replay position: its content is the replay of its
/// history's applied prefix against its own cache.  Undo and switch leave
/// the active document in this state, and commit keeps it there.
pub open spec fn replay_position(
    content: Seq<EntityV>,
    my: StorageV,
    others: Seq<StorageV>,
) -> bool {
    sp_replay(my.txs, my.applied, others) matches Ok(p) && p.0 == content
}

/// A replay output replays to itself: the content and cache a successful
/// undo or switch produce are in replay position against the cache they
/// came with.
pub proof fn lemma_replay_position_after_rebuild(txs: Seq<Seq<ChangeV>>, a: int, ss: Seq<StorageV>)
    requires
        sp_replay(txs, a, ss) is Ok,
    ensures
        ({
            let p = sp_replay(txs, a, ss)->Ok_0;
            sp_replay(txs, a, p.1) matches Ok(q) && q.0 == p.0
        }),
{
    let p = sp_replay(txs, a, ss)->Ok_0;
    lemma_cong_replay(txs, a, ss, ss);
    lemma_cong_replay(txs, a, ss, p.1);
}

/// Commit keeps the document in replay position: applying the pending
/// transaction to content in replay position, truncating the history to
/// the applied prefix, and archiving the transaction yields content that
/// is the replay of the grown prefix against the cache the apply left.
pub proof fn lemma_replay_position_after_commit(
    content: Seq<EntityV>,
    txs: Seq<Seq<ChangeV>>,
    a: int,
    others: Seq<StorageV>,
    pending: Seq<ChangeV>,
)
    requires
        0 <= a <= txs.len(),
        sp_replay(txs, a, others) matches Ok(p) && p.0 == content,
        sp_apply_changes(content, pending, others, crate::entity::INSERT_DEPTH as nat) is Ok,
    ensures
        ({
            let o = sp_apply_changes(
                content,
                pending,
                others,
                crate::entity::INSERT_DEPTH as nat,
            )->Ok_0;
            sp_replay(txs.take(a).push(pending), a + 1, o.storages) matches Ok(q) && q.0
                == o.content
        }),
{
    let fuel = crate::entity::INSERT_DEPTH as nat;
    let txs2 = txs.take(a).push(pending);
    let p = sp_replay(txs, a, others)->Ok_0;
    let o = sp_apply_changes(content, pending, others, fuel)->Ok_0;
    lemma_cong_replay(txs, a, others, others);
    lemma_cong_changes(content, pending, others, others, fuel);
    assert forall|id: u32| #[trigger] history_txs(others, id) == history_txs(
        o.storages,
        id,
    ) by {
        assert(history_txs(others, id) == history_txs(o.storages, id));
    }
    lemma_cong_replay(txs, a, others, o.storages);
    let p2 = sp_replay(txs, a, o.storages)->Ok_0;
    lemma_replay_prefix_only(txs2, txs, a, o.storages);
    assert(txs2[a] == pending);
    assert forall|id: u32| #[trigger] history_txs(others, id) == history_txs(p2.1, id) by {
        assert(history_txs(others, id) == history_txs(o.storages, id));
        assert(history_txs(o.storages, id) == history_txs(p2.1, id));
    }
    lemma_cong_changes(content, pending, others, p2.1, fuel);
}

/// Undo/redo round trip, stated for the content a document holds: a
/// document in [`replay_position`] — as `new`, `undo`, `switch` and
/// `commit_transaction` leave it — gets its exact content back after
/// undoing `k` transactions and redoing them.
pub proof fn lemma_undo_redo_restores(
    txs: Seq<Seq<ChangeV>>,
    a: int,
    k: int,
    ss: Seq<StorageV>,
    content: Seq<EntityV>,
)
    requires
        0 <= k <= a <= txs.len(),
        sp_replay(txs, a, ss) matches Ok(p) && p.0 == content,
    ensures
        sp_replay(txs, a - k, ss) is Ok,
        ({
            let undone = sp_replay(txs, a - k, ss)->Ok_0;
            let redone = sp_replay(txs, a, undone.1);
            redone matches Ok(p2) && p2.0 == content
        }),
{
    lemma_undo_redo_round_trip(txs, a, k, ss);
}

/// Undo/redo round trip: for any committed sequence of transactions whose
/// first `a` entries replay successfully, undoing `k` of them (replaying
/// the prefix of `a - k`) and then redoing them (replaying the prefix of
/// `a` against the cache the undo left behind) succeeds and rebuilds
/// content identical to the original replay, for any `k <= a`.
pub proof fn lemma_undo_redo_round_trip(
    txs: Seq<Seq<ChangeV>>,
    a: int,
    k: int,
    ss: Seq<StorageV>,
)
    requires
        0 <= k <= a <= txs.len(),
        sp_replay(txs, a, ss) is Ok,
    ensures
        sp_replay(txs, a - k, ss) is Ok,
        ({
            let undone = sp_replay(txs, a - k, ss)->Ok_0;
            let redone = sp_replay(txs, a, undone.1);
            redone matches Ok(p) && p.0 == sp_replay(txs, a, ss)->Ok_0.0
        }),
{
    lemma_replay_prefix_ok(txs, a - k, a, ss);
    let undone = sp_replay(txs, a - k, ss)->Ok_0;
    lemma_cong_replay(txs, a - k, ss, ss);
    lemma_cong_replay(txs, a, ss, undone.1);
}

} // verus!


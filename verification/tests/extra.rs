use std::rc::Rc;

use d3s::entity::{
    ChangedEntities, DocError, Document, CHG_ADD_PROP, CHG_CREATED, CHG_DELETED, CHG_UPD_PROP,
    START_NAME,
};
use d3s::property::{DocId, PropData, INS_DOC, KT};

pub const COLOR: KT = 101;
pub const TITLE: KT = 102;

/// Pasting a copied entity produces a new name but property values that are
/// reference-equal (the same shared instance) as the source's.
#[test]
fn paste_shares_property_instances() {
    let mut doc = Document::new(1);
    doc.create_entity().add(TITLE, "payload");
    assert!(doc.commit_transaction().is_ok());

    let clipboard = doc.copy(vec![vec![START_NAME]]);
    doc.paste(clipboard);
    assert!(doc.commit_transaction().is_ok());
    assert_eq!(doc.entities(false).count(), 2);

    let src = doc
        .get_entity(vec![START_NAME])
        .unwrap()
        .get_property_ptr(TITLE)
        .unwrap();
    let pasted = doc
        .get_entity(vec![START_NAME + 1])
        .unwrap()
        .get_property_ptr(TITLE)
        .unwrap();
    assert!(Rc::ptr_eq(&src, &pasted));
    assert!(vec![START_NAME] != vec![START_NAME + 1]);
}

/// Each insertion materializes an independent, owned copy: editing one
/// copy changes neither the other copy nor the inserted document itself.
#[test]
fn insertion_snapshot_isolation() {
    let mut doc = Document::new(222);
    doc.create_entity().add(COLOR, 1);
    assert!(doc.commit_transaction().is_ok());

    assert!(doc.switch(111).is_ok());
    doc.create_entity().add(INS_DOC, 222 as DocId);
    doc.create_entity().add(INS_DOC, 222 as DocId);
    assert!(doc.commit_transaction().is_ok());

    // Edit the nested entity of the first copy only.
    doc.update_entity(vec![START_NAME, START_NAME]).add(COLOR, 7);
    assert!(doc.commit_transaction().is_ok());
    assert_eq!(
        doc.get_property::<i32>(vec![START_NAME, START_NAME], COLOR)
            .unwrap(),
        7
    );

    // The second copy and the inserted document itself are unchanged.
    assert_eq!(
        doc.get_property::<i32>(vec![START_NAME + 1, START_NAME], COLOR)
            .unwrap(),
        1
    );
    assert!(doc.switch(222).is_ok());
    assert_eq!(
        doc.get_property::<i32>(vec![START_NAME], COLOR).unwrap(),
        1
    );
}

#[test]
fn undo_error_kinds() {
    let mut doc = Document::new(1);
    assert_eq!(doc.undo(-1), Err(DocError::HistoryUnderflow));
    assert_eq!(doc.undo(1), Err(DocError::HistoryOverflow));

    doc.create_entity().add(COLOR, 7);
    assert!(doc.commit_transaction().is_ok());
    assert_eq!(doc.undo(1), Err(DocError::HistoryOverflow));
    assert_eq!(doc.undo(-2), Err(DocError::HistoryUnderflow));
    assert_eq!(doc.undo(0), Ok(()));
}

/// Undoing k transactions and redoing them restores the content.
#[test]
fn undo_redo_round_trip_deep() {
    let mut doc = Document::new(1);
    doc.create_entity().add(COLOR, 1);
    assert!(doc.commit_transaction().is_ok());
    doc.update_entity(vec![START_NAME]).add(COLOR, 2);
    assert!(doc.commit_transaction().is_ok());
    doc.create_entity().add(COLOR, 30).add(TITLE, "third");
    assert!(doc.commit_transaction().is_ok());

    assert!(doc.undo(-2).is_ok());
    assert_eq!(doc.entities(false).count(), 1);
    assert_eq!(
        doc.get_property::<i32>(vec![START_NAME], COLOR).unwrap(),
        1
    );

    assert!(doc.undo(2).is_ok());
    assert_eq!(doc.entities(false).count(), 2);
    assert_eq!(
        doc.get_property::<i32>(vec![START_NAME], COLOR).unwrap(),
        2
    );
    assert_eq!(
        doc.get_property::<i32>(vec![START_NAME + 1], COLOR).unwrap(),
        30
    );
    assert_eq!(
        doc.get_property::<String>(vec![START_NAME + 1], TITLE)
            .unwrap(),
        "third"
    );
    assert_eq!(doc.history_size(), (3, 3));
}

/// Every change of a transaction is applied in order; a successful
/// deletion does not stop the replay of the changes after it.
#[test]
fn delete_then_create_in_one_transaction() {
    let mut doc = Document::new(1);
    doc.create_entity().add(COLOR, 1);
    assert!(doc.commit_transaction().is_ok());

    doc.delete_entity(vec![START_NAME]);
    doc.create_entity().add(COLOR, 2);
    let changed = doc.commit_transaction().unwrap();

    assert_eq!(doc.entities(false).count(), 1);
    assert_eq!(
        doc.get_property::<i32>(vec![START_NAME + 1], COLOR).unwrap(),
        2
    );
    assert_eq!(changed.get(&vec![START_NAME]), Some(CHG_DELETED));
    assert_eq!(
        changed.get(&vec![START_NAME + 1]),
        Some(CHG_CREATED | CHG_ADD_PROP)
    );
}

#[test]
fn delete_missing_entity_fails() {
    let mut doc = Document::new(1);
    doc.delete_entity(vec![5]);
    assert_eq!(
        doc.commit_transaction().unwrap_err(),
        DocError::EntityNotFound
    );
}

#[test]
fn update_missing_parent_fails() {
    let mut doc = Document::new(1);
    doc.update_entity(vec![7, 0]).add(COLOR, 1);
    assert_eq!(
        doc.commit_transaction().unwrap_err(),
        DocError::EntityNotFound
    );
}

#[test]
fn update_inside_leaf_fails() {
    let mut doc = Document::new(1);
    doc.create_entity().add(COLOR, 1);
    assert!(doc.commit_transaction().is_ok());

    doc.update_entity(vec![START_NAME, 0]).add(COLOR, 2);
    assert_eq!(
        doc.commit_transaction().unwrap_err(),
        DocError::NotAContainer
    );
}

#[test]
fn insertion_key_needs_doc_id() {
    let mut doc = Document::new(1);
    doc.create_entity().add(INS_DOC, 5);
    assert_eq!(
        doc.commit_transaction().unwrap_err(),
        DocError::UnexpectedValueType
    );
}

/// Mutually inserted documents do not recurse forever: the first insertion
/// registers the partner as an empty history in the cache, and that entry
/// is what later insertions resolve to.
#[test]
fn cyclic_insertion_resolves_to_empty() {
    let mut doc = Document::new(222);
    doc.create_entity().add(INS_DOC, 333 as DocId);
    assert!(doc.commit_transaction().is_ok());

    assert!(doc.switch(333).is_ok());
    doc.create_entity().add(INS_DOC, 222 as DocId);
    assert!(doc.commit_transaction().is_ok());

    assert!(doc.switch(111).is_ok());
    doc.create_entity().add(INS_DOC, 222 as DocId);
    assert!(doc.commit_transaction().is_ok());

    // The copy of 222 holds its insertion point for 333, whose nested copy
    // is the empty snapshot cached when 333 was first referenced.
    let e = doc
        .get_entity(vec![START_NAME, START_NAME])
        .unwrap();
    assert_eq!(e.get_property::<DocId>(INS_DOC).unwrap(), 333);
    assert_eq!(e.children.as_ref().unwrap().len(), 0);
}

#[test]
fn changed_entities_flags() {
    let mut doc = Document::new(1);
    doc.create_entity().add(COLOR, 1).add(TITLE, "x");
    let changed = doc.commit_transaction().unwrap();
    assert_eq!(changed.len(), 1);
    assert_eq!(
        changed.get(&vec![START_NAME]),
        Some(CHG_CREATED | CHG_ADD_PROP)
    );

    doc.update_entity(vec![START_NAME]).add(COLOR, 2);
    let changed = doc.commit_transaction().unwrap();
    assert_eq!(changed.get(&vec![START_NAME]), Some(CHG_UPD_PROP));

    doc.delete_entity(vec![START_NAME]);
    let changed = doc.commit_transaction().unwrap();
    assert_eq!(changed.get(&vec![START_NAME]), Some(CHG_DELETED));
    assert_eq!(changed.get(&vec![START_NAME + 1]), None);

    let empty = ChangedEntities::new();
    assert_eq!(empty.len(), 0);
}

/// Committing after an undo discards the undone future transactions.
#[test]
fn commit_truncates_redo_history() {
    let mut doc = Document::new(1);
    doc.create_entity().add(COLOR, 1);
    assert!(doc.commit_transaction().is_ok());
    doc.update_entity(vec![START_NAME]).add(COLOR, 2);
    assert!(doc.commit_transaction().is_ok());
    assert_eq!(doc.history_size(), (2, 2));

    assert!(doc.undo(-1).is_ok());
    doc.update_entity(vec![START_NAME]).add(COLOR, 3);
    assert!(doc.commit_transaction().is_ok());
    assert_eq!(doc.history_size(), (2, 2));
    assert_eq!(
        doc.get_property::<i32>(vec![START_NAME], COLOR).unwrap(),
        3
    );
    // The overwritten future is gone for good.
    assert!(doc.undo(1).is_ok() == false);
}

#[test]
fn delete_property_of_missing_key_is_noop() {
    let mut doc = Document::new(1);
    doc.create_entity().add(COLOR, 1);
    assert!(doc.commit_transaction().is_ok());

    doc.update_entity(vec![START_NAME]).delete(TITLE);
    assert!(doc.commit_transaction().is_ok());
    assert_eq!(
        doc.get_property::<i32>(vec![START_NAME], COLOR).unwrap(),
        1
    );
}

#[test]
fn get_property_wrong_type_is_none() {
    let mut doc = Document::new(1);
    doc.create_entity().add(TITLE, "words");
    assert!(doc.commit_transaction().is_ok());

    assert_eq!(doc.get_property::<i32>(vec![START_NAME], TITLE), None);
    assert_eq!(
        doc.get_property::<String>(vec![START_NAME], TITLE).unwrap(),
        "words"
    );
    let e = doc.get_entity(vec![START_NAME]).unwrap();
    match &e.properties()[0].value {
        PropData::Text(s) => assert_eq!(s, "words"),
        _ => panic!("expected a text payload"),
    }
}

#[test]
fn save_load_delete_frame() {
    let mut doc = Document::new(1);
    let ce = doc.update_entity(vec![0]);
    ce.delete(7).delete(300);
    let mut buf: Vec<u8> = Vec::new();
    ce.save(&mut buf);
    // Eight big-endian count bytes, then per delete a tag byte and four
    // little-endian key bytes.
    assert_eq!(buf, vec![0, 0, 0, 0, 0, 0, 0, 2, 0, 7, 0, 0, 0, 0, 44, 1, 0, 0]);

    let ce2 = doc.update_entity(vec![1]);
    assert!(ce2.load(&buf));
    assert_eq!(ce2.props.len(), 2);
    assert!(matches!(ce2.props[0], d3s::transaction::PropChange::Delete(7)));
    assert!(matches!(ce2.props[1], d3s::transaction::PropChange::Delete(300)));
}

#[test]
fn save_update_frame_has_no_payload() {
    let mut doc = Document::new(1);
    let ce = doc.update_entity(vec![0]);
    ce.add(COLOR, 5);
    let mut buf: Vec<u8> = Vec::new();
    ce.save(&mut buf);
    // An update entry is a bare tag: the key and payload would come from
    // the application's codec registry, which is not part of the core.
    assert_eq!(buf, vec![0, 0, 0, 0, 0, 0, 0, 1, 1]);

    // Such a frame cannot be read back: the entry is shorter than the
    // reader expects, so loading reports failure.
    let ce2 = doc.update_entity(vec![1]);
    assert!(!ce2.load(&buf));
}

/// Names granted by create_entity strictly increase, so a deleted name
/// never comes back.
#[test]
fn counter_survives_switch() {
    let mut doc = Document::new(111);
    doc.create_entity();
    doc.create_entity();
    assert!(doc.commit_transaction().is_ok());

    assert!(doc.switch(222).is_ok());
    doc.create_entity();
    assert!(doc.commit_transaction().is_ok());
    // Each document numbers its entities independently.
    assert!(doc.get_entity(vec![START_NAME]).is_some());
    assert!(doc.get_entity(vec![START_NAME + 1]).is_none());

    assert!(doc.switch(111).is_ok());
    doc.create_entity();
    assert!(doc.commit_transaction().is_ok());
    // The restored counter continues after the names already granted.
    assert!(doc.get_entity(vec![START_NAME + 2]).is_some());
}

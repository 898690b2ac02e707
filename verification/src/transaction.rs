//! Transactions: ordered batches of entity create/update/delete intents.
//!
//! Callers accumulate property-level changes in an [`EntityChanges`] record
//! and entity-level changes in a [`Transaction`]; the document engine replays
//! the transaction against the materialized content.

use vstd::prelude::*;
use std::rc::Rc;

use crate::property;

verus! {

/// A single property-level change inside an entity change record.
pub enum PropChange {
    /// Add the property, or replace the value stored at its key.
    Update(Rc<property::Value2>),
    /// Remove the property with this key (a silent no-op if absent).
    Delete(property::KT),
}

/// Create and/or update one entity: the target name plus the ordered list of
/// property changes to apply to it.
pub struct EntityChanges {
    pub ename: crate::entity::Name,
    pub props: Vec<PropChange>,
}

/// One entity-level change of a transaction.
pub enum Changes {
    /// Create or update an entity.
    Update(EntityChanges),
    /// Delete an entity.
    Delete(crate::entity::Name),
}

/// An ordered batch of changes, pending until applied/committed.
pub struct Transaction {
    pub data: Vec<Changes>,
    /// Seed name for creating new entities; present only while the
    /// transaction is active.
    pub last_id: Option<crate::entity::Name>,
}

impl Clone for PropChange {
    /// Cloning shares the property payload: the clone holds the same
    /// reference-counted instance.
    fn clone(&self) -> (res: Self)
        ensures
            res == *self,
    {
        match self {
            PropChange::Update(p) => PropChange::Update(crate::entity::rc_clone(p)),
            PropChange::Delete(k) => PropChange::Delete(*k),
        }
    }
}

/// Copies a property change list; the clones share the property payloads.
fn clone_props(v: &Vec<PropChange>) -> (r: Vec<PropChange>)
    ensures
        r@ == v@,
{
    let mut r: Vec<PropChange> = Vec::new();
    let mut i: usize = 0;
    while i < v.len()
        invariant
            i <= v.len(),
            r@ == v@.subrange(0, i as int),
        decreases v.len() - i,
    {
        r.push(v[i].clone());
        i = i + 1;
    }
    proof {
        assert(r@ =~= v@);
    }
    r
}

impl Clone for EntityChanges {
    /// The clone records the same target name and the same property changes,
    /// sharing the property payloads.
    fn clone(&self) -> (res: Self)
        ensures
            res@ == self@,
    {
        EntityChanges {
            ename: crate::entity::clone_name(&self.ename),
            props: clone_props(&self.props),
        }
    }
}

impl Clone for Changes {
    /// The clone records the same change, sharing the property payloads.
    fn clone(&self) -> (res: Self)
        ensures
            res@ == self@,
    {
        match self {
            Changes::Update(ec) => Changes::Update(ec.clone()),
            Changes::Delete(n) => Changes::Delete(crate::entity::clone_name(n)),
        }
    }
}

impl EntityChanges {
    /// Serialize this record's property changes into a byte frame, as
    /// [`frame_bytes`] describes.
    pub fn save(&self, w: &mut Vec<u8>)
        ensures
            final(w)@ == old(w)@ + frame_bytes(self.props@),
    {
        let ghost w0 = w@;
        let ghost ps = self.props@;
        let count = self.props.len() as u64;
        w.push((count >> 56) as u8);
        w.push((count >> 48) as u8);
        w.push((count >> 40) as u8);
        w.push((count >> 32) as u8);
        w.push((count >> 24) as u8);
        w.push((count >> 16) as u8);
        w.push((count >> 8) as u8);
        w.push(count as u8);
        proof {
            assert(w@ =~= w0 + count_be_bytes(ps.len() as u64));
        }
        let mut i: usize = 0;
        proof {
            assert(ps.skip(0) =~= ps);
        }
        while i < self.props.len()
            invariant
                i <= self.props.len(),
                w@ + changes_bytes(ps.skip(i as int)) == w0 + frame_bytes(ps),
            decreases self.props.len() - i,
        {
            proof {
                assert(ps.skip(i as int)[0] == ps[i as int]);
                assert(ps.skip(i as int).drop_first() =~= ps.skip(i + 1));
            }
            let ghost wk = w@;
            match &self.props[i] {
                PropChange::Update(_) => {
                    w.push(1);
                    proof {
                        assert(w@ =~= wk + change_bytes(ps[i as int]));
                    }
                }
                PropChange::Delete(key) => {
                    w.push(0);
                    write_key(*key, w);
                    proof {
                        assert(w@ =~= wk + change_bytes(ps[i as int]));
                    }
                }
            }
            proof {
                assert(w@ + changes_bytes(ps.skip(i + 1)) =~= wk + changes_bytes(
                    ps.skip(i as int),
                ));
            }
            i = i + 1;
        }
        proof {
            assert(changes_bytes(ps.skip(ps.len() as int)) =~= Seq::<u8>::empty());
            assert(w@ =~= w@ + changes_bytes(ps.skip(ps.len() as int)));
        }
    }

    /// Parse a byte frame written by [`EntityChanges::save`]'s format and
    /// append the parsed changes to this record, as [`parse_entries`]
    /// describes.  Returns false, possibly after appending some parsed
    /// changes, when the data ends too early.
    pub fn load(&mut self, r: &Vec<u8>) -> (ok: bool)
        ensures
            ({
                let parsed = if r@.len() >= 8 {
                    parse_entries(r@, 8, parse_count(r@) as nat)
                } else {
                    None
                };
                match parsed {
                    Some(p) => ok && final(self).props@ == old(self).props@ + p.0
                        && final(self).ename@ == old(self).ename@,
                    None => !ok,
                }
            }),
    {
        if r.len() < 8 {
            return false;
        }
        let count: u64 = ((r[0] as u64) << 56) | ((r[1] as u64) << 48) | ((r[2] as u64) << 40) | ((
        r[3] as u64) << 32) | ((r[4] as u64) << 24) | ((r[5] as u64) << 16) | ((r[6] as u64) << 8)
            | (r[7] as u64);
        let ghost p0 = self.props@;
        let mut pos: usize = 8;
        let mut n: u64 = count;
        while n > 0
            invariant
                self.ename@ == old(self).ename@,
                pos <= r@.len(),
                n <= count,
                ({
                    let whole = parse_entries(r@, 8, count as nat);
                    match parse_entries(r@, pos as int, n as nat) {
                        Some(p) => whole matches Some(w) && self.props@ + p.0 == p0 + w.0,
                        None => whole is None,
                    }
                }),
            decreases n,
        {
            let ghost propsk = self.props@;
            if pos >= r.len() || r.len() - pos < 5 {
                return false;
            }
            let tag = r[pos];
            let key = match read_key(r, pos + 1) {
                Some(k) => k,
                None => {
                    return false;
                }
            };
            match tag {
                0 => {
                    self.props.push(PropChange::Delete(key));
                }
                _ => {
                    // An update entry (or an unknown tag) carries no
                    // payload the core can decode without the
                    // application's codec registry; it is skipped.
                }
            }
            proof {
                let rest = parse_entries(r@, pos + 5, (n - 1) as nat);
                if rest is Some {
                    let whole = parse_entries(r@, 8, count as nat);
                    assert(propsk + ((if tag == 0 {
                        seq![PropChange::Delete(key)]
                    } else {
                        Seq::<PropChange>::empty()
                    }) + rest->Some_0.0) == p0 + whole->Some_0.0);
                    assert(self.props@ + rest->Some_0.0 =~= propsk + ((if tag == 0 {
                        seq![PropChange::Delete(key)]
                    } else {
                        Seq::<PropChange>::empty()
                    }) + rest->Some_0.0));
                }
            }
            pos = pos + 5;
            n = n - 1;
        }
        proof {
            assert(self.props@ =~= self.props@ + Seq::<PropChange>::empty());
        }
        true
    }

    /// Add a property, or replace the value stored at its key.  The last
    /// write for a key wins at apply time; duplicate entries are legal.
    pub fn add<T: property::IntoProp>(&mut self, key: property::KT, value: T) -> (r: &mut Self)
        ensures
            r.ename@ == old(self).ename@,
            r.props@.len() == old(self).props@.len() + 1,
            r.props@.subrange(0, old(self).props@.len() as int) == old(self).props@,
            (r.props@.last() matches PropChange::Update(p) && p.key == key && p.value@
                == value.prop_spec()),
            *final(self) == *final(r),
    {
        self.props.push(
            PropChange::Update(
                Rc::new(property::Value2 { key: key, value: value.into_prop() }),
            ),
        );
        proof {
            assert(self.props@.subrange(0, old(self).props@.len() as int) =~= old(self).props@);
        }
        self
    }

    /// Remove a property from the entity (a silent no-op at apply time if
    /// the key is absent).
    pub fn delete(&mut self, key: property::KT) -> (r: &mut Self)
        ensures
            r.ename@ == old(self).ename@,
            r.props@ == old(self).props@.push(PropChange::Delete(key)),
            *final(self) == *final(r),
    {
        self.props.push(PropChange::Delete(key));
        self
    }

    /// Copy a property from one entity to the other, reusing the shared
    /// payload instance.  Designed for handing over huge properties, such as
    /// images, without duplicating them.
    pub fn copy(&mut self, from: Rc<property::Value2>) -> (r: &mut Self)
        ensures
            r.ename@ == old(self).ename@,
            r.props@ == old(self).props@.push(PropChange::Update(from)),
            *final(self) == *final(r),
    {
        self.props.push(PropChange::Update(from));
        self
    }
}

/// A 32-bit key as four little-endian bytes.
pub open spec fn key_le_bytes(x: u32) -> Seq<u8> {
    seq![x as u8, (x >> 8) as u8, (x >> 16) as u8, (x >> 24) as u8]
}

/// A 64-bit count as eight big-endian bytes.
pub open spec fn count_be_bytes(x: u64) -> Seq<u8> {
    seq![
        (x >> 56) as u8,
        (x >> 48) as u8,
        (x >> 40) as u8,
        (x >> 32) as u8,
        (x >> 24) as u8,
        (x >> 16) as u8,
        (x >> 8) as u8,
        x as u8,
    ]
}

/// The key held by four little-endian bytes.
pub open spec fn key_of_le_bytes(b0: u8, b1: u8, b2: u8, b3: u8) -> u32 {
    (b0 as u32) | ((b1 as u32) << 8) | ((b2 as u32) << 16) | ((b3 as u32) << 24)
}

/// Writing a key and reading it back yields the key.
pub proof fn lemma_key_round_trip(x: u32)
    ensures
        key_of_le_bytes(
            key_le_bytes(x)[0],
            key_le_bytes(x)[1],
            key_le_bytes(x)[2],
            key_le_bytes(x)[3],
        ) == x,
{
    assert((x as u8) as u32 | (((x >> 8) as u8) as u32) << 8 | (((x >> 16) as u8) as u32) << 16 | ((
    (x >> 24) as u8) as u32) << 24 == x) by (bit_vector);
}

/// The bytes of one serialized property change: a tag byte (`0` delete,
/// `1` update) and, for a delete, the key.  An update's key and payload are
/// written by the application's codec registry, which stands outside this
/// crate; with no codec registered, nothing follows the tag.
pub open spec fn change_bytes(c: PropChange) -> Seq<u8> {
    match c {
        PropChange::Update(_) => seq![1u8],
        PropChange::Delete(k) => seq![0u8] + key_le_bytes(k),
    }
}

/// The bytes of a serialized property change list.
pub open spec fn changes_bytes(ps: Seq<PropChange>) -> Seq<u8>
    decreases ps.len(),
{
    if ps.len() == 0 {
        Seq::empty()
    } else {
        change_bytes(ps[0]) + changes_bytes(ps.drop_first())
    }
}

/// The full frame of a serialized [`EntityChanges`]: the entry count as
/// eight big-endian bytes, then each entry.
pub open spec fn frame_bytes(ps: Seq<PropChange>) -> Seq<u8> {
    count_be_bytes(ps.len() as u64) + changes_bytes(ps)
}

/// Parse `n` serialized entries starting at `pos`: a tag byte and a key for
/// each.  Only a delete entry (`tag == 0`) yields a change; an update's
/// payload would need the application's codec registry, and entries with
/// unknown tags are skipped, as is an update without a codec.  `None` when
/// the data ends too early.
pub open spec fn parse_entries(data: Seq<u8>, pos: int, n: nat) -> Option<(Seq<PropChange>, int)>
    decreases n,
{
    if n == 0 {
        Some((Seq::empty(), pos))
    } else if pos + 5 <= data.len() {
        let tag = data[pos];
        let k = key_of_le_bytes(data[pos + 1], data[pos + 2], data[pos + 3], data[pos + 4]);
        match parse_entries(data, pos + 5, (n - 1) as nat) {
            Some(p) => Some(
                (
                    (if tag == 0 {
                        seq![PropChange::Delete(k)]
                    } else {
                        Seq::empty()
                    }) + p.0,
                    p.1,
                ),
            ),
            None => None,
        }
    } else {
        None
    }
}

/// The count held by the first eight bytes, big endian.
pub open spec fn parse_count(data: Seq<u8>) -> u64 {
    ((data[0] as u64) << 56) | ((data[1] as u64) << 48) | ((data[2] as u64) << 40) | ((
    data[3] as u64) << 32) | ((data[4] as u64) << 24) | ((data[5] as u64) << 16) | ((
    data[6] as u64) << 8) | (data[7] as u64)
}

/// Append a key to the output, as four little-endian bytes.
fn write_key(key: property::KT, w: &mut Vec<u8>)
    ensures
        final(w)@ == old(w)@ + key_le_bytes(key),
{
    w.push(key as u8);
    w.push((key >> 8) as u8);
    w.push((key >> 16) as u8);
    w.push((key >> 24) as u8);
    proof {
        assert(w@ =~= old(w)@ + key_le_bytes(key));
    }
}

/// Read a key from four little-endian bytes at `pos`, if they are there.
fn read_key(r: &Vec<u8>, pos: usize) -> (res: Option<property::KT>)
    ensures
        match res {
            Some(k) => pos + 4 <= r@.len() && k == key_of_le_bytes(
                r@[pos as int],
                r@[pos as int + 1],
                r@[pos as int + 2],
                r@[pos as int + 3],
            ),
            None => pos + 4 > r@.len(),
        },
{
    if r.len() < 4 || pos > r.len() - 4 {
        return None;
    }
    Some(
        (r[pos] as u32) | ((r[pos + 1] as u32) << 8) | ((r[pos + 2] as u32) << 16) | ((r[pos
            + 3] as u32) << 24),
    )
}

/// Count of a change at apply time: one per property change of an update,
/// one for a whole-entity deletion.
pub open spec fn change_len(c: crate::model::ChangeV) -> nat {
    match c {
        crate::model::ChangeV::Update(ec) => ec.props.len(),
        crate::model::ChangeV::Delete(_) => 1,
    }
}

/// Total count of the changes of a transaction.
pub open spec fn tx_len(cs: Seq<crate::model::ChangeV>) -> nat
    decreases cs.len(),
{
    if cs.len() == 0 {
        0
    } else {
        change_len(cs[0]) + tx_len(cs.drop_first())
    }
}

impl Transaction {
    /// Allocate the next entity name from the transaction's counter and
    /// record an update change for it.  The counter only ever increments;
    /// deleting an entity does not free its name.
    pub fn create_entity(&mut self) -> (r: &mut EntityChanges)
        requires
            old(self).last_id matches Some(n) && n@.len() > 0 && n@.last() < u32::MAX,
        ensures
            r.ename@ == old(self).last_id->Some_0@,
            r.props@.len() == 0,
            final(self).data@ == old(self).data@.push(Changes::Update(*final(r))),
            (final(self).last_id matches Some(n2) && n2@ == old(self).last_id->Some_0@.update(
                old(self).last_id->Some_0@.len() - 1,
                (old(self).last_id->Some_0@.last() + 1) as u32,
            )),
    {
        let name = match &self.last_id {
            Some(n) => crate::entity::clone_name(n),
            None => vstd::pervasive::unreached(),
        };
        match &mut self.last_id {
            Some(v) => {
                let last = v.len() - 1;
                let seg = v[last];
                v[last] = seg + 1;
            }
            None => {}
        }
        self.update_entity(name)
    }

    /// Record an update change for an existing (or, at apply time,
    /// not-yet-existing) name.
    pub fn update_entity(&mut self, name: crate::entity::Name) -> (r: &mut EntityChanges)
        ensures
            r.ename@ == name@,
            r.props@.len() == 0,
            final(self).data@ == old(self).data@.push(Changes::Update(*final(r))),
            final(self).last_id == old(self).last_id,
    {
        let ghost d0 = self.data@;
        self.data.push(Changes::Update(EntityChanges { ename: name, props: Vec::new() }));
        let n = self.data.len() - 1;
        proof {
            assert(forall|b: Changes| self.data@.update(n as int, b) =~= d0.push(b));
        }
        let slot = &mut self.data[n];
        match slot {
            Changes::Update(chgs) => chgs,
            Changes::Delete(_) => vstd::pervasive::unreached(),
        }
    }

    /// Record a whole-entity deletion change.
    pub fn delete_entity(&mut self, name: crate::entity::Name)
        ensures
            final(self).data@ == old(self).data@.push(Changes::Delete(name)),
            final(self).last_id == old(self).last_id,
    {
        self.data.push(Changes::Delete(name));
    }

    /// Concatenate the change lists of all the given transactions, in
    /// order, into one transaction.  Used to materialize an inserted
    /// document from its whole history; last write wins by log order.
    pub fn merge(transactions: &Vec<Transaction>) -> (r: Transaction)
        ensures
            crate::model::tx_view(r) == crate::model::concat_all(
                transactions@.map_values(|t: Transaction| crate::model::tx_view(t)),
            ),
            r.last_id is None,
    {
        let ghost whole = transactions@.map_values(|t: Transaction| crate::model::tx_view(t));
        let mut res = Transaction { data: Vec::new(), last_id: None };
        let mut i: usize = 0;
        proof {
            assert(crate::model::tx_view(res) =~= crate::model::concat_all(
                whole.take(0),
            ));
        }
        while i < transactions.len()
            invariant
                i <= transactions.len(),
                res.last_id is None,
                crate::model::tx_view(res) == crate::model::concat_all(whole.take(i as int)),
            decreases transactions.len() - i,
        {
            let tx = &transactions[i];
            let mut j: usize = 0;
            while j < tx.data.len()
                invariant
                    i < transactions.len(),
                    j <= tx.data.len(),
                    res.last_id is None,
                    crate::model::tx_view(res) == crate::model::concat_all(whole.take(i as int))
                        + crate::model::tx_view(*tx).take(j as int),
                decreases tx.data.len() - j,
            {
                let ghost before = crate::model::tx_view(res);
                res.data.push(tx.data[j].clone());
                proof {
                    assert(crate::model::tx_view(res) =~= before.push(tx.data@[j as int]@));
                    assert(crate::model::tx_view(res) =~= crate::model::concat_all(
                        whole.take(i as int),
                    ) + crate::model::tx_view(*tx).take(j + 1));
                }
                j = j + 1;
            }
            proof {
                assert(crate::model::tx_view(*tx).take(tx.data@.len() as int) =~= crate::model::tx_view(
                    *tx,
                ));
                assert(whole.take(i + 1) =~= whole.take(i as int).push(whole[i as int]));
                crate::model::lemma_concat_all_push(whole.take(i as int), whole[i as int]);
            }
            i = i + 1;
        }
        proof {
            assert(whole.take(transactions@.len() as int) =~= whole);
        }
        res
    }

    /// Count all the changes in the transaction; useful for detecting new
    /// changes.
    pub fn len(&self) -> (r: usize)
        requires
            tx_len(crate::model::tx_view(*self)) <= usize::MAX,
        ensures
            r == tx_len(crate::model::tx_view(*self)),
    {
        let ghost whole = crate::model::tx_view(*self);
        let mut changes_count: usize = 0;
        let mut i: usize = 0;
        proof {
            assert(whole.skip(0) =~= whole);
        }
        while i < self.data.len()
            invariant
                i <= self.data.len(),
                changes_count + tx_len(whole.skip(i as int)) == tx_len(whole),
            decreases self.data.len() - i,
        {
            proof {
                assert(whole.skip(i as int).drop_first() =~= whole.skip(i + 1));
                assert(whole.skip(i as int)[0] == whole[i as int]);
            }
            match &self.data[i] {
                Changes::Update(changes) => {
                    changes_count = changes_count + changes.props.len();
                }
                Changes::Delete(_) => {
                    changes_count = changes_count + 1;
                }
            }
            i = i + 1;
        }
        proof {
            assert(whole.skip(whole.len() as int) =~= Seq::<crate::model::ChangeV>::empty());
        }
        changes_count
    }
}

} // verus!

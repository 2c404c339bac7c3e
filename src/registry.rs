//! The registry: the one authoritative mapping from peer identity to last
//! known position. Every read and write is one of four operations, applied
//! one at a time.
use vstd::prelude::*;
use crate::codec::Point;

verus! {

/// The identity of a connected peer: the 128 bits of a random UUID.
pub type PeerId = u128;

/// One registry entry: a peer and its position.
pub type Entry = (PeerId, Point);

/// The position that a new entry holds until its peer sends an update.
pub const ORIGIN: Point = (0, 0);

pub open spec fn present(e: Seq<Entry>, id: PeerId) -> bool {
    exists|i: int| 0 <= i < e.len() && e[i].0 == id
}

/// Where `id` stands in `e`, when it stands there.
pub open spec fn slot(e: Seq<Entry>, id: PeerId) -> int {
    choose|i: int| 0 <= i < e.len() && e[i].0 == id
}

pub open spec fn keys_unique(e: Seq<Entry>) -> bool {
    forall|i: int, j: int|
        0 <= i < e.len() && 0 <= j < e.len() && i != j ==> e[i].0 != e[j].0
}

/// The position held for `id`, if it has an entry.
pub open spec fn position_of(e: Seq<Entry>, id: PeerId) -> Option<Point> {
    if present(e, id) {
        Some(e[slot(e, id)].1)
    } else {
        None
    }
}

/// `Create(id)`: a new entry at the origin; an existing one is reset.
pub open spec fn create_spec(e: Seq<Entry>, id: PeerId) -> Seq<Entry> {
    if present(e, id) {
        e.update(slot(e, id), (id, ORIGIN))
    } else {
        e.push((id, ORIGIN))
    }
}

/// `SetPosition(id, p)`: replaces the position of an existing entry; an
/// update for a peer without an entry is dropped.
pub open spec fn set_spec(e: Seq<Entry>, id: PeerId, p: Point) -> Seq<Entry> {
    if present(e, id) {
        e.update(slot(e, id), (id, p))
    } else {
        e
    }
}

/// `Remove(id)`: deletes the entry if there is one.
pub open spec fn remove_spec(e: Seq<Entry>, id: PeerId) -> Seq<Entry> {
    if present(e, id) {
        e.remove(slot(e, id))
    } else {
        e
    }
}

/// The positions of all entries, in the registry's order.
pub open spec fn positions(e: Seq<Entry>) -> Seq<Point> {
    e.map_values(|x: Entry| x.1)
}

/// A request to the registry.
#[derive(Debug, Clone, Copy, PartialEq, Eq)]
pub enum Operation {
    Create(PeerId),
    SetPosition(PeerId, Point),
    Remove(PeerId),
    Snapshot,
}

/// What one operation does to the entries. A snapshot changes nothing.
pub open spec fn apply_spec(e: Seq<Entry>, op: Operation) -> Seq<Entry> {
    match op {
        Operation::Create(id) => create_spec(e, id),
        Operation::SetPosition(id, p) => set_spec(e, id, p),
        Operation::Remove(id) => remove_spec(e, id),
        Operation::Snapshot => e,
    }
}

/// The entries after a sequence of operations, applied in order.
pub open spec fn apply_all(e: Seq<Entry>, ops: Seq<Operation>) -> Seq<Entry>
    decreases ops.len(),
{
    if ops.len() == 0 {
        e
    } else {
        apply_spec(apply_all(e, ops.drop_last()), ops.last())
    }
}

/// The mapping from peer identity to position, as entries with distinct
/// identities, in the order in which the peers were created.
pub struct Registry {
    entries: Vec<Entry>,
}

impl View for Registry {
    type V = Seq<Entry>;

    closed spec fn view(&self) -> Seq<Entry> {
        self.entries@
    }
}

impl Registry {
    /// No two entries share an identity.
    pub open spec fn wf(&self) -> bool {
        keys_unique(self@)
    }

    /// An empty registry.
    pub fn new() -> (r: Registry)
        ensures
            r@ == Seq::<Entry>::empty(),
            r.wf(),
    {
        Registry { entries: Vec::new() }
    }

    fn find(&self, id: PeerId) -> (r: Option<usize>)
        requires
            self.wf(),
        ensures
            match r {
                Some(i) => present(self@, id) && i == slot(self@, id) && i < self@.len(),
                None => !present(self@, id),
            },
    {
        let mut i: usize = 0;
        while i < self.entries.len()
            invariant
                i <= self@.len(),
                self@ == self.entries@,
                self.wf(),
                forall|j: int| 0 <= j < i ==> self@[j].0 != id,
            decreases self@.len() - i,
        {
            if self.entries[i].0 == id {
                proof {
                    assert(self@[i as int].0 == id);
                    assert(present(self@, id));
                    let s = slot(self@, id);
                    assert(0 <= s < self@.len() && self@[s].0 == id);
                    assert(s == i);
                }
                return Some(i);
            }
            i += 1;
        }
        None
    }

    /// Whether `id` has an entry.
    pub fn contains(&self, id: PeerId) -> (r: bool)
        requires
            self.wf(),
        ensures
            r == present(self@, id),
    {
        self.find(id).is_some()
    }

    /// The number of entries.
    pub fn len(&self) -> (r: usize)
        ensures
            r == self@.len(),
    {
        self.entries.len()
    }

    /// Registers `id` at the origin.
    pub fn create(&mut self, id: PeerId)
        requires
            old(self).wf(),
        ensures
            final(self)@ == create_spec(old(self)@, id),
            present(final(self)@, id),
            final(self).wf(),
    {
        proof {
            lemma_apply_keeps_keys_unique(self@, Operation::Create(id));
            lemma_registered_before_use(self@, id, Seq::empty(), ORIGIN);
        }
        match self.find(id) {
            Some(i) => {
                self.entries.set(i, (id, ORIGIN));
            },
            None => {
                self.entries.push((id, ORIGIN));
            },
        }
    }

    /// Moves the peer `id` to `p`, if it has an entry; returns whether it had.
    pub fn set_position(&mut self, id: PeerId, p: Point) -> (r: bool)
        requires
            old(self).wf(),
        ensures
            final(self)@ == set_spec(old(self)@, id, p),
            r == present(old(self)@, id),
            final(self).wf(),
    {
        proof {
            lemma_apply_keeps_keys_unique(self@, Operation::SetPosition(id, p));
        }
        match self.find(id) {
            Some(i) => {
                self.entries.set(i, (id, p));
                true
            },
            None => false,
        }
    }

    /// Deletes the entry of `id`, if there is one.
    pub fn remove(&mut self, id: PeerId)
        requires
            old(self).wf(),
        ensures
            final(self)@ == remove_spec(old(self)@, id),
            !present(final(self)@, id),
            final(self).wf(),
    {
        proof {
            lemma_apply_keeps_keys_unique(self@, Operation::Remove(id));
            lemma_removed_absent(self@, id);
        }
        if let Some(i) = self.find(id) {
            self.entries.remove(i);
        }
    }

    /// The positions of all entries at this moment.
    pub fn snapshot(&self) -> (r: Vec<Point>)
        ensures
            r@ == positions(self@),
    {
        let mut out: Vec<Point> = Vec::new();
        let mut i: usize = 0;
        while i < self.entries.len()
            invariant
                i <= self@.len(),
                self@ == self.entries@,
                out@ == positions(self@.take(i as int)),
            decreases self@.len() - i,
        {
            out.push(self.entries[i].1);
            proof {
                assert(positions(self@.take(i + 1)) =~= positions(self@.take(i as int)).push(
                    self@[i as int].1,
                ));
            }
            i += 1;
        }
        proof {
            assert(self@.take(self@.len() as int) =~= self@);
        }
        out
    }

    /// Applies one operation; a snapshot request is answered with the
    /// positions, every other operation with nothing.
    pub fn apply(&mut self, op: Operation) -> (r: Option<Vec<Point>>)
        requires
            old(self).wf(),
        ensures
            final(self)@ == apply_spec(old(self)@, op),
            final(self).wf(),
            match r {
                Some(v) => op is Snapshot && v@ == positions(old(self)@),
                None => !(op is Snapshot),
            },
    {
        match op {
            Operation::Create(id) => {
                self.create(id);
                None
            },
            Operation::SetPosition(id, p) => {
                self.set_position(id, p);
                None
            },
            Operation::Remove(id) => {
                self.remove(id);
                None
            },
            Operation::Snapshot => Some(self.snapshot()),
        }
    }
}

/// Every operation keeps the identities of the entries distinct.
pub proof fn lemma_apply_keeps_keys_unique(e: Seq<Entry>, op: Operation)
    requires
        keys_unique(e),
    ensures
        keys_unique(apply_spec(e, op)),
{
    match op {
        Operation::Create(id) => {
            if present(e, id) {
                let s = slot(e, id);
                assert(e[s].0 == id);
            }
        },
        Operation::SetPosition(id, p) => {
            if present(e, id) {
                let s = slot(e, id);
                assert(e[s].0 == id);
            }
        },
        Operation::Remove(id) => {
            if present(e, id) {
                let s = slot(e, id);
                let r = e.remove(s);
                assert forall|i: int, j: int|
                    0 <= i < r.len() && 0 <= j < r.len() && i != j implies r[i].0 != r[j].0 by {
                    let a = if i < s { i } else { i + 1 };
                    let b = if j < s { j } else { j + 1 };
                    assert(r[i] == e[a]);
                    assert(r[j] == e[b]);
                }
            }
        },
        Operation::Snapshot => {},
    }
}


proof fn lemma_slot(e: Seq<Entry>, id: PeerId)
    requires
        present(e, id),
    ensures
        0 <= slot(e, id) < e.len(),
        e[slot(e, id)].0 == id,
{
}

/// After `Remove(id)` the peer has no entry.
proof fn lemma_removed_absent(e: Seq<Entry>, id: PeerId)
    requires
        keys_unique(e),
    ensures
        !present(remove_spec(e, id), id),
{
    if present(e, id) {
        lemma_slot(e, id);
        let s = slot(e, id);
        let r = e.remove(s);
        assert forall|i: int| 0 <= i < r.len() implies r[i].0 != id by {
            let a = if i < s { i } else { i + 1 };
            assert(r[i] == e[a]);
        }
    }
}

/// An operation other than `Remove(id)` leaves the entry of `id` in place.
proof fn lemma_step_keeps_present(e: Seq<Entry>, id: PeerId, op: Operation)
    requires
        keys_unique(e),
        present(e, id),
        op != Operation::Remove(id),
    ensures
        present(apply_spec(e, op), id),
{
    let i = choose|i: int| 0 <= i < e.len() && e[i].0 == id;
    let r = apply_spec(e, op);
    match op {
        Operation::Create(k) => {
            if present(e, k) {
                lemma_slot(e, k);
            }
            assert(r[i].0 == id);
        },
        Operation::SetPosition(k, p) => {
            if present(e, k) {
                lemma_slot(e, k);
            }
            assert(r[i].0 == id);
        },
        Operation::Remove(k) => {
            if present(e, k) {
                lemma_slot(e, k);
                let s = slot(e, k);
                assert(s != i);
                let j = if i < s { i } else { i - 1 };
                assert(r[j] == e[i]);
            }
        },
        Operation::Snapshot => {
            assert(r[i].0 == id);
        },
    }
}

/// An operation other than `Create(id)` gives no entry to an absent `id`.
proof fn lemma_step_keeps_absent(e: Seq<Entry>, id: PeerId, op: Operation)
    requires
        !present(e, id),
        op != Operation::Create(id),
    ensures
        !present(apply_spec(e, op), id),
{
    let r = apply_spec(e, op);
    match op {
        Operation::Create(k) => {
            if present(e, k) {
                lemma_slot(e, k);
            }
            assert forall|i: int| 0 <= i < r.len() implies r[i].0 != id by {
                if i < e.len() && r[i] == e[i] {
                } else {
                    assert(r[i].0 == k);
                }
            }
        },
        Operation::SetPosition(k, p) => {
            if present(e, k) {
                lemma_slot(e, k);
                assert forall|i: int| 0 <= i < r.len() implies r[i].0 != id by {
                    if i != slot(e, k) {
                        assert(r[i] == e[i]);
                    }
                }
            }
        },
        Operation::Remove(k) => {
            if present(e, k) {
                lemma_slot(e, k);
                let s = slot(e, k);
                assert forall|i: int| 0 <= i < r.len() implies r[i].0 != id by {
                    let a = if i < s { i } else { i + 1 };
                    assert(r[i] == e[a]);
                }
            }
        },
        Operation::Snapshot => {},
    }
}

proof fn lemma_entry_stays(e: Seq<Entry>, id: PeerId, ops: Seq<Operation>)
    requires
        keys_unique(e),
        present(e, id),
        forall|k: int| 0 <= k < ops.len() ==> ops[k] != Operation::Remove(id),
    ensures
        present(apply_all(e, ops), id),
        keys_unique(apply_all(e, ops)),
    decreases ops.len(),
{
    if ops.len() > 0 {
        let q = ops.drop_last();
        assert forall|k: int| 0 <= k < q.len() implies q[k] != Operation::Remove(id) by {
            assert(q[k] == ops[k]);
        }
        lemma_entry_stays(e, id, q);
        let m = apply_all(e, q);
        lemma_step_keeps_present(m, id, ops.last());
        lemma_apply_keeps_keys_unique(m, ops.last());
    }
}

proof fn lemma_absence_stays(e: Seq<Entry>, id: PeerId, ops: Seq<Operation>)
    requires
        !present(e, id),
        forall|k: int| 0 <= k < ops.len() ==> ops[k] != Operation::Create(id),
    ensures
        !present(apply_all(e, ops), id),
    decreases ops.len(),
{
    if ops.len() > 0 {
        let q = ops.drop_last();
        assert forall|k: int| 0 <= k < q.len() implies q[k] != Operation::Create(id) by {
            assert(q[k] == ops[k]);
        }
        lemma_absence_stays(e, id, q);
        lemma_step_keeps_absent(apply_all(e, q), id, ops.last());
    }
}

/// Once `Create(id)` has been applied, the first `SetPosition(id, p)` takes
/// effect, whatever operations of other peers come in between, as long as
/// none of them removes `id`.
pub proof fn lemma_registered_before_use(
    e: Seq<Entry>,
    id: PeerId,
    between: Seq<Operation>,
    p: Point,
)
    requires
        keys_unique(e),
        forall|k: int| 0 <= k < between.len() ==> between[k] != Operation::Remove(id),
    ensures
        present(apply_all(create_spec(e, id), between), id),
        position_of(set_spec(apply_all(create_spec(e, id), between), id, p), id) == Some(p),
{
    let c = create_spec(e, id);
    lemma_apply_keeps_keys_unique(e, Operation::Create(id));
    if present(e, id) {
        lemma_slot(e, id);
        assert(c[slot(e, id)].0 == id);
    } else {
        assert(c[e.len() as int].0 == id);
    }
    lemma_entry_stays(c, id, between);
    let m = apply_all(c, between);
    lemma_slot(m, id);
    let s = slot(m, id);
    let m2 = set_spec(m, id, p);
    lemma_apply_keeps_keys_unique(m, Operation::SetPosition(id, p));
    assert(m2[s] == (id, p));
    lemma_slot(m2, id);
}

/// After `Remove(id)`, as long as nothing creates `id` again, it has no
/// entry, its position is unknown, and updates for it change nothing.
pub proof fn lemma_removal_final(e: Seq<Entry>, id: PeerId, later: Seq<Operation>, p: Point)
    requires
        keys_unique(e),
        forall|k: int| 0 <= k < later.len() ==> later[k] != Operation::Create(id),
    ensures
        !present(apply_all(remove_spec(e, id), later), id),
        position_of(apply_all(remove_spec(e, id), later), id) is None,
        set_spec(apply_all(remove_spec(e, id), later), id, p) == apply_all(
            remove_spec(e, id),
            later,
        ),
{
    lemma_removed_absent(e, id);
    lemma_absence_stays(remove_spec(e, id), id, later);
}

/// Removing twice is removing once, and removing a peer without an entry
/// changes nothing.
pub proof fn lemma_remove_idempotent(e: Seq<Entry>, id: PeerId)
    requires
        keys_unique(e),
    ensures
        remove_spec(remove_spec(e, id), id) == remove_spec(e, id),
        !present(e, id) ==> remove_spec(e, id) == e,
{
    lemma_removed_absent(e, id);
}

} // verus!

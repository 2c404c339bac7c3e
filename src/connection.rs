//! The connection worker's decisions: what each outcome of a read or a
//! write on a peer's socket asks of the registry. The socket itself and the
//! loop around it live with the caller.
use vstd::prelude::*;
use crate::codec::{decode_point, point_of, split_bytes, split_on, pieces, NEWLINE};
use crate::registry::{Operation, PeerId};

verus! {

/// What a non-blocking read from the peer's socket gave.
#[derive(Debug, Clone, PartialEq, Eq)]
pub enum ReadOutcome {
    /// These bytes arrived (possibly none).
    Data(Vec<u8>),
    /// Nothing to read this cycle: not an error.
    WouldBlock,
    /// The read failed: the peer is gone.
    Failed,
}

/// The updates that complete records ask for: one `SetPosition` for every
/// record that decodes, in order; a record that does not is ignored.
pub open spec fn updates(id: PeerId, records: Seq<Seq<u8>>) -> Seq<Operation>
    decreases records.len(),
{
    if records.len() == 0 {
        Seq::empty()
    } else {
        let before = updates(id, records.drop_last());
        match point_of(records.last()) {
            Some(p) => before.push(Operation::SetPosition(id, p)),
            None => before,
        }
    }
}

/// One peer's connection: its identity, the bytes of a record not yet
/// complete, and whether it is still active.
pub struct Connection {
    id: PeerId,
    pending: Vec<u8>,
    active: bool,
}

impl Connection {
    pub closed spec fn peer(&self) -> PeerId {
        self.id
    }

    /// The bytes received after the last newline.
    pub closed spec fn partial(&self) -> Seq<u8> {
        self.pending@
    }

    pub closed spec fn live(&self) -> bool {
        self.active
    }

    /// A new, active connection for the peer `id`, with nothing buffered.
    pub fn new(id: PeerId) -> (r: Connection)
        ensures
            r.peer() == id,
            r.partial() == Seq::<u8>::empty(),
            r.live(),
    {
        Connection { id, pending: Vec::new(), active: true }
    }

    /// The identity of the peer.
    pub fn id(&self) -> (r: PeerId)
        ensures
            r == self.peer(),
    {
        self.id
    }

    /// Whether the worker should go on.
    pub fn is_active(&self) -> (r: bool)
        ensures
            r == self.live(),
    {
        self.active
    }

    /// The bytes buffered towards the next record.
    pub fn pending(&self) -> (r: Vec<u8>)
        ensures
            r@ == self.partial(),
    {
        self.pending.clone()
    }

    /// Writing the snapshot to the peer failed: the peer is gone, so the
    /// worker asks for its entry to be removed and stops. A connection that
    /// has stopped asks for nothing more.
    pub fn on_write_failed(&mut self) -> (r: Option<Operation>)
        ensures
            final(self).peer() == old(self).peer(),
            final(self).partial() == old(self).partial(),
            !final(self).live(),
            r == (if old(self).live() {
                Some(Operation::Remove(old(self).peer()))
            } else {
                None::<Operation>
            }),
    {
        if self.active {
            self.active = false;
            Some(Operation::Remove(self.id))
        } else {
            None
        }
    }

    /// Handles the outcome of a read. Received bytes join the buffered
    /// ones; every complete record gives an update, and what follows the
    /// last newline waits for the next read. A failed read removes the
    /// peer and stops the worker.
    pub fn on_read(&mut self, outcome: ReadOutcome) -> (r: Vec<Operation>)
        ensures
            final(self).peer() == old(self).peer(),
            !old(self).live() ==> r@ == Seq::<Operation>::empty() && final(self).partial()
                == old(self).partial() && !final(self).live(),
            old(self).live() ==> match outcome {
                ReadOutcome::Data(bytes) => {
                    let all = split_on(old(self).partial() + bytes@, NEWLINE);
                    &&& final(self).live()
                    &&& final(self).partial() == all.last()
                    &&& r@ == updates(old(self).peer(), all.drop_last())
                },
                ReadOutcome::WouldBlock => {
                    &&& final(self).live()
                    &&& final(self).partial() == old(self).partial()
                    &&& r@ == Seq::<Operation>::empty()
                },
                ReadOutcome::Failed => {
                    &&& !final(self).live()
                    &&& final(self).partial() == old(self).partial()
                    &&& r@ == seq![Operation::Remove(old(self).peer())]
                },
            },
    {
        let mut ops: Vec<Operation> = Vec::new();
        if !self.active {
            return ops;
        }
        match outcome {
            ReadOutcome::Data(bytes) => {
                let mut all = self.pending.clone();
                let mut i: usize = 0;
                while i < bytes.len()
                    invariant
                        i <= bytes@.len(),
                        all@ == self.pending@ + bytes@.take(i as int),
                    decreases bytes@.len() - i,
                {
                    all.push(bytes[i]);
                    proof {
                        assert(bytes@.take(i + 1) =~= bytes@.take(i as int).push(bytes@[i as int]));
                    }
                    i += 1;
                }
                proof {
                    assert(bytes@.take(bytes@.len() as int) =~= bytes@);
                    crate::codec::lemma_split_on_nonempty(all@, NEWLINE);
                }
                let mut parts = split_bytes(all.as_slice(), NEWLINE);
                let ghost whole = pieces(parts@);
                let rest = parts.pop().unwrap();
                proof {
                    assert(pieces(parts@) =~= whole.drop_last());
                }
                let ghost records = whole.drop_last();
                let mut j: usize = 0;
                while j < parts.len()
                    invariant
                        j <= parts@.len(),
                        records == pieces(parts@),
                        ops@ == updates(self.id, records.take(j as int)),
                    decreases parts@.len() - j,
                {
                    proof {
                        assert(records.take(j + 1).drop_last() =~= records.take(j as int));
                        assert(records.take(j + 1).last() == parts@[j as int]@);
                    }
                    if let Ok(p) = decode_point(parts[j].as_slice()) {
                        ops.push(Operation::SetPosition(self.id, p));
                    }
                    j += 1;
                }
                proof {
                    assert(records.take(parts@.len() as int) =~= records);
                }
                self.pending = rest;
                ops
            },
            ReadOutcome::WouldBlock => ops,
            ReadOutcome::Failed => {
                self.active = false;
                ops.push(Operation::Remove(self.id));
                proof {
                    assert(ops@ =~= seq![Operation::Remove(self.id)]);
                }
                ops
            },
        }
    }
}

} // verus!

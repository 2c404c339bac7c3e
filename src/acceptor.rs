//! The acceptor: mints a fresh identity for every accepted connection and
//! registers it before the connection's worker starts.
use vstd::prelude::*;
use std::collections::HashSet;
use crate::registry::{PeerId, Registry, create_spec, present, ORIGIN, lemma_registered_before_use};

verus! {

broadcast use vstd::std_specs::hash::group_hash_axioms;

/// Relies on `uuid::Uuid::new_v4`, read as its 128 bits through
/// `Uuid::as_u128`: a random identity, of which nothing is promised. It
/// panics only where the operating system has no random numbers to give.
#[verifier::external_body]
fn random_id() -> (r: PeerId) {
    uuid::Uuid::new_v4().as_u128()
}

/// How many random identities `accept` draws before it gives up.
pub const MAX_DRAWS: usize = 8;

/// Mints peer identities: every identity it hands out is one it never
/// handed out before, even after that peer has gone.
pub struct Acceptor {
    minted: HashSet<PeerId>,
    issued: Ghost<Seq<PeerId>>,
}

impl View for Acceptor {
    type V = Seq<PeerId>;

    /// The identities handed out so far, oldest first.
    closed spec fn view(&self) -> Seq<PeerId> {
        self.issued@
    }
}

impl Acceptor {
    /// The identities handed out are pairwise distinct.
    pub closed spec fn wf(&self) -> bool {
        &&& self.issued@.no_duplicates()
        &&& forall|x: PeerId| self.minted@.contains(x) <==> self.issued@.contains(x)
    }

    /// However many connections were accepted, the identities handed out to
    /// them are pairwise distinct.
    pub proof fn lemma_issued_distinct(&self)
        requires
            self.wf(),
        ensures
            self@.no_duplicates(),
    {
    }

    /// An acceptor that has handed out nothing.
    pub fn new() -> (r: Acceptor)
        ensures
            r@ == Seq::<PeerId>::empty(),
            r.wf(),
    {
        Acceptor { minted: HashSet::new(), issued: Ghost(Seq::empty()) }
    }

    /// Registers `candidate` as the identity of a new connection, unless it
    /// was handed out before: then nothing changes and the result is `None`.
    pub fn register(&mut self, registry: &mut Registry, candidate: PeerId) -> (r: Option<PeerId>)
        requires
            old(self).wf(),
            old(registry).wf(),
        ensures
            final(self).wf(),
            final(registry).wf(),
            match r {
                Some(id) => {
                    &&& id == candidate
                    &&& !old(self)@.contains(id)
                    &&& final(self)@ == old(self)@.push(id)
                    &&& final(registry)@ == create_spec(old(registry)@, id)
                    &&& present(final(registry)@, id)
                },
                None => {
                    &&& old(self)@.contains(candidate)
                    &&& final(self)@ == old(self)@
                    &&& final(registry)@ == old(registry)@
                },
            },
    {
        let ghost old_minted = self.minted@;
        if self.minted.contains(&candidate) {
            return None;
        }
        self.minted.insert(candidate);
        proof {
            let old_issued = self.issued@;
            assert(!old_minted.contains(candidate));
            assert(self.minted@ == old_minted.insert(candidate));
            assert(!old_issued.contains(candidate));
            assert(old_issued.push(candidate).no_duplicates());
            self.issued = Ghost(old_issued.push(candidate));
            assert forall|x: PeerId| self.minted@.contains(x) <==> self.issued@.contains(x) by {
                if x != candidate && old_issued.push(candidate).contains(x) {
                    let k = choose|k: int| 0 <= k < old_issued.len() + 1 && old_issued.push(candidate)[k] == x;
                    assert(old_issued[k] == x);
                }
                if old_issued.contains(x) {
                    let k = choose|k: int| 0 <= k < old_issued.len() && old_issued[k] == x;
                    assert(old_issued.push(candidate)[k] == x);
                }
                assert(old_issued.push(candidate)[old_issued.len() as int] == candidate);
            }
        }
        registry.create(candidate);
        proof {
            lemma_registered_before_use(old(registry)@, candidate, Seq::empty(), ORIGIN);
        }
        Some(candidate)
    }

    /// Mints a fresh identity for a new connection and registers it at the
    /// origin. Gives `None` only where every one of `MAX_DRAWS` random
    /// identities had been handed out before, so never on an acceptor that
    /// has handed out nothing.
    pub fn accept(&mut self, registry: &mut Registry) -> (r: Option<PeerId>)
        requires
            old(self).wf(),
            old(registry).wf(),
        ensures
            final(self).wf(),
            final(registry).wf(),
            match r {
                Some(id) => {
                    &&& !old(self)@.contains(id)
                    &&& final(self)@ == old(self)@.push(id)
                    &&& final(registry)@ == create_spec(old(registry)@, id)
                    &&& present(final(registry)@, id)
                },
                None => {
                    &&& old(self)@.len() > 0
                    &&& final(self)@ == old(self)@
                    &&& final(registry)@ == old(registry)@
                },
            },
    {
        let mut draws: usize = 0;
        while draws < MAX_DRAWS
            invariant
                self.wf(),
                registry.wf(),
                self@ == old(self)@,
                registry@ == old(registry)@,
                draws > 0 ==> self@.len() > 0,
            decreases MAX_DRAWS - draws,
        {
            let candidate = random_id();
            if let Some(id) = self.register(registry, candidate) {
                return Some(id);
            }
            draws += 1;
        }
        None
    }
}

} // verus!

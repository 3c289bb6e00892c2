//! The payloads that a store or a transaction was handed.

use vstd::prelude::*;

use crate::io::IoBackend;
use crate::mount::{all_payloads, own_records};
use crate::object::ObjectIndex;
use crate::transaction::committed;

verus! {

/// The payloads that a store over a transport of the type `B` was handed so far. The set
/// is not stored. It grows only by payloads that are in hand, or in the files of such a
/// transport: nothing outside this module can put another into it.
pub struct Tried<B: IoBackend> {
    set: Ghost<Set<Seq<u8>>>,
    over: Ghost<Option<B>>,
}

impl<B: IoBackend> View for Tried<B> {
    type V = Set<Seq<u8>>;

    closed spec fn view(&self) -> Set<Seq<u8>> {
        self.set@
    }
}

impl<B: IoBackend> Tried<B> {
    /// Nothing yet.
    pub fn none() -> (r: Tried<B>)
        ensures
            r@ == Set::<Seq<u8>>::empty(),
    {
        Tried { set: Ghost(Set::empty()), over: Ghost(None) }
    }

    /// One payload more.
    pub fn note(&mut self, payload: &Vec<u8>)
        ensures
            final(self)@ == old(self)@.insert(payload@),
    {
        self.set = Ghost(self.set@.insert(payload@));
    }

    /// What was handed over elsewhere.
    pub fn absorb(&mut self, other: &Tried<B>)
        ensures
            final(self)@ == old(self)@.union(other@),
    {
        self.set = Ghost(self.set@.union(other.set@));
    }

    /// The objects that an index places in the files of a transport.
    pub fn indexed(io: &B, index: &ObjectIndex) -> (r: Tried<B>)
        ensures
            r@ == committed(io.segments(), index@),
    {
        Tried { set: Ghost(committed(io.segments(), index@)), over: Ghost(None) }
    }

    /// The payloads of the records in the files of a transport, of which `seqs` are
    /// scanned.
    pub fn recorded(io: &B, seqs: &Vec<u64>, limit: u64) -> (r: Tried<B>)
        ensures
            r@ == all_payloads(own_records(io.segments(), seqs@, limit as nat)),
    {
        Tried {
            set: Ghost(all_payloads(own_records(io.segments(), seqs@, limit as nat))),
            over: Ghost(None),
        }
    }
}

} // verus!

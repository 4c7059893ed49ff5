//! An append-only blob file for large immutable serialized bodies.
//!
//! Bodies are only ever appended; a location handle names one body. Reading
//! through a location trusts that the caller got it from an append on this
//! file — the engine's invariants carry that.

use vstd::prelude::*;
use crate::core_types::LocationInFile;

verus! {

/// An append-only file of serialized bodies.
#[derive(Clone, Debug)]
pub struct BlobFile {
    pub bodies: Vec<Vec<u8>>,
}

impl View for BlobFile {
    type V = Seq<Seq<u8>>;

    /// The bodies held, in append order.
    open spec fn view(&self) -> Seq<Seq<u8>> {
        self.bodies@.map_values(|b: Vec<u8>| b@)
    }
}

impl BlobFile {
    /// An empty file.
    pub fn new() -> (r: BlobFile)
        ensures
            r@ == Seq::<Seq<u8>>::empty(),
    {
        let r = BlobFile { bodies: Vec::new() };
        proof {
            assert(r@ =~= Seq::<Seq<u8>>::empty());
        }
        r
    }

    /// Appends a body and returns its location.
    pub fn append(&mut self, body: Vec<u8>) -> (r: LocationInFile)
        ensures
            final(self)@ == old(self)@.push(body@),
            r.offset == old(self)@.len(),
            r.len == body@.len(),
    {
        let offset: u64 = self.bodies.len() as u64;
        let len: u64 = body.len() as u64;
        self.bodies.push(body);
        proof {
            assert(self@ =~= old(self)@.push(self.bodies@[self.bodies@.len() - 1]@));
        }
        LocationInFile { offset, len }
    }

    /// The body at a location. Trusts that the location came from an append
    /// on this file; the caller enforces that.
    pub fn get_unchecked(&self, location: LocationInFile) -> (r: Vec<u8>)
        requires
            location.offset < self@.len(),
        ensures
            r@ == self@[location.offset as int],
    {
        let n: usize = self.bodies.len();
        proof {
            assert(self@.len() == self.bodies@.len());
        }
        let body = &self.bodies[location.offset as usize];
        let mut r: Vec<u8> = Vec::new();
        let mut i: usize = 0;
        while i < body.len()
            invariant
                i <= body@.len(),
                body@ == self.bodies@[location.offset as int]@,
                r@ == body@.subrange(0, i as int),
            decreases body@.len() - i,
        {
            r.push(body[i]);
            i = i + 1;
            assert(r@ =~= body@.subrange(0, i as int));
        }
        assert(r@ =~= body@);
        r
    }
}

} // verus!

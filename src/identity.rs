//! Stable change identities, allocated from a counter at each storage root
//! and independent of any content.
use vstd::prelude::*;
use crate::bytes::{be64, lemma_be64_injective, push_be64};
use crate::hasher::{hex_of, lemma_hex_injective, to_hex};
use crate::revision::ChangeId;

verus! {

/// The name of the change allocated `n`-th: 16 lowercase hex digits.
pub open spec fn change_name(n: u64) -> Seq<char> {
    hex_of(be64(n))
}

/// Distinct allocations give distinct names.
pub proof fn lemma_change_name_injective(a: u64, b: u64)
    requires
        change_name(a) == change_name(b),
    ensures
        a == b,
{
    lemma_hex_injective(be64(a), be64(b));
    lemma_be64_injective(a, b);
}

/// Hands out change ids, each one once.
pub struct ChangeIdAllocator {
    next: u64,
}

impl ChangeIdAllocator {
    /// How many ids were handed out so far.
    pub closed spec fn issued(&self) -> u64 {
        self.next
    }

    /// An allocator that has handed out nothing.
    pub fn new() -> (a: ChangeIdAllocator)
        ensures
            a.issued() == 0,
    {
        ChangeIdAllocator { next: 0 }
    }

    /// The id that the next `allocate` hands out.
    pub fn peek(&self) -> (c: ChangeId)
        requires
            self.issued() < u64::MAX,
        ensures
            c@ == change_name(self.issued()),
    {
        let mut b: Vec<u8> = Vec::new();
        push_be64(&mut b, self.next);
        assert(b@ =~= be64(self.next));
        ChangeId(to_hex(b.as_slice()))
    }

    /// A fresh change id, different from every id handed out before.
    pub fn allocate(&mut self) -> (c: ChangeId)
        requires
            old(self).issued() < u64::MAX,
        ensures
            c@ == change_name(old(self).issued()),
            final(self).issued() == old(self).issued() + 1,
            forall|k: u64| k < old(self).issued() ==> change_name(k) != c@,
    {
        let c = self.peek();
        proof {
            assert forall|k: u64| k < self.next implies change_name(k) != c@ by {
                if change_name(k) == c@ {
                    lemma_change_name_injective(k, self.next);
                }
            }
        }
        self.next = self.next + 1;
        c
    }
}

} // verus!

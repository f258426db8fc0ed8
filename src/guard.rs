//! The claim registry: which bytes of a chunk's buffer are held for writing.
//! A claim covers a whole range of bytes or none of it.

use vstd::prelude::*;

verus! {

/// One flag per byte of the buffer it guards: set while some writer holds
/// that byte.
pub struct MutationGuard {
    claimed: Vec<bool>,
}

/// No byte of `start..end` is held in `flags`.
pub open spec fn range_free(flags: Seq<bool>, start: int, end: int) -> bool {
    forall|q: int| start <= q < end ==> !#[trigger] flags[q]
}

/// Every byte of `start..end` is held in `flags`.
pub open spec fn range_held(flags: Seq<bool>, start: int, end: int) -> bool {
    forall|q: int| start <= q < end ==> #[trigger] flags[q]
}

/// `flags` with each byte of `start..end` set to `held`, the rest kept.
pub open spec fn with_range(flags: Seq<bool>, start: int, end: int, held: bool) -> Seq<bool> {
    Seq::new(flags.len(), |q: int| if start <= q < end { held } else { flags[q] })
}

impl View for MutationGuard {
    type V = Seq<bool>;

    closed spec fn view(&self) -> Seq<bool> {
        self.claimed@
    }
}

impl MutationGuard {
    /// A registry for a buffer of `len` bytes, with nothing claimed.
    pub fn new(len: usize) -> (r: MutationGuard)
        ensures
            r@.len() == len,
            range_free(r@, 0, len as int),
    {
        let mut claimed: Vec<bool> = Vec::with_capacity(len);
        let mut i: usize = 0;
        while i < len
            invariant
                i <= len,
                claimed@.len() == i,
                range_free(claimed@, 0, i as int),
            decreases len - i,
        {
            claimed.push(false);
            i = i + 1;
        }
        MutationGuard { claimed }
    }

    /// The number of bytes guarded.
    pub fn len(&self) -> (r: usize)
        ensures
            r == self@.len(),
    {
        self.claimed.len()
    }

    /// Claims every byte of `start..end` if none of them is held, and
    /// otherwise claims nothing. Returns whether the claim was made.
    pub fn try_claim(&mut self, start: usize, end: usize) -> (r: bool)
        requires
            start <= end <= old(self)@.len(),
        ensures
            r == range_free(old(self)@, start as int, end as int),
            r ==> final(self)@ == with_range(old(self)@, start as int, end as int, true),
            !r ==> final(self)@ == old(self)@,
    {
        let mut q: usize = start;
        while q < end
            invariant
                start <= q <= end,
                end <= self.claimed@.len(),
                range_free(self.claimed@, start as int, q as int),
            decreases end - q,
        {
            if self.claimed[q] {
                return false;
            }
            q = q + 1;
        }
        let ghost before = self.claimed@;
        let mut q: usize = start;
        while q < end
            invariant
                start <= q <= end,
                end <= before.len(),
                self.claimed@ == with_range(before, start as int, q as int, true),
            decreases end - q,
        {
            self.claimed.set(q, true);
            q = q + 1;
            assert(self.claimed@ =~= with_range(before, start as int, q as int, true));
        }
        assert(before =~= with_range(before, start as int, start as int, true));
        true
    }

    /// Gives back every byte of `start..end`, which the caller holds.
    pub fn release(&mut self, start: usize, end: usize)
        requires
            start <= end <= old(self)@.len(),
            range_held(old(self)@, start as int, end as int),
        ensures
            final(self)@ == with_range(old(self)@, start as int, end as int, false),
    {
        let ghost before = self.claimed@;
        let mut q: usize = start;
        assert(before =~= with_range(before, start as int, start as int, false));
        while q < end
            invariant
                start <= q <= end,
                end <= before.len(),
                self.claimed@ == with_range(before, start as int, q as int, false),
            decreases end - q,
        {
            self.claimed.set(q, false);
            q = q + 1;
            assert(self.claimed@ =~= with_range(before, start as int, q as int, false));
        }
    }
}

/// Claims on ranges that share a byte (the two ranges `s1..e1` and `s2..e2`
/// overlap) exclude each other: once the first is
/// granted, the second is refused. Claims on disjoint ranges do not: once the
/// first is granted, the second is still free.
pub proof fn lemma_claims_exclusive(
    flags: Seq<bool>,
    s1: int,
    e1: int,
    s2: int,
    e2: int,
)
    requires
        0 <= s1 <= e1 <= flags.len(),
        0 <= s2 <= e2 <= flags.len(),
        range_free(flags, s1, e1),
    ensures
        (s1 < e1 && s2 < e2 && s1 < e2 && s2 < e1) ==> !range_free(
            with_range(flags, s1, e1, true),
            s2,
            e2,
        ),
        (e1 <= s2 || e2 <= s1) ==> (range_free(with_range(flags, s1, e1, true), s2, e2)
            <==> range_free(flags, s2, e2)),
{
    let after = with_range(flags, s1, e1, true);
    if s1 < e1 && s2 < e2 && s1 < e2 && s2 < e1 {
        let q = if s1 < s2 { s2 } else { s1 };
        assert(after[q]);
    }
    if e1 <= s2 || e2 <= s1 {
        assert forall|q: int| s2 <= q < e2 implies after[q] == flags[q] by {}
    }
}

} // verus!

//! The snapshot store: an immutable, paged record of the electorate and the
//! candidate set for one round, together with the paging index that maps a
//! voter identity to the page and offset that hold it. The index is a
//! precomputed reverse map (a sorted arena, looked up by bisection), not a
//! per-voter scan across pages.

use vstd::prelude::*;
use crate::{AccountId, VoterRecord, MAX_VOTES_PER_VOTER};

verus! {

/// The paged electorate and candidate set of one round.
pub struct Snapshot {
    /// One ordered list of voters per page.
    pub voter_pages: Vec<Vec<VoterRecord>>,
    /// The flat, ordered candidate list.
    pub targets: Vec<AccountId>,
    /// The number of winners the round asks for.
    pub desired_targets: u32,
    /// The reverse paging index: `(voter, page, offset)`, sorted by voter.
    pub arena: Vec<(AccountId, u32, u32)>,
}

/// The voter stored at page `p`, offset `i`.
pub open spec fn voter_at(pages: Seq<Vec<VoterRecord>>, p: int, i: int) -> VoterRecord {
    pages[p]@[i]
}

/// Whether `who` is a voter of some page.
pub open spec fn voter_in_pages(pages: Seq<Vec<VoterRecord>>, who: AccountId) -> bool {
    exists|p: int, i: int|
        0 <= p < pages.len() && 0 <= i < pages[p]@.len() && voter_at(pages, p, i).who == who
}

/// Well-formedness of the paged electorate: every voter appears in exactly
/// one place, every target is unique, and the fixed bounds of the compact
/// encoding hold.
pub open spec fn pages_wf(pages: Seq<Vec<VoterRecord>>, targets: Seq<AccountId>) -> bool {
    &&& forall|p1: int, i1: int, p2: int, i2: int|
        0 <= p1 < pages.len() && 0 <= i1 < pages[p1]@.len() && 0 <= p2 < pages.len() && 0 <= i2
            < pages[p2]@.len() && (p1, i1) != (p2, i2)
            ==> voter_at(pages, p1, i1).who != voter_at(pages, p2, i2).who
    &&& forall|i: int, j: int| 0 <= i < j < targets.len() ==> targets[i] != targets[j]
    &&& forall|p: int| 0 <= p < pages.len() ==> (#[trigger] pages[p])@.len() <= u32::MAX
    &&& forall|p: int, i: int|
        0 <= p < pages.len() && 0 <= i < pages[p]@.len()
            ==> voter_at(pages, p, i).votes@.len() <= MAX_VOTES_PER_VOTER
    &&& pages.len() <= u32::MAX
    &&& targets.len() <= u16::MAX as int + 1
    &&& total_voters(pages) <= u32::MAX
}

/// The number of voters across all pages.
pub open spec fn total_voters(pages: Seq<Vec<VoterRecord>>) -> int
    decreases pages.len(),
{
    if pages.len() == 0 {
        0
    } else {
        total_voters(pages.drop_last()) + pages.last()@.len()
    }
}

/// A prefix of the pages holds no more voters than all of them.
pub proof fn lemma_total_voters_prefix(pages: Seq<Vec<VoterRecord>>, k: int)
    requires
        0 <= k <= pages.len(),
    ensures
        0 <= total_voters(pages.take(k)) <= total_voters(pages),
    decreases pages.len(),
{
    if k == pages.len() {
        assert(pages.take(k) =~= pages);
        lemma_total_voters_nonneg(pages);
    } else {
        assert(pages.drop_last().take(k) =~= pages.take(k));
        lemma_total_voters_prefix(pages.drop_last(), k);
    }
}

/// The voter count is never negative.
pub proof fn lemma_total_voters_nonneg(pages: Seq<Vec<VoterRecord>>)
    ensures
        total_voters(pages) >= 0,
    decreases pages.len(),
{
    if pages.len() > 0 {
        lemma_total_voters_nonneg(pages.drop_last());
    }
}

impl Snapshot {
    /// The arena indexes exactly the voters of the pages.
    pub open spec fn arena_wf(self) -> bool {
        &&& forall|k: int| 0 <= k < self.arena@.len() ==> {
            let e = #[trigger] self.arena@[k];
            &&& (e.1 as int) < self.voter_pages@.len()
            &&& (e.2 as int) < self.voter_pages@[e.1 as int]@.len()
            &&& voter_at(self.voter_pages@, e.1 as int, e.2 as int).who == e.0
        }
        &&& forall|k1: int, k2: int|
            0 <= k1 < k2 < self.arena@.len()
                ==> (#[trigger] self.arena@[k1]).0 < (#[trigger] self.arena@[k2]).0
        &&& forall|p: int, i: int|
            0 <= p < self.voter_pages@.len() && 0 <= i < self.voter_pages@[p]@.len()
                ==> voter_in_arena(self.arena@, voter_at(self.voter_pages@, p, i).who)
    }

    /// Snapshot well-formedness: paged electorate plus index.
    pub open spec fn wf(self) -> bool {
        &&& pages_wf(self.voter_pages@, self.targets@)
        &&& self.arena_wf()
    }

    /// Number of pages.
    pub fn page_count(&self) -> (r: u32)
        requires
            self.wf(),
        ensures
            r == self.voter_pages@.len(),
    {
        self.voter_pages.len() as u32
    }

    /// The voters of page `page`, or nothing for an unknown page.
    pub fn voters(&self, page: u32) -> (r: Option<&Vec<VoterRecord>>)
        ensures
            (page as int) < self.voter_pages@.len() ==> r == Some(
                &self.voter_pages@[page as int],
            ),
            (page as int) >= self.voter_pages@.len() ==> r.is_none(),
    {
        if (page as usize) < self.voter_pages.len() {
            Some(&self.voter_pages[page as usize])
        } else {
            None
        }
    }

    /// The flat candidate list.
    pub fn targets(&self) -> (r: &Vec<AccountId>)
        ensures
            r == &self.targets,
    {
        &self.targets
    }

    /// The desired winner count.
    pub fn desired_targets(&self) -> (r: u32)
        ensures
            r == self.desired_targets,
    {
        self.desired_targets
    }

    /// Builds a snapshot from its pages, erecting the reverse paging index.
    #[verifier::loop_isolation(false)]
    pub fn seal(
        voter_pages: Vec<Vec<VoterRecord>>,
        targets: Vec<AccountId>,
        desired_targets: u32,
    ) -> (r: Snapshot)
        requires
            pages_wf(voter_pages@, targets@),
        ensures
            r.wf(),
            r.voter_pages == voter_pages,
            r.targets == targets,
            r.desired_targets == desired_targets,
    {
        let np = voter_pages.len();
        let mut arena: Vec<(AccountId, u32, u32)> = Vec::new();
        let mut p: usize = 0;
        while p < np
            invariant
                p <= np,
                np == voter_pages@.len(),
                pages_wf(voter_pages@, targets@),
                forall|k: int| 0 <= k < arena@.len() ==> {
                    let e = #[trigger] arena@[k];
                    &&& (e.1 as int) < voter_pages@.len()
                    &&& (e.2 as int) < voter_pages@[e.1 as int]@.len()
                    &&& voter_at(voter_pages@, e.1 as int, e.2 as int).who == e.0
                },
                forall|k1: int, k2: int|
                    0 <= k1 < k2 < arena@.len()
                        ==> (#[trigger] arena@[k1]).0 < (#[trigger] arena@[k2]).0,
                forall|p2: int, i2: int|
                    0 <= p2 < p && 0 <= i2 < voter_pages@[p2]@.len()
                        ==> voter_in_arena(arena@, voter_at(voter_pages@, p2, i2).who),
                forall|k: int| 0 <= k < arena@.len() ==> ((#[trigger] arena@[k]).1 as int) < p,
            decreases np - p,
        {
            let ni = voter_pages[p].len();
            let mut i: usize = 0;
            while i < ni
                invariant
                    i <= ni,
                    p < np,
                    ni == voter_pages@[p as int]@.len(),
                    np == voter_pages@.len(),
                    pages_wf(voter_pages@, targets@),
                    forall|k: int| 0 <= k < arena@.len() ==> {
                        let e = #[trigger] arena@[k];
                        &&& (e.1 as int) < voter_pages@.len()
                        &&& (e.2 as int) < voter_pages@[e.1 as int]@.len()
                        &&& voter_at(voter_pages@, e.1 as int, e.2 as int).who == e.0
                    },
                    forall|k1: int, k2: int|
                        0 <= k1 < k2 < arena@.len()
                            ==> (#[trigger] arena@[k1]).0 < (#[trigger] arena@[k2]).0,
                    forall|p2: int, i2: int|
                        0 <= p2 < p && 0 <= i2 < voter_pages@[p2]@.len()
                            ==> voter_in_arena(arena@, voter_at(voter_pages@, p2, i2).who),
                    forall|i2: int|
                        0 <= i2 < i ==> voter_in_arena(
                            arena@,
                            voter_at(voter_pages@, p as int, i2).who,
                        ),
                    forall|k: int| 0 <= k < arena@.len() ==> {
                        let e = #[trigger] arena@[k];
                        (e.1 as int) < p || ((e.1 as int) == p && (e.2 as int) < i)
                    },
                decreases ni - i,
            {
                let who = voter_pages[p][i].who;
                proof {
                    // the voter is not indexed yet: every arena entry points
                    // at an earlier slot, and voters are unique across slots.
                    assert forall|k: int|
                        0 <= k < arena@.len() implies (#[trigger] arena@[k]).0 != who by {
                        let e = arena@[k];
                        if e.0 == who {
                            assert(voter_at(voter_pages@, e.1 as int, e.2 as int).who
                                == voter_at(voter_pages@, p as int, i as int).who);
                        }
                    }
                }
                // find the sorted position; the voter is new by uniqueness.
                let an = arena.len();
                let mut pos: usize = 0;
                while pos < an && arena[pos].0 < who
                    invariant
                        pos <= an,
                        an == arena@.len(),
                        forall|k: int| 0 <= k < pos ==> (#[trigger] arena@[k]).0 < who,
                    decreases an - pos,
                {
                    pos = pos + 1;
                }
                proof {
                    assert forall|k: int|
                        pos <= k < arena@.len() implies (#[trigger] arena@[k]).0 > who by {
                        if k > pos {
                            assert(arena@[pos as int].0 < arena@[k].0);
                        }
                    }
                }
                let ghost pre = arena@;
                arena.insert(pos, (who, p as u32, i as u32));
                proof {
                    assert(arena@[pos as int].0 == who);
                    assert forall|p2: int, i2: int|
                        0 <= p2 < p && 0 <= i2 < voter_pages@[p2]@.len()
                            implies voter_in_arena(
                            arena@,
                            voter_at(voter_pages@, p2, i2).who,
                        ) by {
                        let w2 = voter_at(voter_pages@, p2, i2).who;
                        let k2 = choose|k2: int| 0 <= k2 < pre.len() && pre[k2].0 == w2;
                        if k2 < pos {
                            assert(arena@[k2].0 == w2);
                        } else {
                            assert(arena@[k2 + 1].0 == w2);
                        }
                    }
                    assert forall|i2: int|
                        0 <= i2 <= i implies voter_in_arena(
                        arena@,
                        voter_at(voter_pages@, p as int, i2).who,
                    ) by {
                        let w2 = voter_at(voter_pages@, p as int, i2).who;
                        if i2 < i {
                            let k2 = choose|k2: int| 0 <= k2 < pre.len() && pre[k2].0 == w2;
                            if k2 < pos {
                                assert(arena@[k2].0 == w2);
                            } else {
                                assert(arena@[k2 + 1].0 == w2);
                            }
                        } else {
                            assert(arena@[pos as int].0 == w2);
                        }
                    }
                }
                i = i + 1;
            }
            p = p + 1;
        }
        Snapshot { voter_pages, targets, desired_targets, arena }
    }

    /// Looks `who` up in the reverse paging index: the page and offset that
    /// hold it, by bisection over the sorted arena.
    #[verifier::loop_isolation(false)]
    pub fn page_of(&self, who: AccountId) -> (r: Option<(u32, u32)>)
        requires
            self.wf(),
        ensures
            match r {
                Some(pi) => {
                    &&& (pi.0 as int) < self.voter_pages@.len()
                    &&& (pi.1 as int) < self.voter_pages@[pi.0 as int]@.len()
                    &&& voter_at(self.voter_pages@, pi.0 as int, pi.1 as int).who == who
                },
                None => !voter_in_pages(self.voter_pages@, who),
            },
    {
        let mut lo: usize = 0;
        let mut hi: usize = self.arena.len();
        while lo < hi
            invariant
                lo <= hi <= self.arena@.len(),
                forall|k: int| 0 <= k < lo ==> (#[trigger] self.arena@[k]).0 < who,
                forall|k: int| hi <= k < self.arena@.len() ==> (#[trigger] self.arena@[k]).0 > who,
            decreases hi - lo,
        {
            let mid = lo + (hi - lo) / 2;
            let e = self.arena[mid];
            if e.0 == who {
                return Some((e.1, e.2));
            } else if e.0 < who {
                proof {
                    assert forall|k: int| 0 <= k <= mid implies (#[trigger] self.arena@[k]).0
                        < who by {
                        if k < mid {
                            assert(self.arena@[k].0 < self.arena@[mid as int].0);
                        }
                    }
                }
                lo = mid + 1;
            } else {
                proof {
                    assert forall|k: int|
                        mid <= k < self.arena@.len() implies (#[trigger] self.arena@[k]).0
                        > who by {
                        if k > mid {
                            assert(self.arena@[mid as int].0 < self.arena@[k].0);
                        }
                    }
                }
                hi = mid;
            }
        }
        proof {
            if voter_in_pages(self.voter_pages@, who) {
                let (p, i): (int, int) = choose|p: int, i: int|
                    0 <= p < self.voter_pages@.len() && 0 <= i < self.voter_pages@[p]@.len()
                        && voter_at(self.voter_pages@, p, i).who == who;
                assert(voter_in_arena(self.arena@, who));
                let k = choose|k: int| 0 <= k < self.arena@.len() && self.arena@[k].0 == who;
                assert(false);
            }
        }
        None
    }
}

/// The stake recorded for `who` in one page, or nothing for a stranger.
pub open spec fn stake_in_page(page: Seq<VoterRecord>, who: AccountId) -> u64 {
    if exists|i: int| 0 <= i < page.len() && page[i].who == who {
        page[choose|i: int| 0 <= i < page.len() && page[i].who == who].stake
    } else {
        0u64
    }
}

/// The stake recorded for `who` anywhere in the pages, or nothing.
pub open spec fn stake_of_pages(pages: Seq<Vec<VoterRecord>>, who: AccountId) -> u64 {
    if exists|p: int, i: int|
        0 <= p < pages.len() && 0 <= i < pages[p]@.len() && voter_at(pages, p, i).who == who {
        let (p, i): (int, int) = choose|p: int, i: int|
            0 <= p < pages.len() && 0 <= i < pages[p]@.len() && voter_at(pages, p, i).who
                == who;
        voter_at(pages, p, i).stake
    } else {
        0u64
    }
}

/// Under well-formed pages, the stake of a stored voter is the stake of
/// its slot, wherever the slot sits.
pub proof fn lemma_stake_of_pages_at(
    pages: Seq<Vec<VoterRecord>>,
    targets: Seq<AccountId>,
    p: int,
    i: int,
)
    requires
        pages_wf(pages, targets),
        0 <= p < pages.len(),
        0 <= i < pages[p]@.len(),
    ensures
        stake_of_pages(pages, voter_at(pages, p, i).who) == voter_at(pages, p, i).stake,
{
    let who = voter_at(pages, p, i).who;
    assert(exists|p2: int, i2: int|
        0 <= p2 < pages.len() && 0 <= i2 < pages[p2]@.len() && voter_at(pages, p2, i2).who
            == who);
    let (p2, i2): (int, int) = choose|p2: int, i2: int|
        0 <= p2 < pages.len() && 0 <= i2 < pages[p2]@.len() && voter_at(pages, p2, i2).who
            == who;
    if (p2, i2) != (p, i) {
        assert(voter_at(pages, p2, i2).who != voter_at(pages, p, i).who);
    }
}

/// Under well-formed pages, the stake a page records for one of its own
/// voters is the stake at its slot.
pub proof fn lemma_stake_in_page_at(
    pages: Seq<Vec<VoterRecord>>,
    targets: Seq<AccountId>,
    p: int,
    i: int,
)
    requires
        pages_wf(pages, targets),
        0 <= p < pages.len(),
        0 <= i < pages[p]@.len(),
    ensures
        stake_in_page(pages[p]@, voter_at(pages, p, i).who) == voter_at(pages, p, i).stake,
{
    let who = voter_at(pages, p, i).who;
    assert(exists|i2: int| 0 <= i2 < pages[p]@.len() && pages[p]@[i2].who == who);
    let i2 = choose|i2: int| 0 <= i2 < pages[p]@.len() && pages[p]@[i2].who == who;
    if i2 != i {
        assert(voter_at(pages, p, i2).who != voter_at(pages, p, i).who);
    }
}

/// Whether the arena has an entry for `who`.
pub open spec fn voter_in_arena(arena: Seq<(AccountId, u32, u32)>, who: AccountId) -> bool {
    exists|k: int| 0 <= k < arena.len() && arena[k].0 == who
}

} // verus!

//! The engine's cross-cutting laws, stated over the spec functions that the
//! components' contracts use: reconstructed totals do not depend on the
//! order of the staked records, partitioning loses and duplicates nothing,
//! and the score of a fixed electorate does not depend on the paging.

use vstd::prelude::*;
use vstd::seq_lib::{commutative_foldr, lemma_fold_right_permutation, lemma_multiset_commutative};
use vstd::seq_lib::to_multiset_build;
use vstd::multiset::Multiset;
use crate::arith::sum128;
use crate::score::{amount_sum, contribs, entries_of, total_of, StakedAssignment};
use crate::snapshot::pages_wf;
use crate::solution::{enc1, enc2, enc_rest, in_page, is_one, is_two, is_wide};
use crate::solution::{lemma_page_of_contains, matches1, matches2, matches_rest, page_of_spec};
use crate::solution::{rem_of, split_sum, RestVote, SolutionPage};
use crate::solver::parts_sum;
use crate::{VoterRecord, ACCURACY};
use crate::solver::Assignment;
use crate::snapshot::voter_in_pages;
use crate::round::{all_listed, listed_total};
use crate::score::Support;
use crate::AccountId;

verus! {

/// The sum of a concatenation is the sum of the parts.
proof fn lemma_sum128_concat(a: Seq<u128>, b: Seq<u128>)
    ensures
        sum128(a + b) == sum128(a) + sum128(b),
    decreases b.len(),
{
    if b.len() == 0 {
        assert(a + b =~= a);
    } else {
        lemma_sum128_concat(a, b.drop_last());
        assert((a + b).drop_last() =~= a + b.drop_last());
        assert((a + b).last() == b.last());
    }
}

/// The amount of a concatenated contribution list is the sum of the parts.
proof fn lemma_amount_sum_concat(a: Seq<(AccountId, u128)>, b: Seq<(AccountId, u128)>)
    ensures
        amount_sum(a + b) == amount_sum(a) + amount_sum(b),
{
    let m = crate::score::amount_of();
    assert((a + b).map_values(m) =~= a.map_values(m) + b.map_values(m));
    lemma_sum128_concat(a.map_values(m), b.map_values(m));
}

/// The per-record contribution to target `t`, as a fold step.
pub open spec fn total_step(t: AccountId) -> spec_fn(StakedAssignment, int) -> int {
    |a: StakedAssignment, acc: int| acc + amount_sum(entries_of(a, t))
}

/// Folding with a constant shift shifts the result.
proof fn lemma_fold_total_linear(s: Seq<StakedAssignment>, t: AccountId, v: int)
    ensures
        s.fold_right(total_step(t), v) == v + s.fold_right(total_step(t), 0),
    decreases s.len(),
{
    if s.len() > 0 {
        lemma_fold_total_linear(s.drop_last(), t, total_step(t)(s.last(), v));
        lemma_fold_total_linear(s.drop_last(), t, total_step(t)(s.last(), 0));
    }
}

/// The reconstructed total is the fold of the per-record contributions.
proof fn lemma_total_is_fold(s: Seq<StakedAssignment>, t: AccountId)
    ensures
        total_of(s, t) == s.fold_right(total_step(t), 0),
    decreases s.len(),
{
    if s.len() == 0 {
        assert(contribs(s, t).map_values(crate::score::amount_of())
            =~= Seq::<u128>::empty());
    } else {
        let d = s.drop_last();
        lemma_total_is_fold(d, t);
        lemma_amount_sum_concat(contribs(d, t), entries_of(s.last(), t));
        lemma_fold_total_linear(d, t, total_step(t)(s.last(), 0));
    }
}

/// LAW: the total backing reconstructed for any target does not depend on
/// the order of the staked records: any permutation yields the same total.
pub proof fn lemma_total_of_permutation(
    s1: Seq<StakedAssignment>,
    s2: Seq<StakedAssignment>,
    t: AccountId,
)
    requires
        s1.to_multiset() == s2.to_multiset(),
    ensures
        total_of(s1, t) == total_of(s2, t),
{
    lemma_total_is_fold(s1, t);
    lemma_total_is_fold(s2, t);
    assert(commutative_foldr(total_step(t))) by {
        assert forall|x: StakedAssignment, y: StakedAssignment, v: int|
            #[trigger] total_step(t)(x, total_step(t)(y, v)) == total_step(t)(
            y,
            total_step(t)(x, v),
        ) by {}
    }
    lemma_fold_right_permutation(s1, s2, total_step(t), 0);
}

/// LAW: the total backing reconstructed for any target over split record
/// lists is the sum of the per-list totals: summing contributions page by
/// page or all at once yields the same table.
pub proof fn lemma_total_of_concat(
    s1: Seq<StakedAssignment>,
    s2: Seq<StakedAssignment>,
    t: AccountId,
)
    ensures
        total_of(s1 + s2, t) == total_of(s1, t) + total_of(s2, t),
    decreases s2.len(),
{
    if s2.len() == 0 {
        assert(s1 + s2 =~= s1);
        assert(contribs(s2, t).map_values(crate::score::amount_of())
            =~= Seq::<u128>::empty());
    } else {
        lemma_total_of_concat(s1, s2.drop_last(), t);
        assert((s1 + s2).drop_last() =~= s1 + s2.drop_last());
        assert((s1 + s2).last() == s2.last());
        lemma_amount_sum_concat(contribs(s1 + s2.drop_last(), t), entries_of(s2.last(), t));
        lemma_amount_sum_concat(contribs(s2.drop_last(), t), entries_of(s2.last(), t));
    }
}

/// The concatenation of per-page assignment sub-lists, in page order.
pub open spec fn concat_pages(bs: Seq<Seq<Assignment>>) -> Seq<Assignment>
    decreases bs.len(),
{
    if bs.len() == 0 {
        Seq::empty()
    } else {
        concat_pages(bs.drop_last()) + bs.last()
    }
}

/// Appending one assignment to one bucket inserts it into the multiset of
/// the concatenation.
proof fn lemma_concat_push_bucket(bs: Seq<Seq<Assignment>>, p: int, a: Assignment)
    requires
        0 <= p < bs.len(),
    ensures
        concat_pages(bs.update(p, bs[p].push(a))).to_multiset() == concat_pages(
            bs,
        ).to_multiset().insert(a),
    decreases bs.len(),
{
    broadcast use vstd::multiset::group_multiset_axioms;

    let bs2 = bs.update(p, bs[p].push(a));
    if p == bs.len() - 1 {
        assert(bs2.drop_last() =~= bs.drop_last());
        assert(bs2.last() =~= bs.last().push(a));
        lemma_multiset_commutative(concat_pages(bs.drop_last()), bs.last().push(a));
        lemma_multiset_commutative(concat_pages(bs.drop_last()), bs.last());
        to_multiset_build(bs.last(), a);
        assert(concat_pages(bs2).to_multiset() =~= concat_pages(bs).to_multiset().insert(a));
    } else {
        assert(bs2.drop_last() =~= bs.drop_last().update(p, bs.drop_last()[p].push(a)));
        assert(bs2.last() =~= bs.last());
        lemma_concat_push_bucket(bs.drop_last(), p, a);
        lemma_multiset_commutative(
            concat_pages(bs.drop_last().update(p, bs.drop_last()[p].push(a))),
            bs.last(),
        );
        lemma_multiset_commutative(concat_pages(bs.drop_last()), bs.last());
        assert(concat_pages(bs2).to_multiset() =~= concat_pages(bs).to_multiset().insert(a));
    }
}

/// LAW: partition completeness. The per-page sub-lists that the
/// partitioner's contract describes carry, all together, exactly the
/// original assignment set: no assignment is dropped, duplicated or split
/// across pages, whatever the page count.
pub proof fn lemma_partition_complete(
    pages: Seq<Vec<crate::VoterRecord>>,
    targets: Seq<AccountId>,
    asgs: Seq<Assignment>,
    bs: Seq<Seq<Assignment>>,
)
    requires
        pages_wf(pages, targets),
        forall|k: int|
            0 <= k < asgs.len() ==> voter_in_pages(pages, (#[trigger] asgs[k]).who),
        bs.len() == pages.len(),
        forall|p: int| 0 <= p < bs.len() ==> #[trigger] bs[p] == asgs.filter(in_page(pages, p)),
    ensures
        concat_pages(bs).to_multiset() == asgs.to_multiset(),
    decreases asgs.len(),
{
    broadcast use vstd::multiset::group_multiset_axioms;
    broadcast use vstd::seq_lib::group_to_multiset_ensures;

    if asgs.len() == 0 {
        assert forall|p: int| 0 <= p < bs.len() implies (#[trigger] bs[p]).len() == 0 by {
            asgs.lemma_filter_len(in_page(pages, p));
        }
        lemma_concat_empties(bs);
        assert(asgs.to_multiset() =~= Multiset::<Assignment>::empty());
    } else {
        let d = asgs.drop_last();
        let a = asgs.last();
        let bs0 = Seq::new(bs.len(), |p: int| d.filter(in_page(pages, p)));
        lemma_partition_complete(pages, targets, d, bs0);
        lemma_page_of_contains(pages, a.who);
        let pstar = page_of_spec(pages, a.who);
        assert forall|p: int| 0 <= p < bs.len() implies #[trigger] bs[p] == if p == pstar {
            bs0[p].push(a)
        } else {
            bs0[p]
        } by {
            let pred = in_page(pages, p);
            assert(asgs =~= d + seq![a]);
            Seq::filter_distributes_over_add(d, seq![a], pred);
            crate::solution::lemma_filter_singleton(a, pred);
            if p == pstar {
                assert(pred(a));
                assert(bs[p] =~= d.filter(pred).push(a));
            } else {
                assert(!pred(a));
                assert(bs[p] =~= d.filter(pred) + Seq::<Assignment>::empty());
                assert(bs[p] =~= d.filter(pred));
            }
        }
        assert(bs =~= bs0.update(pstar, bs0[pstar].push(a)));
        lemma_concat_push_bucket(bs0, pstar, a);
        to_multiset_build(d, a);
        assert(asgs =~= d.push(a));
    }
}

/// The concatenation of empty buckets is empty.
proof fn lemma_concat_empties(bs: Seq<Seq<Assignment>>)
    requires
        forall|p: int| 0 <= p < bs.len() ==> (#[trigger] bs[p]).len() == 0,
    ensures
        concat_pages(bs).to_multiset() == Multiset::<Assignment>::empty(),
    decreases bs.len(),
{
    broadcast use vstd::multiset::group_multiset_axioms;
    broadcast use vstd::seq_lib::group_to_multiset_ensures;

    if bs.len() == 0 {
        assert(concat_pages(bs).to_multiset() =~= Multiset::<Assignment>::empty());
    } else {
        lemma_concat_empties(bs.drop_last());
        lemma_multiset_commutative(concat_pages(bs.drop_last()), bs.last());
        assert(bs.last() =~= Seq::<Assignment>::empty());
        assert(Seq::<Assignment>::empty().to_multiset() =~= Multiset::<Assignment>::empty());
        assert(concat_pages(bs).to_multiset() =~= Multiset::<Assignment>::empty());
    }
}


/// The concatenation of per-page staked record lists, in page order.
pub open spec fn concat_staked(ps: Seq<Seq<StakedAssignment>>) -> Seq<StakedAssignment>
    decreases ps.len(),
{
    if ps.len() == 0 {
        Seq::empty()
    } else {
        concat_staked(ps.drop_last()) + ps.last()
    }
}

/// The sum of the per-page totals for one target.
pub open spec fn page_totals(ps: Seq<Seq<StakedAssignment>>, t: AccountId) -> int
    decreases ps.len(),
{
    if ps.len() == 0 {
        0
    } else {
        page_totals(ps.drop_last(), t) + total_of(ps.last(), t)
    }
}

/// LAW: paging invariance. For any target, summing the per-page totals of
/// any splitting of the staked records into pages gives exactly the total
/// reconstructed from the whole, unpaged record list: the score, which is
/// computed from these totals, does not depend on the paging.
pub proof fn lemma_paging_invariant(
    s: Seq<StakedAssignment>,
    ps: Seq<Seq<StakedAssignment>>,
    t: AccountId,
)
    requires
        concat_staked(ps).to_multiset() == s.to_multiset(),
    ensures
        page_totals(ps, t) == total_of(s, t),
    decreases ps.len(),
{
    lemma_total_of_permutation(concat_staked(ps), s, t);
    lemma_page_totals_concat(ps, t);
}

/// The per-page totals sum to the total of the concatenation.
proof fn lemma_page_totals_concat(ps: Seq<Seq<StakedAssignment>>, t: AccountId)
    ensures
        page_totals(ps, t) == total_of(concat_staked(ps), t),
    decreases ps.len(),
{
    if ps.len() == 0 {
        assert(contribs(concat_staked(ps), t).map_values(crate::score::amount_of())
            =~= Seq::<u128>::empty());
    } else {
        lemma_page_totals_concat(ps.drop_last(), t);
        lemma_total_of_concat(concat_staked(ps.drop_last()), ps.last(), t);
    }
}

/// The per-page fold step of the totals.
pub open spec fn page_step(t: AccountId) -> spec_fn(Seq<StakedAssignment>, int) -> int {
    |pg: Seq<StakedAssignment>, acc: int| acc + total_of(pg, t)
}

/// Folding page totals with a constant shift shifts the result.
proof fn lemma_fold_pages_linear(ps: Seq<Seq<StakedAssignment>>, t: AccountId, v: int)
    ensures
        ps.fold_right(page_step(t), v) == v + ps.fold_right(page_step(t), 0),
    decreases ps.len(),
{
    if ps.len() > 0 {
        lemma_fold_pages_linear(ps.drop_last(), t, page_step(t)(ps.last(), v));
        lemma_fold_pages_linear(ps.drop_last(), t, page_step(t)(ps.last(), 0));
    }
}

/// The summed page totals are a fold over the pages.
proof fn lemma_page_totals_is_fold(ps: Seq<Seq<StakedAssignment>>, t: AccountId)
    ensures
        page_totals(ps, t) == ps.fold_right(page_step(t), 0),
    decreases ps.len(),
{
    if ps.len() > 0 {
        lemma_page_totals_is_fold(ps.drop_last(), t);
        lemma_fold_pages_linear(ps.drop_last(), t, page_step(t)(ps.last(), 0));
    }
}

/// LAW: aggregation commutativity. Summing validated per-page totals in any
/// permutation of the page order yields identical final totals for every
/// target.
pub proof fn lemma_aggregation_commutes(
    ps1: Seq<Seq<StakedAssignment>>,
    ps2: Seq<Seq<StakedAssignment>>,
    t: AccountId,
)
    requires
        ps1.to_multiset() == ps2.to_multiset(),
    ensures
        page_totals(ps1, t) == page_totals(ps2, t),
{
    lemma_page_totals_is_fold(ps1, t);
    lemma_page_totals_is_fold(ps2, t);
    assert(commutative_foldr(page_step(t))) by {
        assert forall|x: Seq<StakedAssignment>, y: Seq<StakedAssignment>, v: int|
            #[trigger] page_step(t)(x, page_step(t)(y, v)) == page_step(t)(
            y,
            page_step(t)(x, v),
        ) by {}
    }
    lemma_fold_right_permutation(ps1, ps2, page_step(t), 0);
}


/// Two assignments carrying the same data.
pub open spec fn asg_eq(a: Assignment, b: Assignment) -> bool {
    a.who == b.who && a.distribution@ == b.distribution@
}

/// One step of the fixed-point parts sum.
proof fn lemma_parts_sum_step(d: Seq<(AccountId, u16)>, n: int)
    requires
        0 <= n < d.len(),
    ensures
        parts_sum(d.take(n + 1)) == parts_sum(d.take(n)) + d[n].1,
{
    let m = crate::solver::part_amount();
    assert(d.take(n + 1).map_values(m).drop_last() =~= d.take(n).map_values(m));
    assert(d.take(n + 1).map_values(m).last() == d[n].1 as u128);
}

/// The explicit splits of an encoded record sum to the parts of all the
/// assignment's targets but the last.
proof fn lemma_split_sum_matches(sp: Seq<(crate::TargetIndex, u16)>, d: Seq<(AccountId, u16)>, n: int)
    requires
        0 <= n <= sp.len(),
        sp.len() < d.len(),
        forall|j: int| 0 <= j < sp.len() ==> (#[trigger] sp[j]).1 == d[j].1,
    ensures
        split_sum(sp.take(n)) == parts_sum(d.take(n)),
    decreases n,
{
    if n == 0 {
        assert(sp.take(0) =~= Seq::<(crate::TargetIndex, u16)>::empty());
        assert(d.take(0).map_values(crate::solver::part_amount())
            =~= Seq::<u128>::empty());
    } else {
        lemma_split_sum_matches(sp, d, n - 1);
        assert(sp.take(n).drop_last() =~= sp.take(n - 1));
        assert(sp.take(n).last() == sp[n - 1]);
        lemma_parts_sum_step(d, n - 1);
    }
}

/// LAW: round trip. Encoding one page's assignment sub-list and decoding
/// it again yields, record for record, assignments carrying exactly the
/// original voters and distributions, reordered by the number of backed
/// targets: single-target records first, then two-target ones, then wider
/// ones. The hypotheses are precisely what the encoder's and decoder's
/// contracts state of their outputs, plus the validity of the input: every
/// distribution is nonempty and sums exactly to one whole stake.
pub proof fn lemma_round_trip(
    page: Seq<VoterRecord>,
    targets: Seq<AccountId>,
    asgs: Seq<Assignment>,
    s: SolutionPage,
    decoded: Seq<Assignment>,
)
    requires
        // what the encoder states of `s`.
        s.votes1@.len() == asgs.filter(is_one()).len(),
        s.votes2@.len() == asgs.filter(is_two()).len(),
        s.votes_rest@.len() == asgs.filter(is_wide()).len(),
        forall|k: int|
            0 <= k < s.votes1@.len() ==> enc1(
                page,
                targets,
                #[trigger] s.votes1@[k],
                asgs.filter(is_one())[k],
            ),
        forall|k: int|
            0 <= k < s.votes2@.len() ==> enc2(
                page,
                targets,
                #[trigger] s.votes2@[k],
                asgs.filter(is_two())[k],
            ),
        forall|k: int|
            0 <= k < s.votes_rest@.len() ==> enc_rest(
                page,
                targets,
                #[trigger] s.votes_rest@[k],
                asgs.filter(is_wide())[k],
            ),
        // what the decoder states of `decoded`.
        decoded.len() == s.votes1@.len() + s.votes2@.len() + s.votes_rest@.len(),
        forall|k: int|
            0 <= k < s.votes1@.len() ==> matches1(page, targets, #[trigger] s.votes1@[k],
                decoded[k]),
        forall|k: int|
            0 <= k < s.votes2@.len() ==> matches2(
                page,
                targets,
                #[trigger] s.votes2@[k],
                decoded[s.votes1@.len() + k],
            ),
        forall|k: int|
            0 <= k < s.votes_rest@.len() ==> matches_rest(
                page,
                targets,
                #[trigger] s.votes_rest@[k],
                decoded[s.votes1@.len() + s.votes2@.len() + k],
            ),
        // validity of the encoded assignments.
        forall|k: int| 0 <= k < asgs.len() ==> {
            let a = #[trigger] asgs[k];
            &&& 1 <= a.distribution@.len()
            &&& parts_sum(a.distribution@) == ACCURACY as int
        },
    ensures
        decoded.len() == asgs.filter(is_one()).len() + asgs.filter(is_two()).len()
            + asgs.filter(is_wide()).len(),
        forall|k: int|
            0 <= k < s.votes1@.len() ==> asg_eq(
                #[trigger] decoded[k],
                asgs.filter(is_one())[k],
            ),
        forall|k: int|
            0 <= k < s.votes2@.len() ==> asg_eq(
                #[trigger] decoded[s.votes1@.len() + k],
                asgs.filter(is_two())[k],
            ),
        forall|k: int|
            0 <= k < s.votes_rest@.len() ==> asg_eq(
                #[trigger] decoded[s.votes1@.len() + s.votes2@.len() + k],
                asgs.filter(is_wide())[k],
            ),
{
    let n1 = s.votes1@.len() as int;
    let n2 = s.votes2@.len() as int;
    assert forall|k: int|
        0 <= k < s.votes1@.len() implies asg_eq(
        #[trigger] decoded[k],
        asgs.filter(is_one())[k],
    ) by {
        let a = asgs.filter(is_one())[k];
        let d = decoded[k];
        let v = s.votes1@[k];
        assert(enc1(page, targets, v, a));
        assert(matches1(page, targets, v, d));
        asgs.lemma_filter_pred(is_one(), k);
        crate::score::lemma_filter_sub(asgs, is_one(), k);
        let i0 = choose|i0: int| 0 <= i0 < asgs.len() && asgs[i0] == a;
        lemma_parts_sum_step(a.distribution@, 0);
        assert(a.distribution@.take(0).map_values(crate::solver::part_amount())
            =~= Seq::<u128>::empty());
        assert(a.distribution@.take(1) =~= a.distribution@);
        assert(a.distribution@[0].1 == ACCURACY);
        assert(d.distribution@[0] == (a.distribution@[0].0, ACCURACY));
        assert(d.distribution@ =~= a.distribution@);
    }
    assert forall|k: int|
        0 <= k < s.votes2@.len() implies asg_eq(
        #[trigger] decoded[n1 + k],
        asgs.filter(is_two())[k],
    ) by {
        let a = asgs.filter(is_two())[k];
        let d = decoded[n1 + k];
        let v = s.votes2@[k];
        assert(enc2(page, targets, v, a));
        assert(matches2(page, targets, v, d));
        asgs.lemma_filter_pred(is_two(), k);
        crate::score::lemma_filter_sub(asgs, is_two(), k);
        let i0 = choose|i0: int| 0 <= i0 < asgs.len() && asgs[i0] == a;
        lemma_parts_sum_step(a.distribution@, 0);
        lemma_parts_sum_step(a.distribution@, 1);
        assert(a.distribution@.take(0).map_values(crate::solver::part_amount())
            =~= Seq::<u128>::empty());
        assert(a.distribution@.take(2) =~= a.distribution@);
        assert(a.distribution@[0].1 + a.distribution@[1].1 == ACCURACY as int);
        assert(rem_of(a.distribution@[0].1 as int) == a.distribution@[1].1);
        assert(d.distribution@[0] == (a.distribution@[0].0, a.distribution@[0].1));
        assert(d.distribution@[1] == (a.distribution@[1].0, a.distribution@[1].1));
        assert(d.distribution@ =~= a.distribution@);
    }
    assert forall|k: int|
        0 <= k < s.votes_rest@.len() implies asg_eq(
        #[trigger] decoded[n1 + n2 + k],
        asgs.filter(is_wide())[k],
    ) by {
        let a = asgs.filter(is_wide())[k];
        let d = decoded[n1 + n2 + k];
        let v = s.votes_rest@[k];
        assert(enc_rest(page, targets, v, a));
        assert(matches_rest(page, targets, v, d));
        asgs.lemma_filter_pred(is_wide(), k);
        crate::score::lemma_filter_sub(asgs, is_wide(), k);
        let i0 = choose|i0: int| 0 <= i0 < asgs.len() && asgs[i0] == a;
        let dn = a.distribution@.len() as int;
        assert(v.split@.len() == dn - 1);
        lemma_split_sum_matches(v.split@, a.distribution@, dn - 1);
        assert(v.split@.take(dn - 1) =~= v.split@);
        lemma_parts_sum_step(a.distribution@, dn - 1);
        assert(a.distribution@.take(dn) =~= a.distribution@);
        assert(split_sum(v.split@) + a.distribution@[dn - 1].1 == ACCURACY as int);
        assert(rem_of(split_sum(v.split@)) == a.distribution@[dn - 1].1);
        assert forall|j: int|
            0 <= j < dn implies #[trigger] d.distribution@[j] == a.distribution@[j] by {
            if j < dn - 1 {
                assert(d.distribution@[j] == (targets[v.split@[j].0 as int], v.split@[j].1));
            } else {
                assert(d.distribution@[j] == (targets[v.last as int],
                    rem_of(split_sum(v.split@))));
            }
        }
        assert(d.distribution@ =~= a.distribution@);
    }
}


/// The per-table fold step of the listed totals.
pub open spec fn listed_step(t: AccountId) -> spec_fn(Seq<(AccountId, Support)>, int) -> int {
    |sup: Seq<(AccountId, Support)>, acc: int| acc + listed_total(sup, t)
}

/// Folding listed totals with a constant shift shifts the result.
proof fn lemma_fold_listed_linear(ps: Seq<Seq<(AccountId, Support)>>, t: AccountId, v: int)
    ensures
        ps.fold_right(listed_step(t), v) == v + ps.fold_right(listed_step(t), 0),
    decreases ps.len(),
{
    if ps.len() > 0 {
        lemma_fold_listed_linear(ps.drop_last(), t, listed_step(t)(ps.last(), v));
        lemma_fold_listed_linear(ps.drop_last(), t, listed_step(t)(ps.last(), 0));
    }
}

/// The summed listed totals are a fold over the tables.
proof fn lemma_all_listed_is_fold(ps: Seq<Seq<(AccountId, Support)>>, t: AccountId)
    ensures
        all_listed(ps, t) == ps.fold_right(listed_step(t), 0),
    decreases ps.len(),
{
    if ps.len() > 0 {
        lemma_all_listed_is_fold(ps.drop_last(), t);
        lemma_fold_listed_linear(ps.drop_last(), t, listed_step(t)(ps.last(), 0));
    }
}

/// LAW: aggregation commutativity over support tables. Merging validated
/// per-page support tables in any permutation of the page order yields
/// identical final totals for every target: exactly the totals that the
/// aggregator's contract states.
pub proof fn lemma_aggregate_order_irrelevant(
    ps1: Seq<Seq<(AccountId, Support)>>,
    ps2: Seq<Seq<(AccountId, Support)>>,
    t: AccountId,
)
    requires
        ps1.to_multiset() == ps2.to_multiset(),
    ensures
        all_listed(ps1, t) == all_listed(ps2, t),
{
    lemma_all_listed_is_fold(ps1, t);
    lemma_all_listed_is_fold(ps2, t);
    assert(commutative_foldr(listed_step(t))) by {
        assert forall|x: Seq<(AccountId, Support)>, y: Seq<(AccountId, Support)>, v: int|
            #[trigger] listed_step(t)(x, listed_step(t)(y, v)) == listed_step(t)(
            y,
            listed_step(t)(x, v),
        ) by {}
    }
    lemma_fold_right_permutation(ps1, ps2, listed_step(t), 0);
}

} // verus!

//! Folding the reports of the workers into one.

use vstd::prelude::*;
use crate::report::{
    lemma_merge_associative, lemma_merge_commutative, lemma_merge_fits, lemma_merge_identity,
    Report, ReportView,
};

verus! {

/// The reports merged one after the other, starting from the empty report.
pub open spec fn merged(reports: Seq<ReportView>) -> ReportView
    decreases reports.len(),
{
    if reports.len() == 0 {
        ReportView::empty()
    } else {
        merged(reports.drop_last()).merge(reports.last())
    }
}

/// What each of `reports` holds.
pub open spec fn views(reports: Seq<Report>) -> Seq<ReportView> {
    Seq::new(reports.len(), |i: int| reports[i]@)
}

/// Merging all reports is merging all but one of them and then that one,
/// whichever it is.
pub proof fn lemma_merged_remove(reports: Seq<ReportView>, at: int)
    requires
        0 <= at < reports.len(),
    ensures
        merged(reports) == merged(reports.remove(at)).merge(reports[at]),
    decreases reports.len(),
{
    if at == reports.len() - 1 {
        assert(reports.remove(at) =~= reports.drop_last());
    } else {
        let front = reports.drop_last();
        let rest = reports.remove(at);
        lemma_merged_remove(front, at);
        assert(rest.drop_last() =~= front.remove(at));
        assert(rest.last() == reports.last());
        assert(front[at] == reports[at]);
        lemma_merge_associative(merged(front.remove(at)), reports[at], reports.last());
        lemma_merge_commutative(reports[at], reports.last());
        lemma_merge_associative(merged(front.remove(at)), reports.last(), reports[at]);
    }
}

/// The order in which the reports arrive does not show in their merge: the
/// same reports, each as often, merge to the same aggregate.
pub proof fn lemma_merged_any_order(first: Seq<ReportView>, second: Seq<ReportView>)
    requires
        first.to_multiset() == second.to_multiset(),
    ensures
        merged(first) == merged(second),
    decreases first.len(),
{
    broadcast use vstd::seq_lib::group_to_multiset_ensures;

    first.to_multiset_ensures();
    second.to_multiset_ensures();
    if first.len() == 0 {
        assert(second.len() == 0);
    } else {
        let last = first.last();
        assert(first.contains(last));
        assert(first.to_multiset().count(last) > 0);
        assert(second.contains(last));
        let at = second.index_of(last);
        assert(first =~= first.drop_last().push(last));
        assert(first.drop_last().to_multiset() =~= first.to_multiset().remove(last)) by {
            assert(first.drop_last() =~= first.remove(first.len() - 1));
        }
        assert(second.remove(at).to_multiset() =~= second.to_multiset().remove(last));
        lemma_merged_any_order(first.drop_last(), second.remove(at));
        lemma_merged_remove(second, at);
    }
}

/// Merges the reports into one, or tells that a counter of the aggregate
/// would not fit the machine word.
pub fn reduce(reports: Vec<Report>) -> (total: Option<Report>)
    ensures
        match total {
            Some(total) => total@ == merged(views(reports@)),
            None => !merged(views(reports@)).fits(),
        },
{
    let ghost all = views(reports@);
    let mut waiting = reports;
    let mut total = Report::new();
    proof {
        lemma_merge_identity(merged(all));
    }
    while waiting.len() > 0
        invariant
            all == views(reports@),
            total@.merge(merged(views(waiting@))) == merged(all),
        decreases waiting@.len(),
    {
        let ghost before = views(waiting@);
        let report = waiting.pop().unwrap();
        let ghost front = merged(views(waiting@));
        proof {
            assert(views(waiting@) =~= before.drop_last());
            assert(before.last() == report@);
            lemma_merge_commutative(front, report@);
            lemma_merge_associative(total@, report@, front);
        }
        if !total.can_merge(&report) {
            proof {
                if merged(all).fits() {
                    lemma_merge_fits(total@.merge(report@), front);
                }
            }
            return None;
        }
        total = total.merge(report);
    }
    proof {
        assert(views(waiting@) =~= Seq::<ReportView>::empty());
        lemma_merge_identity(total@);
    }
    Some(total)
}

} // verus!

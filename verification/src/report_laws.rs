//! What holds of the reports that are kept.
use crate::analyzer_error::AnalyzerError;
use crate::cmd_check::{error_total, lemma_error_total_push, no_errors, CheckErrorView};
use vstd::prelude::*;

verus! {

pub proof fn lemma_error_total_add(a: Seq<AnalyzerError>, b: Seq<AnalyzerError>)
    ensures
        error_total(a + b) == error_total(a) + error_total(b),
{
    Seq::filter_distributes_over_add(a, b, |report: AnalyzerError| report.spec_is_error());
}

/// Of the errors among reports, as many are kept as the limit leaves room for.
pub proof fn lemma_kept_errors(check: CheckErrorView, reports: Seq<AnalyzerError>, count: nat)
    requires
        check.wf(),
        count <= reports.len(),
    ensures
        error_total(check.related + check.kept(reports, count)) == error_total(check.related)
            + error_total(check.kept(reports, count)),
        check.error_count_limit > 0 ==> check.error_count + error_total(
            check.kept(reports, count),
        ) == (if check.error_count + error_total(reports.take(count as int))
            <= check.error_count_limit {
            check.error_count + error_total(reports.take(count as int))
        } else {
            check.error_count_limit
        }),
        reports.take(reports.len() as int) == reports,
    decreases count,
{
    reveal(Seq::filter);
    lemma_error_total_add(check.related, check.kept(reports, count));
    assert(reports.take(reports.len() as int) =~= reports);
    if count > 0 {
        let k = (count - 1) as nat;
        lemma_kept_errors(check, reports, k);
        assert(reports.take(count as int) =~= reports.take(k as int).push(reports[k as int]));
        lemma_error_total_push(reports.take(k as int), reports[k as int]);
        lemma_error_total_push(check.kept(reports, k), reports[k as int]);
    }
}

/// What is kept of two batches of reports that come one after the other is what is kept of them
/// together; an empty batch changes nothing.
pub proof fn law_reports_add(
    check: CheckErrorView,
    a: Seq<AnalyzerError>,
    b: Seq<AnalyzerError>,
)
    requires
        check.wf(),
    ensures
        check.with_reports(a).with_reports(b) == check.with_reports(a + b),
        check.with_reports(Seq::empty()) == check,
{
    lemma_kept_add(check, a, b, b.len());
    lemma_error_total_add(a, b);
    lemma_with_reports_wf(check, a);
    lemma_kept_errors(check, a, a.len());
    reveal(Seq::filter);
    assert((a + b).take((a + b).len() as int) =~= a + b);
    assert(check.with_reports(a).with_reports(b) =~= check.with_reports(a + b));
    assert(check.with_reports(Seq::empty()) =~= check);
}

proof fn lemma_kept_add(
    check: CheckErrorView,
    a: Seq<AnalyzerError>,
    b: Seq<AnalyzerError>,
    count: nat,
)
    requires
        check.wf(),
        count <= b.len(),
    ensures
        check.kept(a + b, a.len() + count) == check.kept(a, a.len()) + check.with_reports(a).kept(
            b,
            count,
        ),
    decreases count,
{
    reveal(Seq::filter);
    if count > 0 {
        let k = (count - 1) as nat;
        lemma_kept_add(check, a, b, k);
        assert((a + b).take((a.len() + k) as int) =~= a + b.take(k as int));
        lemma_error_total_add(a, b.take(k as int));
        lemma_kept_errors(check, a, a.len());
        assert((a + b)[(a.len() + k) as int] == b[k as int]);
    } else {
        assert((a + b).take(a.len() as int) =~= a.take(a.len() as int));
        lemma_kept_take(check, a, a + b, a.len());
    }
}

proof fn lemma_kept_take(
    check: CheckErrorView,
    a: Seq<AnalyzerError>,
    b: Seq<AnalyzerError>,
    count: nat,
)
    requires
        count <= a.len(),
        count <= b.len(),
        a.take(count as int) == b.take(count as int),
    ensures
        check.kept(a, count) == check.kept(b, count),
    decreases count,
{
    if count > 0 {
        let k = (count - 1) as nat;
        assert(a.take(k as int) =~= a.take(count as int).take(k as int));
        assert(b.take(k as int) =~= b.take(count as int).take(k as int));
        assert(a[k as int] == a.take(count as int)[k as int]);
        assert(b[k as int] == b.take(count as int)[k as int]);
        lemma_kept_take(check, a, b, k);
    }
}

/// Reports without an error have none to count.
pub proof fn lemma_no_errors(reports: Seq<AnalyzerError>)
    ensures
        no_errors(reports) <==> error_total(reports) == 0,
    decreases reports.len(),
{
    reveal(Seq::filter);
    if reports.len() > 0 {
        let rest = reports.drop_last();
        lemma_no_errors(rest);
        lemma_error_total_push(rest, reports.last());
        assert(rest.push(reports.last()) =~= reports);
        assert forall|i: int| 0 <= i < rest.len() implies rest[i] == reports[i] by {}
    }
}

proof fn lemma_kept_first_errors(check: CheckErrorView, reports: Seq<AnalyzerError>, count: nat)
    requires
        check.error_count == 0,
        count <= reports.len(),
    ensures
        no_errors(reports.take(count as int)) ==> check.kept(reports, count) == reports.take(
            count as int,
        ),
        !no_errors(reports.take(count as int)) ==> !no_errors(check.kept(reports, count)),
        count > 0 ==> check.kept(reports, count).len() > 0,
    decreases count,
{
    if count > 0 {
        let k = (count - 1) as nat;
        let before = reports.take(k as int);
        let report = reports[k as int];
        lemma_kept_first_errors(check, reports, k);
        assert(reports.take(count as int) =~= before.push(report));
        lemma_no_errors(before);
        if no_errors(before) {
            assert(check.keeps(report, error_total(before)));
            assert(check.kept(reports, count)[k as int] == report);
            if !report.spec_is_error() {
                assert(no_errors(before.push(report)));
            } else {
                assert(before.push(report)[k as int] == report);
            }
        } else {
            let kept = check.kept(reports, k);
            let i = choose|i: int| 0 <= i < kept.len() && (#[trigger] kept[i]).spec_is_error();
            assert(check.kept(reports, count)[i] == kept[i]);
            let j = choose|j: int| 0 <= j < before.len() && (#[trigger] before[j]).spec_is_error();
            assert(before.push(report)[j] == before[j]);
        }
    } else {
        assert(check.kept(reports, count) =~= reports.take(0));
    }
}

/// A limit never hides that there was an error, nor that there was a report at all.
pub proof fn law_error_kept(check: CheckErrorView, reports: Seq<AnalyzerError>)
    requires
        check.wf(),
        no_errors(check.related),
    ensures
        no_errors(check.with_reports(reports).related) <==> no_errors(reports),
        check.with_reports(reports).related.len() == 0 <==> check.related.len() == 0
            && reports.len() == 0,
        no_errors(reports) ==> check.with_reports(reports).related == check.related + reports,
{
    lemma_no_errors(check.related);
    lemma_kept_first_errors(check, reports, reports.len());
    assert(reports.take(reports.len() as int) =~= reports);
    let kept = check.kept(reports, reports.len());
    let related = check.with_reports(reports).related;
    assert forall|i: int| 0 <= i < kept.len() implies #[trigger] kept[i] == related[i
        + check.related.len()] by {}
    if no_errors(reports) {
        assert(no_errors(related));
    } else {
        let i = choose|i: int| 0 <= i < kept.len() && (#[trigger] kept[i]).spec_is_error();
        assert(related[i + check.related.len()] == kept[i]);
    }
}

/// Taking reports over keeps the count of errors right.
pub proof fn lemma_with_reports_wf(check: CheckErrorView, reports: Seq<AnalyzerError>)
    requires
        check.wf(),
    ensures
        check.with_reports(reports).wf(),
{
    lemma_kept_errors(check, reports, reports.len());
}

/// Without a limit all reports are kept. With one, all warnings are kept, and as many errors as the
/// limit allows.
pub proof fn law_limit(check: CheckErrorView, reports: Seq<AnalyzerError>)
    requires
        check.wf(),
    ensures
        check.error_count_limit == 0 ==> check.with_reports(reports).related == check.related
            + reports,
        check.error_count_limit > 0 ==> error_total(check.with_reports(reports).related) == (if error_total(
            check.related,
        ) + error_total(reports) <= check.error_count_limit {
            error_total(check.related) + error_total(reports)
        } else {
            check.error_count_limit
        }),
        warnings(check.with_reports(reports).related) == warnings(check.related) + warnings(reports),
{
    lemma_kept_errors(check, reports, reports.len());
    lemma_kept_warnings(check, reports, reports.len());
    assert(reports.take(reports.len() as int) =~= reports);
    Seq::filter_distributes_over_add(
        check.related,
        check.kept(reports, reports.len()),
        |report: AnalyzerError| !report.spec_is_error(),
    );
}

/// The reports that are no errors.
pub open spec fn warnings(reports: Seq<AnalyzerError>) -> Seq<AnalyzerError> {
    reports.filter(|report: AnalyzerError| !report.spec_is_error())
}

proof fn lemma_kept_warnings(check: CheckErrorView, reports: Seq<AnalyzerError>, count: nat)
    requires
        count <= reports.len(),
    ensures
        warnings(check.kept(reports, count)) == warnings(reports.take(count as int)),
        check.error_count_limit == 0 ==> check.kept(reports, count) == reports.take(count as int),
    decreases count,
{
    reveal(Seq::filter);
    if count > 0 {
        let k = (count - 1) as nat;
        lemma_kept_warnings(check, reports, k);
        let before = check.kept(reports, k);
        let report = reports[k as int];
        assert(reports.take(count as int) =~= reports.take(k as int).push(report));
        assert(reports.take(count as int).drop_last() =~= reports.take(k as int));
        assert(before.push(report).drop_last() =~= before);
    } else {
        assert(check.kept(reports, 0) =~= reports.take(0));
    }
}

/// Which reports are kept, and in which order: all that are no errors, and of the errors those before
/// which the limit was not reached. Those that are kept stand behind what was kept before, in the
/// order in which they came.
pub proof fn law_kept_places(check: CheckErrorView, reports: Seq<AnalyzerError>) -> (places: Seq<int>)
    requires
        check.wf(),
    ensures
        check.with_reports(reports).related == check.related + places.map_values(
            |place: int| reports[place],
        ),
        forall|i: int, j: int|
            0 <= i < j < places.len() ==> #[trigger] places[i] < #[trigger] places[j],
        forall|place: int| #[trigger]
            places.contains(place) <==> 0 <= place < reports.len() && (
            !reports[place].spec_is_error() || check.error_count_limit == 0 || reports.take(
                place,
            ).filter(|report: AnalyzerError| report.spec_is_error()).len() + check.related.filter(
                |report: AnalyzerError| report.spec_is_error(),
            ).len() < check.error_count_limit),
        check.with_reports(reports).error_count_limit == check.error_count_limit,
{
    let places = lemma_kept_places(check, reports, reports.len());
    assert(check.with_reports(reports).related =~= check.related + places.map_values(
        |place: int| reports[place],
    ));
    places
}

proof fn lemma_kept_places(check: CheckErrorView, reports: Seq<AnalyzerError>, count: nat) -> (places:
    Seq<int>)
    requires
        check.wf(),
        count <= reports.len(),
    ensures
        check.kept(reports, count) == places.map_values(|place: int| reports[place]),
        forall|i: int, j: int|
            0 <= i < j < places.len() ==> #[trigger] places[i] < #[trigger] places[j],
        forall|place: int| #[trigger]
            places.contains(place) <==> 0 <= place < count && (!reports[place].spec_is_error()
                || check.error_count_limit == 0 || error_total(reports.take(place)) + error_total(
                check.related,
            ) < check.error_count_limit),
    decreases count,
{
    if count == 0 {
        let places = Seq::<int>::empty();
        assert(check.kept(reports, count) =~= places.map_values(|place: int| reports[place]));
        places
    } else {
        let k = count - 1;
        let before = lemma_kept_places(check, reports, k as nat);
        assert forall|i: int| 0 <= i < before.len() implies #[trigger] before[i] < k by {
            assert(before.contains(before[i]));
        }
        if check.keeps(reports[k], error_total(reports.take(k))) {
            let places = before.push(k);
            assert(check.kept(reports, count) =~= places.map_values(|place: int| reports[place]));
            assert forall|place: int| #[trigger] places.contains(place) <==> before.contains(place)
                || place == k by {
                if before.contains(place) {
                    let i = before.index_of(place);
                    assert(places[i] == place);
                }
                assert(places[k - k + before.len()] == k);
                if places.contains(place) && place != k {
                    let i = places.index_of(place);
                    assert(before[i] == place);
                }
            }
            places
        } else {
            before
        }
    }
}

} // verus!

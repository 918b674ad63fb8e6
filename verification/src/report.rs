//! The histogram of record types and the count of rejected records.

use vstd::prelude::*;
use crate::statistics::{Statistics, StatisticsView};
use crate::text::same_text;

verus! {

/// What a report holds, as unbounded numbers keyed by the type's characters.
#[verifier::ext_equal]
pub struct ReportView {
    /// Records that did not parse or named no type.
    pub errors: nat,
    /// Counters of every type that was tallied at least once.
    pub histogram: Map<Seq<char>, StatisticsView>,
}

impl ReportView {
    /// The report of a run that saw nothing.
    pub open spec fn empty() -> ReportView {
        ReportView { errors: 0, histogram: Map::empty() }
    }

    /// Counters of `kind`, zero where the histogram has no entry for it.
    pub open spec fn counters(self, kind: Seq<char>) -> StatisticsView {
        if self.histogram.contains_key(kind) {
            self.histogram[kind]
        } else {
            StatisticsView::zero()
        }
    }

    /// The report after one more rejected record.
    pub open spec fn on_error(self) -> ReportView {
        ReportView { errors: self.errors + 1, histogram: self.histogram }
    }

    /// The report after adding to the counters of `kind`, whose entry is
    /// created when it is new.
    pub open spec fn update(self, kind: Seq<char>, cardinality: nat, number_of_bytes: nat) -> ReportView {
        ReportView {
            errors: self.errors,
            histogram: self.histogram.insert(
                kind,
                self.counters(kind).plus(StatisticsView { cardinality, number_of_bytes }),
            ),
        }
    }

    /// The sum of two reports: errors add up, and each type found in either
    /// histogram gets the sum of its counters in both.
    pub open spec fn merge(self, other: ReportView) -> ReportView {
        ReportView {
            errors: self.errors + other.errors,
            histogram: Map::new(
                |kind: Seq<char>|
                    self.histogram.contains_key(kind) || other.histogram.contains_key(kind),
                |kind: Seq<char>| self.counters(kind).plus(other.counters(kind)),
            ),
        }
    }

    /// No counter is above `limit`.
    pub open spec fn bounded_by(self, limit: nat) -> bool {
        &&& self.errors <= limit
        &&& forall|kind: Seq<char>| #[trigger]
            self.histogram.contains_key(kind) ==> self.histogram[kind].cardinality <= limit
                && self.histogram[kind].number_of_bytes <= limit
    }

    /// Every counter can be held in a `usize`.
    pub open spec fn fits(self) -> bool {
        &&& self.errors <= usize::MAX
        &&& forall|kind: Seq<char>| #[trigger]
            self.histogram.contains_key(kind) ==> self.histogram[kind].fits()
    }
}

/// One row of the histogram.
struct Entry {
    name: String,
    statistics: Statistics,
}

/// No type name occurs in two rows.
spec fn distinct(entries: Seq<Entry>) -> bool {
    forall|i: int, j: int|
        0 <= i < j < entries.len() ==> (#[trigger] entries[i]).name@ != (#[trigger] entries[j]).name@
}

/// Some row is named `kind`.
spec fn listed(entries: Seq<Entry>, kind: Seq<char>) -> bool {
    exists|i: int| 0 <= i < entries.len() && (#[trigger] entries[i]).name@ == kind
}

/// A row named `kind`, where one exists.
spec fn position(entries: Seq<Entry>, kind: Seq<char>) -> int {
    choose|i: int| 0 <= i < entries.len() && (#[trigger] entries[i]).name@ == kind
}

/// The rows as a map from type name to counters.
spec fn histogram_of(entries: Seq<Entry>) -> Map<Seq<char>, StatisticsView> {
    Map::new(
        |kind: Seq<char>| listed(entries, kind),
        |kind: Seq<char>| entries[position(entries, kind)].statistics@,
    )
}

/// In rows with distinct names, the row at `i` is the one its name maps to.
proof fn lemma_row(entries: Seq<Entry>, i: int)
    requires
        distinct(entries),
        0 <= i < entries.len(),
    ensures
        listed(entries, entries[i].name@),
        position(entries, entries[i].name@) == i,
        histogram_of(entries).contains_key(entries[i].name@),
        histogram_of(entries)[entries[i].name@] == entries[i].statistics@,
{
    let kind = entries[i].name@;
    assert(listed(entries, kind));
    let p = position(entries, kind);
    assert(0 <= p < entries.len() && entries[p].name@ == kind);
    if p < i {
        assert(entries[p].name@ != entries[i].name@);
    } else if i < p {
        assert(entries[i].name@ != entries[p].name@);
    }
}

/// Appending a row under a new name adds exactly that entry to the map.
proof fn lemma_push_row(entries: Seq<Entry>, entry: Entry)
    requires
        distinct(entries.push(entry)),
    ensures
        distinct(entries),
        !listed(entries, entry.name@),
        histogram_of(entries.push(entry)) == histogram_of(entries).insert(
            entry.name@,
            entry.statistics@,
        ),
{
    let after = entries.push(entry);
    let last = entries.len() as int;
    assert(after[last] == entry);
    assert(forall|j: int| 0 <= j < last ==> (#[trigger] after[j]) == entries[j]);
    assert forall|a: int, b: int| 0 <= a < b < entries.len() implies
        (#[trigger] entries[a]).name@ != (#[trigger] entries[b]).name@ by {
        assert(after[a].name@ != after[b].name@);
    }
    if listed(entries, entry.name@) {
        let p = position(entries, entry.name@);
        assert(after[p].name@ != after[last].name@);
    }
    lemma_row(after, last);
    assert forall|k: Seq<char>| listed(after, k) == (listed(entries, k) || k == entry.name@) by {
        if listed(entries, k) {
            let p = position(entries, k);
            assert(after[p].name@ == k);
        }
        if listed(after, k) {
            let p = position(after, k);
            if p != last {
                assert(entries[p].name@ == k);
            }
        }
    }
    assert forall|k: Seq<char>| listed(after, k) implies histogram_of(after)[k] == histogram_of(
        entries,
    ).insert(entry.name@, entry.statistics@)[k] by {
        let p = position(after, k);
        lemma_row(after, p);
        if p != last {
            lemma_row(entries, p);
        }
    }
    assert(histogram_of(after) =~= histogram_of(entries).insert(entry.name@, entry.statistics@));
}

/// A prefix of rows with distinct names has distinct names.
proof fn lemma_distinct_prefix(entries: Seq<Entry>, n: int)
    requires
        distinct(entries),
        0 <= n <= entries.len(),
    ensures
        distinct(entries.take(n)),
{
    let prefix = entries.take(n);
    assert forall|a: int, b: int| 0 <= a < b < prefix.len() implies
        (#[trigger] prefix[a]).name@ != (#[trigger] prefix[b]).name@ by {
        assert(entries[a].name@ != entries[b].name@);
    }
}

/// Counters that `entries` hold for `kind`, zero where no row has that name.
spec fn counters_of(entries: Seq<Entry>, kind: Seq<char>) -> StatisticsView {
    if listed(entries, kind) {
        entries[position(entries, kind)].statistics@
    } else {
        StatisticsView::zero()
    }
}

/// Index of the row named `kind`.
fn find(entries: &Vec<Entry>, kind: &str) -> (found: Option<usize>)
    ensures
        match found {
            Some(i) => i < entries@.len() && entries@[i as int].name@ == kind@,
            None => !listed(entries@, kind@),
        },
{
    let mut i: usize = 0;
    while i < entries.len()
        invariant
            i <= entries@.len(),
            forall|j: int| 0 <= j < i ==> (#[trigger] entries@[j]).name@ != kind@,
        decreases entries@.len() - i,
    {
        if same_text(entries[i].name.as_str(), kind) {
            return Some(i);
        }
        i += 1;
    }
    None
}

/// Adds to the counters of the row named `kind`, appending the row when no
/// row has that name yet.
fn add_to_row(entries: &mut Vec<Entry>, kind: &str, cardinality: usize, number_of_bytes: usize)
    requires
        distinct(old(entries)@),
        counters_of(old(entries)@, kind@).cardinality + cardinality <= usize::MAX,
        counters_of(old(entries)@, kind@).number_of_bytes + number_of_bytes <= usize::MAX,
    ensures
        distinct(final(entries)@),
        histogram_of(final(entries)@) == histogram_of(old(entries)@).insert(
            kind@,
            counters_of(old(entries)@, kind@).plus(
                StatisticsView {
                    cardinality: cardinality as nat,
                    number_of_bytes: number_of_bytes as nat,
                },
            ),
        ),
{
    let ghost before = entries@;
    let ghost target = histogram_of(before).insert(
        kind@,
        counters_of(before, kind@).plus(
            StatisticsView {
                cardinality: cardinality as nat,
                number_of_bytes: number_of_bytes as nat,
            },
        ),
    );
    match find(entries, kind) {
        Some(i) => {
            proof {
                lemma_row(before, i as int);
            }
            entries[i].statistics.update(cardinality, number_of_bytes);
            proof {
                let after = entries@;
                assert(after.len() == before.len());
                assert(forall|j: int| 0 <= j < after.len() ==> (#[trigger] after[j]).name@ == before[j].name@);
                assert forall|a: int, b: int| 0 <= a < b < after.len() implies
                    (#[trigger] after[a]).name@ != (#[trigger] after[b]).name@ by {
                    assert(before[a].name@ != before[b].name@);
                }
                assert forall|k: Seq<char>| listed(after, k) == listed(before, k) by {
                    if listed(before, k) {
                        let p = position(before, k);
                        assert(after[p].name@ == k);
                    }
                    if listed(after, k) {
                        let p = position(after, k);
                        assert(before[p].name@ == k);
                    }
                }
                assert forall|k: Seq<char>| listed(after, k) implies
                    histogram_of(after)[k] == target[k] by {
                    let p = position(after, k);
                    lemma_row(after, p);
                    lemma_row(before, p);
                }
                assert(histogram_of(after) =~= target);
            }
        },
        None => {
            let entry = Entry {
                name: kind.to_owned(),
                statistics: Statistics::new(cardinality, number_of_bytes),
            };
            entries.push(entry);
            proof {
                let after = entries@;
                let last = before.len() as int;
                assert(after =~= before.push(after[last]));
                assert(forall|j: int| 0 <= j < last ==> (#[trigger] after[j]) == before[j]);
                assert forall|a: int, b: int| 0 <= a < b < after.len() implies
                    (#[trigger] after[a]).name@ != (#[trigger] after[b]).name@ by {
                    if b == last {
                        assert(before[a].name@ != kind@);
                    } else {
                        assert(before[a].name@ != before[b].name@);
                    }
                }
                lemma_push_row(before, after[last]);
            }
        },
    }
}

/// Aggregate of a run: how many records of each type were seen, how many
/// bytes they occupied, and how many records were rejected.
pub struct Report {
    errors: usize,
    entries: Vec<Entry>,
}

impl View for Report {
    type V = ReportView;

    closed spec fn view(&self) -> ReportView {
        ReportView { errors: self.errors as nat, histogram: histogram_of(self.entries@) }
    }
}

impl Report {
    #[verifier::type_invariant]
    spec fn well_formed(&self) -> bool {
        distinct(self.entries@)
    }

    /// A report with no entry and no error.
    pub fn new() -> (report: Self)
        ensures
            report@ == ReportView::empty(),
    {
        let report = Report { errors: 0, entries: Vec::new() };
        assert(report@.histogram =~= Map::empty());
        report
    }

    /// Counts one rejected record.
    pub fn on_error(&mut self)
        requires
            old(self)@.errors < usize::MAX,
        ensures
            final(self)@ == old(self)@.on_error(),
    {
        proof {
            use_type_invariant(&*self);
        }
        self.errors += 1;
    }

    /// Adds `cardinality` records and `number_of_bytes` bytes to the counters
    /// of `kind`, creating its entry on first occurrence.
    pub fn update(&mut self, kind: &str, cardinality: usize, number_of_bytes: usize)
        requires
            old(self)@.counters(kind@).cardinality + cardinality <= usize::MAX,
            old(self)@.counters(kind@).number_of_bytes + number_of_bytes <= usize::MAX,
        ensures
            final(self)@ == old(self)@.update(kind@, cardinality as nat, number_of_bytes as nat),
    {
        proof {
            use_type_invariant(&*self);
        }
        let mut taken = Report::new();
        std::mem::swap(self, &mut taken);
        let Report { errors, entries } = taken;
        let mut entries = entries;
        add_to_row(&mut entries, kind, cardinality, number_of_bytes);
        *self = Report { errors, entries };
    }

    /// Folds `other` into this report: errors add up, and the counters of
    /// every type of `other` are added to the entry of that type, which is
    /// created when it is new.
    pub fn merge(self, other: Report) -> (merged: Self)
        requires
            self@.merge(other@).fits(),
        ensures
            merged@ == self@.merge(other@),
    {
        proof {
            use_type_invariant(&self);
            use_type_invariant(&other);
        }
        let ghost target = self@.merge(other@);
        let ghost base = self@.histogram;
        let Report { errors, entries } = self;
        let mut entries = entries;
        let Report { errors: other_errors, entries: rows } = other;
        let errors = errors + other_errors;
        let mut i: usize = 0;
        assert(rows@.take(0) =~= Seq::<Entry>::empty());
        assert(histogram_of(entries@) =~= merged_with(base, rows@.take(0)));
        while i < rows.len()
            invariant
                i <= rows@.len(),
                distinct(rows@),
                distinct(entries@),
                histogram_of(entries@) == merged_with(base, rows@.take(i as int)),
                target.histogram == merged_with(base, rows@),
                target.fits(),
            decreases rows@.len() - i,
        {
            let row = &rows[i];
            proof {
                let prefix = rows@.take(i as int);
                let next = rows@.take(i + 1);
                assert(next =~= prefix.push(rows@[i as int]));
                lemma_distinct_prefix(rows@, i + 1);
                lemma_push_row(prefix, rows@[i as int]);
                lemma_row(rows@, i as int);
                let kind = row.name@;
                let current = histogram_of(entries@);
                assert(histogram_of(rows@).contains_key(kind));
                assert(!histogram_of(prefix).contains_key(kind));
                assert(target.histogram.contains_key(kind));
                assert(target.histogram[kind].fits());
                assert(current.contains_key(kind) == listed(entries@, kind));
                assert(current.contains_key(kind) == base.contains_key(kind));
                if current.contains_key(kind) {
                    assert(current[kind] == base[kind].plus(StatisticsView::zero()));
                    assert(counters_of(entries@, kind) == base[kind]);
                } else {
                    assert(counters_of(entries@, kind) == StatisticsView::zero());
                }
                assert(counters_of(entries@, kind).plus(row.statistics@) == target.histogram[kind]);
            }
            let ghost previous = histogram_of(entries@);
            add_to_row(
                &mut entries,
                row.name.as_str(),
                row.statistics.cardinality(),
                row.statistics.number_of_bytes(),
            );
            proof {
                let kind = row.name@;
                let prefix = rows@.take(i as int);
                let next = merged_with(base, rows@.take(i + 1));
                assert forall|k: Seq<char>| histogram_of(entries@).contains_key(k) == next.contains_key(k) by {
                    assert(previous.contains_key(k) == (base.contains_key(k) || histogram_of(prefix).contains_key(k)));
                }
                assert forall|k: Seq<char>| next.contains_key(k) implies histogram_of(entries@)[k] == next[k] by {
                    if k != kind {
                        assert(previous.contains_key(k) == (base.contains_key(k) || histogram_of(prefix).contains_key(k)));
                    }
                }
                assert(histogram_of(entries@) =~= next);
            }
            i += 1;
        }
        assert(rows@.take(rows@.len() as int) =~= rows@);
        Report { errors, entries }
    }

    /// Tells whether `merge` with `other` keeps every counter within the
    /// machine word.
    pub fn can_merge(&self, other: &Report) -> (fits: bool)
        ensures
            fits == self@.merge(other@).fits(),
    {
        proof {
            use_type_invariant(self);
            use_type_invariant(other);
        }
        let ghost merged = self@.merge(other@);
        if self.errors.checked_add(other.errors).is_none() {
            return false;
        }
        let mut i: usize = 0;
        while i < other.entries.len()
            invariant
                i <= other.entries@.len(),
                distinct(self.entries@),
                distinct(other.entries@),
                merged == self@.merge(other@),
                forall|j: int|
                    0 <= j < i ==> merged.histogram[(#[trigger] other.entries@[j]).name@].fits(),
            decreases other.entries@.len() - i,
        {
            let row = &other.entries[i];
            proof {
                lemma_row(other.entries@, i as int);
                assert(merged.histogram.contains_key(row.name@));
            }
            match find(&self.entries, row.name.as_str()) {
                Some(at) => {
                    proof {
                        lemma_row(self.entries@, at as int);
                    }
                    let own = &self.entries[at].statistics;
                    if own.cardinality().checked_add(row.statistics.cardinality()).is_none()
                        || own.number_of_bytes().checked_add(
                        row.statistics.number_of_bytes(),
                    ).is_none() {
                        return false;
                    }
                },
                None => {
                    proof {
                        row.statistics.lemma_fits();
                    }
                },
            }
            i += 1;
        }
        proof {
            assert forall|kind: Seq<char>| #[trigger]
                merged.histogram.contains_key(kind) implies merged.histogram[kind].fits() by {
                if listed(other.entries@, kind) {
                    let at = position(other.entries@, kind);
                    assert(other.entries@[at].name@ == kind);
                } else {
                    let at = position(self.entries@, kind);
                    lemma_row(self.entries@, at);
                    self.entries@[at].statistics.lemma_fits();
                }
            }
        }
        true
    }

    /// Number of rejected records.
    pub fn errors(&self) -> (errors: usize)
        ensures
            errors == self@.errors,
    {
        self.errors
    }

    /// Counters of `kind`, where the histogram has an entry for it.
    pub fn get(&self, kind: &str) -> (found: Option<Statistics>)
        ensures
            match found {
                Some(statistics) => self@.histogram.contains_key(kind@)
                    && self@.histogram[kind@] == statistics@,
                None => !self@.histogram.contains_key(kind@),
            },
    {
        proof {
            use_type_invariant(self);
        }
        match find(&self.entries, kind) {
            Some(i) => {
                proof {
                    lemma_row(self.entries@, i as int);
                }
                Some(self.entries[i].statistics)
            },
            None => None,
        }
    }

    /// Number of types in the histogram.
    pub fn len(&self) -> (len: usize)
        ensures
            self@.histogram.dom().finite(),
            len == self@.histogram.len(),
    {
        proof {
            use_type_invariant(self);
            lemma_size(self.entries@);
        }
        self.entries.len()
    }

    /// The type name and counters of each entry; the order has no meaning.
    pub fn rows(&self) -> (rows: Vec<(String, Statistics)>)
        ensures
            lists(rows@, self@.histogram),
    {
        proof {
            use_type_invariant(self);
        }
        let mut rows: Vec<(String, Statistics)> = Vec::new();
        let mut i: usize = 0;
        while i < self.entries.len()
            invariant
                i <= self.entries@.len(),
                rows@.len() == i,
                forall|j: int|
                    0 <= j < i ==> (#[trigger] rows@[j]).0@ == self.entries@[j].name@
                        && rows@[j].1@ == self.entries@[j].statistics@,
            decreases self.entries@.len() - i,
        {
            rows.push((self.entries[i].name.clone(), self.entries[i].statistics));
            i += 1;
        }
        proof {
            let entries = self.entries@;
            assert forall|a: int, b: int| 0 <= a < b < rows@.len() implies (#[trigger] rows@[a]).0@
                != (#[trigger] rows@[b]).0@ by {
                assert(entries[a].name@ != entries[b].name@);
            }
            assert forall|j: int| 0 <= j < rows@.len() implies self@.histogram.contains_key(
                (#[trigger] rows@[j]).0@,
            ) && self@.histogram[rows@[j].0@] == rows@[j].1@ by {
                lemma_row(entries, j);
            }
            assert forall|kind: Seq<char>| self@.histogram.contains_key(kind) implies exists|j: int|
                0 <= j < rows@.len() && (#[trigger] rows@[j]).0@ == kind by {
                let p = position(entries, kind);
                assert(rows@[p].0@ == kind);
            }
        }
        rows
    }
}

/// `rows` name every key of `histogram` once, each with its counters.
pub open spec fn lists(
    rows: Seq<(String, Statistics)>,
    histogram: Map<Seq<char>, StatisticsView>,
) -> bool {
    &&& forall|a: int, b: int|
        0 <= a < b < rows.len() ==> (#[trigger] rows[a]).0@ != (#[trigger] rows[b]).0@
    &&& forall|j: int|
        0 <= j < rows.len() ==> histogram.contains_key((#[trigger] rows[j]).0@)
            && histogram[rows[j].0@] == rows[j].1@
    &&& forall|kind: Seq<char>|
        histogram.contains_key(kind) ==> exists|j: int|
            0 <= j < rows.len() && (#[trigger] rows[j]).0@ == kind
}

/// The histogram that merging `rows` into `base` gives.
spec fn merged_with(
    base: Map<Seq<char>, StatisticsView>,
    rows: Seq<Entry>,
) -> Map<Seq<char>, StatisticsView> {
    (ReportView { errors: 0, histogram: base }).merge(
        ReportView { errors: 0, histogram: histogram_of(rows) },
    ).histogram
}

/// Rows with distinct names make a map with one key for each row.
proof fn lemma_size(entries: Seq<Entry>)
    requires
        distinct(entries),
    ensures
        histogram_of(entries).dom().finite(),
        histogram_of(entries).len() == entries.len(),
    decreases entries.len(),
{
    if entries.len() == 0 {
        assert(histogram_of(entries) =~= Map::empty());
    } else {
        let front = entries.drop_last();
        assert(entries =~= front.push(entries.last()));
        lemma_push_row(front, entries.last());
        lemma_size(front);
    }
}

/// Merging does not depend on which report comes first.
pub proof fn lemma_merge_commutative(a: ReportView, b: ReportView)
    ensures
        a.merge(b) == b.merge(a),
{
    assert(a.merge(b) =~= b.merge(a));
}

/// Merging three reports gives the same aggregate however they are grouped.
pub proof fn lemma_merge_associative(a: ReportView, b: ReportView, c: ReportView)
    ensures
        a.merge(b).merge(c) == a.merge(b.merge(c)),
{
    assert(a.merge(b).merge(c) =~= a.merge(b.merge(c)));
}

/// The empty report is neutral for merging, on either side.
pub proof fn lemma_merge_identity(a: ReportView)
    ensures
        ReportView::empty().merge(a) == a,
        a.merge(ReportView::empty()) == a,
{
    assert(ReportView::empty().merge(a) =~= a);
    assert(a.merge(ReportView::empty()) =~= a);
}

/// Where a merged report fits the machine word, both of its parts do.
pub proof fn lemma_merge_fits(a: ReportView, b: ReportView)
    requires
        a.merge(b).fits(),
    ensures
        a.fits(),
        b.fits(),
{
    let merged = a.merge(b);
    assert forall|kind: Seq<char>| #[trigger] a.histogram.contains_key(kind) implies a.histogram[kind].fits() by {
        assert(merged.histogram.contains_key(kind));
    }
    assert forall|kind: Seq<char>| #[trigger] b.histogram.contains_key(kind) implies b.histogram[kind].fits() by {
        assert(merged.histogram.contains_key(kind));
    }
}

/// Limits on two reports add up to a limit on their merge.
pub proof fn lemma_merge_bounded(a: ReportView, b: ReportView, limit_a: nat, limit_b: nat)
    requires
        a.bounded_by(limit_a),
        b.bounded_by(limit_b),
    ensures
        a.merge(b).bounded_by(limit_a + limit_b),
{
}

/// Counting a rejected record is merging with a report of one error.
pub proof fn lemma_on_error_is_merge(a: ReportView)
    ensures
        a.on_error() == a.merge(ReportView::empty().on_error()),
{
    assert(a.on_error() =~= a.merge(ReportView::empty().on_error()));
}

/// Adding to the counters of a type is merging with a report of that entry alone.
pub proof fn lemma_update_is_merge(
    a: ReportView,
    kind: Seq<char>,
    cardinality: nat,
    number_of_bytes: nat,
)
    ensures
        a.update(kind, cardinality, number_of_bytes) == a.merge(
            ReportView::empty().update(kind, cardinality, number_of_bytes),
        ),
{
    assert(a.update(kind, cardinality, number_of_bytes) =~= a.merge(
        ReportView::empty().update(kind, cardinality, number_of_bytes),
    ));
}

} // verus!

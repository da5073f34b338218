//! Counting how often each color occurs.

use vstd::prelude::*;
use std::collections::HashMap;
use crate::color::Rgb;

verus! {

/// One line of a histogram as a mathematical value.
pub struct ColorTally {
    pub color: Rgb,
    pub count: nat,
}

/// One line of a histogram: a color and the number of samples that had it.
#[derive(Clone, Copy, Debug, PartialEq, Eq, Structural)]
pub struct ColorCount {
    pub color: Rgb,
    pub count: u64,
}

impl View for ColorCount {
    type V = ColorTally;

    open spec fn view(&self) -> ColorTally {
        ColorTally { color: self.color, count: self.count as nat }
    }
}

/// What a histogram holds: its lines in order, and the number of samples
/// that were counted.
pub struct HistogramView {
    pub entries: Seq<ColorTally>,
    pub total: nat,
}

/// The distinct colors of `colors`, in the order in which each first occurs.
pub open spec fn first_seen(colors: Seq<Rgb>) -> Seq<Rgb>
    decreases colors.len(),
{
    if colors.len() == 0 {
        Seq::empty()
    } else {
        let earlier = first_seen(colors.drop_last());
        if earlier.contains(colors.last()) {
            earlier
        } else {
            earlier.push(colors.last())
        }
    }
}

/// How many entries of `colors` are `key`.
pub open spec fn occurrences(colors: Seq<Rgb>, key: Rgb) -> nat {
    colors.to_multiset().count(key)
}

/// The histogram of a sequence of colors: one line for each distinct color,
/// in the order of first occurrence, with the number of its occurrences.
pub open spec fn histogram_of(colors: Seq<Rgb>) -> HistogramView {
    HistogramView {
        entries: first_seen(colors).map_values(
            |key: Rgb| ColorTally { color: key, count: occurrences(colors, key) },
        ),
        total: colors.len(),
    }
}

/// The sum of the counts of `entries`.
pub open spec fn sum_counts(entries: Seq<ColorTally>) -> nat
    decreases entries.len(),
{
    if entries.len() == 0 {
        0
    } else {
        sum_counts(entries.drop_last()) + entries.last().count
    }
}

impl HistogramView {
    /// The colors of the lines, in their order.
    pub open spec fn colors(self) -> Seq<Rgb> {
        self.entries.map_values(|entry: ColorTally| entry.color)
    }

    /// The count on the line of `key`, or zero if `key` has no line.
    pub open spec fn count_of(self, key: Rgb) -> nat {
        if self.colors().contains(key) {
            self.entries[self.colors().index_of(key)].count
        } else {
            0
        }
    }

    /// No color has two lines, no line is empty, and the counts add up to
    /// the total.
    pub open spec fn is_distribution(self) -> bool {
        &&& self.colors().no_duplicates()
        &&& forall|i: int| 0 <= i < self.entries.len() ==> (#[trigger] self.entries[i]).count > 0
        &&& sum_counts(self.entries) == self.total
    }
}

/// A color is among the first-seen colors exactly if it occurs.
pub proof fn lemma_first_seen_contains(colors: Seq<Rgb>, key: Rgb)
    ensures
        first_seen(colors).contains(key) <==> colors.contains(key),
    decreases colors.len(),
{
    if colors.len() > 0 {
        let rest = colors.drop_last();
        lemma_first_seen_contains(rest, key);
        assert(colors =~= rest.push(colors.last()));
        if colors.contains(key) {
            let i = choose|i: int| 0 <= i < colors.len() && colors[i] == key;
            if i < rest.len() {
                assert(rest[i] == key);
            }
        }
        if rest.contains(key) {
            let i = choose|i: int| 0 <= i < rest.len() && rest[i] == key;
            assert(colors[i] == key);
        }
        let earlier = first_seen(rest);
        if earlier.contains(key) && !earlier.contains(colors.last()) {
            let i = choose|i: int| 0 <= i < earlier.len() && earlier[i] == key;
            assert(earlier.push(colors.last())[i] == key);
        }
        if !earlier.contains(colors.last()) {
            assert(earlier.push(colors.last())[earlier.len() as int] == colors.last());
        }
    }
}

/// No color is listed twice among the first-seen colors.
pub proof fn lemma_first_seen_distinct(colors: Seq<Rgb>)
    ensures
        first_seen(colors).no_duplicates(),
    decreases colors.len(),
{
    if colors.len() > 0 {
        lemma_first_seen_distinct(colors.drop_last());
    }
}

/// One more sample adds one to the count of its color and leaves the other
/// counts as they were.
pub proof fn lemma_occurrences_push(colors: Seq<Rgb>, next: Rgb, key: Rgb)
    ensures
        occurrences(colors.push(next), key) == occurrences(colors, key) + (if next == key {
            1nat
        } else {
            0nat
        }),
{
    broadcast use vstd::multiset::group_multiset_axioms;

    vstd::seq_lib::to_multiset_build(colors, next);
}

/// A color occurs exactly if its number of occurrences is not zero, and
/// that number is at most the number of samples.
pub proof fn lemma_occurrences_bounds(colors: Seq<Rgb>, key: Rgb)
    ensures
        colors.contains(key) <==> occurrences(colors, key) > 0,
        occurrences(colors, key) <= colors.len(),
    decreases colors.len(),
{
    vstd::seq_lib::to_multiset_contains(colors, key);
    if colors.len() > 0 {
        let rest = colors.drop_last();
        assert(colors =~= rest.push(colors.last()));
        lemma_occurrences_bounds(rest, key);
        lemma_occurrences_push(rest, colors.last(), key);
    }
}

/// The first-seen colors after one more sample: the sample's color joins
/// them at the end if it is new.
pub proof fn lemma_first_seen_push(colors: Seq<Rgb>, next: Rgb)
    ensures
        first_seen(colors.push(next)) == (if colors.contains(next) {
            first_seen(colors)
        } else {
            first_seen(colors).push(next)
        }),
{
    assert(colors.push(next).drop_last() =~= colors);
    lemma_first_seen_contains(colors, next);
}

/// The histogram after one more sample. If the sample's color has a line,
/// that line's count grows by one; if it has none, a line with count one is
/// added at the end. Nothing else changes.
pub proof fn lemma_histogram_push(colors: Seq<Rgb>, next: Rgb)
    ensures
        histogram_of(colors.push(next)).total == histogram_of(colors).total + 1,
        forall|at: int|
            0 <= at < histogram_of(colors).entries.len() && (#[trigger] histogram_of(
                colors,
            ).entries[at]).color == next ==> histogram_of(colors.push(next)).entries
                == histogram_of(colors).entries.update(
                at,
                ColorTally { color: next, count: histogram_of(colors).entries[at].count + 1 },
            ),
        !colors.contains(next) ==> histogram_of(colors.push(next)).entries == histogram_of(
            colors,
        ).entries.push(ColorTally { color: next, count: 1 }),
        colors.contains(next) <==> histogram_of(colors).colors().contains(next),
{
    let before = histogram_of(colors).entries;
    let after = histogram_of(colors.push(next)).entries;
    lemma_first_seen_push(colors, next);
    lemma_first_seen_contains(colors, next);
    lemma_first_seen_distinct(colors);
    assert(histogram_of(colors).colors() =~= first_seen(colors));
    assert forall|key: Rgb|
        occurrences(colors.push(next), key) == occurrences(colors, key) + (if next == key {
            1nat
        } else {
            0nat
        }) by {
        lemma_occurrences_push(colors, next, key);
    }
    if colors.contains(next) {
        assert forall|at: int| 0 <= at < before.len() && (#[trigger] before[at]).color
            == next implies after == before.update(
            at,
            ColorTally { color: next, count: before[at].count + 1 },
        ) by {
            // No other line holds `next`, so all other counts stay.
            assert(after =~= before.update(
                at,
                ColorTally { color: next, count: before[at].count + 1 },
            ));
        }
    } else {
        lemma_occurrences_bounds(colors, next);
        assert(after =~= before.push(ColorTally { color: next, count: 1 }));
    }
}

/// Replacing one line changes the sum of the counts by the difference of
/// the two lines' counts.
pub proof fn lemma_sum_counts_update(entries: Seq<ColorTally>, at: int, line: ColorTally)
    requires
        0 <= at < entries.len(),
    ensures
        sum_counts(entries.update(at, line)) + entries[at].count == sum_counts(entries)
            + line.count,
    decreases entries.len(),
{
    let changed = entries.update(at, line);
    if at == entries.len() - 1 {
        assert(changed.drop_last() =~= entries.drop_last());
    } else {
        assert(changed.drop_last() =~= entries.drop_last().update(at, line));
        lemma_sum_counts_update(entries.drop_last(), at, line);
    }
}

/// No line counts more than all lines together.
pub proof fn lemma_count_at_most_sum(entries: Seq<ColorTally>, at: int)
    requires
        0 <= at < entries.len(),
    ensures
        entries[at].count <= sum_counts(entries),
    decreases entries.len(),
{
    if at < entries.len() - 1 {
        lemma_count_at_most_sum(entries.drop_last(), at);
    }
}

/// The histogram of any sequence of colors is a distribution: its counts
/// are positive and add up to the number of samples.
pub proof fn lemma_histogram_is_distribution(colors: Seq<Rgb>)
    ensures
        histogram_of(colors).is_distribution(),
    decreases colors.len(),
{
    let hist = histogram_of(colors);
    lemma_first_seen_distinct(colors);
    assert(hist.colors() =~= first_seen(colors));
    assert forall|i: int| 0 <= i < hist.entries.len() implies (#[trigger] hist.entries[i]).count
        > 0 by {
        let key = first_seen(colors)[i];
        lemma_first_seen_contains(colors, key);
        lemma_occurrences_bounds(colors, key);
    }
    if colors.len() > 0 {
        let rest = colors.drop_last();
        let next = colors.last();
        let before = histogram_of(rest).entries;
        assert(colors =~= rest.push(next));
        lemma_histogram_is_distribution(rest);
        lemma_histogram_push(rest, next);
        if rest.contains(next) {
            let at = choose|at: int|
                0 <= at < histogram_of(rest).colors().len() && histogram_of(rest).colors()[at]
                    == next;
            assert(before[at].color == next);
            lemma_sum_counts_update(
                before,
                at,
                ColorTally { color: next, count: before[at].count + 1 },
            );
        } else {
            assert(before.push(ColorTally { color: next, count: 1 }).drop_last() =~= before);
        }
    }
}

/// The count that the histogram of `colors` holds for a color is the number
/// of its occurrences in `colors`.
pub proof fn lemma_histogram_counts(colors: Seq<Rgb>, key: Rgb)
    ensures
        histogram_of(colors).count_of(key) == occurrences(colors, key),
{
    let hist = histogram_of(colors);
    assert(hist.colors() =~= first_seen(colors));
    lemma_first_seen_contains(colors, key);
    lemma_occurrences_bounds(colors, key);
}

/// In a distribution every count is positive and at most the total.
pub proof fn lemma_counts_within_total(hist: HistogramView)
    requires
        hist.is_distribution(),
    ensures
        forall|i: int|
            0 <= i < hist.entries.len() ==> 0 < (#[trigger] hist.entries[i]).count <= hist.total,
        hist.total == 0 <==> hist.entries.len() == 0,
{
    assert forall|i: int| 0 <= i < hist.entries.len() implies 0 < (#[trigger] hist.entries[
        i
    ]).count <= hist.total by {
        lemma_count_at_most_sum(hist.entries, i);
    }
    if hist.entries.len() > 0 {
        lemma_count_at_most_sum(hist.entries, 0);
        assert(hist.entries[0].count > 0);
    }
}

/// Samples that all have one color `key` give a single line, which holds
/// `key` with the number of samples; no samples give no line.
pub proof fn lemma_single_color(colors: Seq<Rgb>, key: Rgb)
    requires
        forall|i: int| 0 <= i < colors.len() ==> colors[i] == key,
    ensures
        colors.len() == 0 ==> histogram_of(colors).entries == Seq::<ColorTally>::empty(),
        colors.len() > 0 ==> histogram_of(colors).entries == seq![
            ColorTally { color: key, count: colors.len() },
        ],
    decreases colors.len(),
{
    if colors.len() == 0 {
        assert(histogram_of(colors).entries =~= Seq::<ColorTally>::empty());
    } else {
        let rest = colors.drop_last();
        assert(colors =~= rest.push(key));
        lemma_single_color(rest, key);
        lemma_histogram_push(rest, key);
        if rest.len() == 0 {
            assert(!rest.contains(key));
            assert(histogram_of(colors).entries =~= seq![ColorTally { color: key, count: 1 }]);
        } else {
            assert(histogram_of(rest).entries[0].color == key);
            assert(histogram_of(colors).entries =~= seq![
                ColorTally { color: key, count: colors.len() },
            ]);
        }
    }
}

/// Lines that all hold the count `each` add up to that count times their
/// number.
pub proof fn lemma_sum_of_equal_counts(entries: Seq<ColorTally>, each: nat)
    requires
        forall|i: int| 0 <= i < entries.len() ==> (#[trigger] entries[i]).count == each,
    ensures
        sum_counts(entries) == entries.len() * each,
    decreases entries.len(),
{
    if entries.len() > 0 {
        lemma_sum_of_equal_counts(entries.drop_last(), each);
        assert((entries.len() - 1) * each + each == entries.len() * each) by (nonlinear_arith);
    }
}

/// Where every color that occurs does so `each` times, every line holds the
/// count `each`, and the number of lines times `each` is the number of
/// samples.
pub proof fn lemma_equal_shares(colors: Seq<Rgb>, each: nat)
    requires
        forall|key: Rgb| colors.contains(key) ==> occurrences(colors, key) == each,
    ensures
        forall|i: int|
            0 <= i < histogram_of(colors).entries.len() ==> (#[trigger] histogram_of(
                colors,
            ).entries[i]).count == each,
        histogram_of(colors).entries.len() * each == colors.len(),
{
    let hist = histogram_of(colors);
    assert forall|i: int| 0 <= i < hist.entries.len() implies (#[trigger] hist.entries[i]).count
        == each by {
        lemma_first_seen_contains(colors, first_seen(colors)[i]);
        assert(first_seen(colors).contains(first_seen(colors)[i]));
    }
    lemma_histogram_is_distribution(colors);
    lemma_sum_of_equal_counts(hist.entries, each);
}

/// The lines of a histogram as mathematical values.
pub open spec fn tallies(entries: Seq<ColorCount>) -> Seq<ColorTally> {
    entries.map_values(|entry: ColorCount| entry@)
}

/// The colors of a set of samples with the number of samples of each.
pub struct Histogram {
    entries: Vec<ColorCount>,
    total: u64,
}

impl View for Histogram {
    type V = HistogramView;

    closed spec fn view(&self) -> HistogramView {
        HistogramView { entries: tallies(self.entries@), total: self.total as nat }
    }
}

impl Histogram {
    /// Holds of every histogram: see [`HistogramView::is_distribution`].
    #[verifier::type_invariant]
    pub open spec fn well_formed(&self) -> bool {
        self@.is_distribution()
    }

    /// The number of samples counted.
    pub fn total(&self) -> (total: u64)
        ensures
            total == self@.total,
    {
        self.total
    }

    /// The lines, in the order in which their colors were first met. Their
    /// counts are positive and add up to the total.
    pub fn entries(&self) -> (entries: &Vec<ColorCount>)
        ensures
            tallies(entries@) == self@.entries,
            self@.is_distribution(),
    {
        proof {
            use_type_invariant(self);
        }
        &self.entries
    }

    /// The number of samples of color `key`.
    pub fn count_of(&self, key: Rgb) -> (count: u64)
        ensures
            count == self@.count_of(key),
    {
        proof {
            use_type_invariant(self);
        }
        let ghost colors = self@.colors();
        let mut at: usize = 0;
        while at < self.entries.len()
            invariant
                at <= self.entries.len(),
                colors == self@.colors(),
                colors.len() == self.entries@.len(),
                colors.no_duplicates(),
                forall|i: int| 0 <= i < at ==> colors[i] != key,
            decreases self.entries.len() - at,
        {
            let line = self.entries[at];
            assert(colors[at as int] == line.color);
            if line.color == key {
                return line.count;
            }
            at = at + 1;
        }
        0
    }
}

/// A histogram under construction: the lines so far, and for each color
/// that has a line, the place of that line.
pub struct Tally {
    entries: Vec<ColorCount>,
    places: HashMap<u32, usize>,
    total: u64,
    seen: Ghost<Seq<Rgb>>,
}

impl Tally {
    /// The colors counted so far, in the order in which they came.
    pub closed spec fn seen(&self) -> Seq<Rgb> {
        self.seen@
    }

    /// The lines are the histogram of the colors counted so far, and each
    /// color's place is where its line stands.
    #[verifier::type_invariant]
    spec fn well_formed(&self) -> bool {
        &&& tallies(self.entries@) == histogram_of(self.seen@).entries
        &&& self.total == self.seen@.len()
        &&& forall|i: int|
            0 <= i < self.entries@.len() ==> self.places@.contains_key(
                (#[trigger] self.entries@[i]).color.code(),
            ) && self.places@[self.entries@[i].color.code()] == i
        &&& forall|code: u32| #[trigger]
            self.places@.contains_key(code) ==> self.places@[code] < self.entries@.len()
                && self.entries@[self.places@[code] as int].color.code() == code
    }

    /// A tally of no samples.
    pub fn new() -> (tally: Tally)
        ensures
            tally.seen() == Seq::<Rgb>::empty(),
    {
        let entries: Vec<ColorCount> = Vec::new();
        assert(tallies(entries@) =~= histogram_of(Seq::<Rgb>::empty()).entries);
        Tally { entries, places: HashMap::new(), total: 0, seen: Ghost(Seq::empty()) }
    }

    /// Counts one more sample of color `key`.
    pub fn record(self, key: Rgb) -> (next: Tally)
        requires
            self.seen().len() < u64::MAX,
        ensures
            next.seen() == self.seen().push(key),
    {
        proof {
            use_type_invariant(&self);
        }
        let Tally { entries, places, total, seen } = self;
        let mut entries = entries;
        let mut places = places;
        let ghost before = seen@;
        let ghost lines = tallies(entries@);
        proof {
            lemma_histogram_push(before, key);
            assert(histogram_of(before).colors() =~= entries@.map_values(
                |entry: ColorCount| entry.color,
            ));
        }
        let code = key.packed();
        match places.get(&code) {
            Some(place) => {
                let at: usize = *place;
                let line = entries[at];
                proof {
                    line.color.lemma_code_injective(key);
                    assert(lines[at as int].color == key);
                    lemma_occurrences_bounds(before, key);
                }
                entries.set(at, ColorCount { color: key, count: line.count + 1 });
                assert(tallies(entries@) =~= lines.update(
                    at as int,
                    ColorTally { color: key, count: lines[at as int].count + 1 },
                ));
            },
            None => {
                proof {
                    if before.contains(key) {
                        let at = choose|at: int|
                            0 <= at < histogram_of(before).colors().len() && histogram_of(
                                before,
                            ).colors()[at] == key;
                        assert(entries@[at].color == key);
                    }
                }
                let ghost known = places@;
                places.insert(code, entries.len());
                entries.push(ColorCount { color: key, count: 1 });
                assert(tallies(entries@) =~= lines.push(ColorTally { color: key, count: 1 }));
                assert forall|other: u32| #[trigger]
                    places@.contains_key(other) implies places@[other] < entries@.len()
                    && entries@[places@[other] as int].color.code() == other by {
                    if other != code {
                        assert(known.contains_key(other));
                    }
                }
            },
        }
        Tally { entries, places, total: total + 1, seen: Ghost(before.push(key)) }
    }

    /// The histogram of the samples counted.
    pub fn finish(self) -> (hist: Histogram)
        ensures
            hist@ == histogram_of(self.seen()),
    {
        proof {
            use_type_invariant(&self);
            lemma_histogram_is_distribution(self.seen@);
        }
        Histogram { entries: self.entries, total: self.total }
    }
}

} // verus!

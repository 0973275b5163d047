//! The course of the statistics: what is settled before the figures are calculated, and what
//! follows from them.

use vstd::prelude::*;

use crate::binary64::Real;
use crate::inference::stats::admission::{classify_events, on_track, passes, prefilter_events,
    track_of};
use crate::inference::stats::category::{category_groups, category_of, category_pairs, group_views,
    grouped, law_recurrence_counts_category, motive_groups, motive_pairs, recurrence_counts,
    recurrences};
use crate::inference::stats::config::{event_views, tells_category, tells_motive, AdmissionTrack,
    CategoryStats, CrossCategoryMetrics, EventView, GroupFigures, MemoryEvent, MotiveStats,
    StatsConfig};
use crate::inference::stats::representative::{is_selection, select_representative_events,
    tells_selection, RepresentativeEvent};
use crate::order::{key_lt, key_seqs, lemma_lists_all, lists_all, record_before, stable_order};
use crate::text::{copy_text, texts};

verus! {

/// What is settled before the figures are calculated.
#[derive(Debug)]
pub struct StatsPlan {
    pub total_events_in: usize,
    pub confirmed_count: usize,
    pub tentative_count: usize,
    pub discarded_count: usize,
    /// The events that count.
    pub active: Vec<MemoryEvent>,
    /// The numbers of the active events of each category.
    pub categories: Vec<(String, Vec<usize>)>,
    /// How many active events share the category of each.
    pub recurrence: Vec<usize>,
    /// The largest number of these.
    pub max_recurrence: usize,
    /// The numbers of the active events of each motive; none without calibrated weights.
    pub motives: Vec<(String, Vec<usize>)>,
}

/// The events that count: by their tracks, or without calibrated weights those that pass.
pub open spec fn active_events(events: Seq<EventView>, config: StatsConfig) -> Seq<EventView> {
    if config.use_calibrated_weights {
        on_track(events, AdmissionTrack::Confirmed) + on_track(events, AdmissionTrack::Tentative)
    } else {
        events.filter(|e: EventView| passes(e, config))
    }
}

/// The number of confirmed events; without calibrated weights all that pass count as such.
pub open spec fn confirmed_number(events: Seq<EventView>, config: StatsConfig) -> nat {
    if config.use_calibrated_weights {
        on_track(events, AdmissionTrack::Confirmed).len()
    } else {
        active_events(events, config).len()
    }
}

/// Settles which events count and how they are grouped.
pub fn plan_phase_a_stats(events: &Vec<MemoryEvent>, config: &StatsConfig) -> (r: StatsPlan)
    ensures
        r.total_events_in == events@.len(),
        event_views(r.active@) == active_events(event_views(events@), *config),
        r.confirmed_count == confirmed_number(event_views(events@), *config),
        r.confirmed_count + r.tentative_count == r.active@.len(),
        r.active@.len() + r.discarded_count == r.total_events_in,
        grouped(category_pairs(event_views(r.active@)), group_views(r.categories@)),
        r.recurrence@.map_values(|n: usize| n as int) == recurrences(event_views(r.active@)),
        forall|i: int| 0 <= i < r.recurrence@.len() ==> #[trigger] r.recurrence@[i]
            <= r.max_recurrence,
        r.active@.len() > 0 ==> r.max_recurrence > 0 && r.recurrence@.contains(r.max_recurrence),
        r.active@.len() == 0 ==> r.max_recurrence == 0,
        if config.use_calibrated_weights {
            grouped(motive_pairs(event_views(r.active@)), group_views(r.motives@))
        } else {
            r.motives@.len() == 0
        },
{
    let total_events_in: usize = events.len();
    let (active, confirmed_count, tentative_count, discarded_count) =
        if config.use_calibrated_weights {
        let classified = classify_events(events);
        let active = classified.active_events();
        assert(active@.len() == event_views(active@).len());
        assert(classified.confirmed@.len() == event_views(classified.confirmed@).len());
        assert(classified.tentative@.len() == event_views(classified.tentative@).len());
        (
            active,
            classified.confirmed.len(),
            classified.tentative.len(),
            classified.discarded_count,
        )
    } else {
        let (active, excluded) = prefilter_events(events, config);
        let n: usize = active.len();
        assert(active@.len() == event_views(active@).len());
        (active, n, 0, excluded)
    };
    let categories = category_groups(&active);
    let (recurrence, max_recurrence) = recurrence_counts(&active);
    assert(recurrence@.map_values(|n: usize| n as int).len() == active@.len());
    let motives = if config.use_calibrated_weights {
        motive_groups(&active)
    } else {
        Vec::new()
    };
    StatsPlan {
        total_events_in,
        confirmed_count,
        tentative_count,
        discarded_count,
        active,
        categories,
        recurrence,
        max_recurrence,
        motives,
    }
}

/// Whether `p` lists all positions of `values`, the largest values first; equal ones keep
/// their order.
pub open spec fn descending(p: Seq<usize>, values: Seq<Real>) -> bool {
    &&& lists_all(p, values.len() as int)
    &&& forall|a: int, b: int|
        0 <= a < b < p.len() ==> {
            let x = values[#[trigger] p[a] as int].rank();
            let y = values[#[trigger] p[b] as int].rank();
            x > y || (x == y && p[a] < p[b])
        }
}

/// The positions of values, the largest values first; equal ones keep their order.
pub fn descending_order(values: &Vec<Real>) -> (p: Vec<usize>)
    ensures
        descending(p@, values@),
{
    let mut keys: Vec<Vec<i128>> = Vec::new();
    let mut i: usize = 0;
    while i < values.len()
        invariant
            i <= values@.len(),
            keys@.len() == i,
            forall|j: int|
                0 <= j < i ==> (#[trigger] keys@[j])@ == seq![(-values@[j].rank()) as i128],
        decreases values@.len() - i,
    {
        let mut key: Vec<i128> = Vec::new();
        key.push(values[i].negated_rank());
        assert(key@ =~= seq![(-values@[i as int].rank()) as i128]);
        keys.push(key);
        i += 1;
    }
    let p = stable_order(&keys);
    let ghost ks = key_seqs(keys@);
    proof {
        assert forall|a: int, b: int| 0 <= a < b < p@.len() implies {
            let x = values@[#[trigger] p@[a] as int].rank();
            let y = values@[#[trigger] p@[b] as int].rank();
            x > y || (x == y && p@[a] < p@[b])
        } by {
            reveal_with_fuel(key_lt, 2);
            let i = p@[a] as int;
            let j = p@[b] as int;
            assert(record_before(ks, i, j));
            assert(ks[i] == keys@[i]@);
            assert(ks[j] == keys@[j]@);
            assert(ks[i][0] == -values@[i].rank());
            assert(ks[j][0] == -values@[j].rank());
        }
    }
    p
}

/// The weights of groups.
pub open spec fn group_weights(figures: Seq<GroupFigures>) -> Seq<Real> {
    figures.map_values(|f: GroupFigures| f.group_weight)
}

/// The sizes of groups.
pub open spec fn group_sizes(figures: Seq<GroupFigures>) -> Seq<Real> {
    figures.map_values(|f: GroupFigures| f.n_eff)
}

/// Whether `r` tells what is known of the categories, the heaviest first.
pub open spec fn ranks_categories(
    groups: Seq<(String, Vec<usize>)>,
    figures: Seq<GroupFigures>,
    r: Seq<CategoryStats>,
) -> bool {
    exists|order: Seq<usize>|
        {
            &&& #[trigger] descending(order, group_weights(figures))
            &&& r.len() == order.len()
            &&& forall|i: int|
                0 <= i < r.len() ==> tells_category(
                    #[trigger] r[i],
                    groups[order[i] as int].0@,
                    groups[order[i] as int].1@.len(),
                    figures[order[i] as int],
                )
        }
}

/// Whether `r` tells what is known of the motives, the largest first.
pub open spec fn ranks_motives(
    groups: Seq<(String, Vec<usize>)>,
    figures: Seq<GroupFigures>,
    r: Seq<MotiveStats>,
) -> bool {
    exists|order: Seq<usize>|
        {
            &&& #[trigger] descending(order, group_sizes(figures))
            &&& r.len() == order.len()
            &&& forall|i: int|
                0 <= i < r.len() ==> tells_motive(
                    #[trigger] r[i],
                    groups[order[i] as int].0@,
                    groups[order[i] as int].1@.len(),
                    figures[order[i] as int],
                )
        }
}

/// What is known of the categories, the heaviest first, where `figures` holds the figures of
/// each group.
pub fn rank_categories(groups: &Vec<(String, Vec<usize>)>, figures: &Vec<GroupFigures>) -> (r: Vec<
    CategoryStats,
>)
    requires
        figures@.len() == groups@.len(),
    ensures
        ranks_categories(groups@, figures@, r@),
        r@.len() == groups@.len(),
{
    let mut weights: Vec<Real> = Vec::new();
    let mut k: usize = 0;
    while k < figures.len()
        invariant
            k <= figures@.len(),
            weights@.len() == k,
            forall|j: int| 0 <= j < k ==> #[trigger] weights@[j] == figures@[j].group_weight,
        decreases figures@.len() - k,
    {
        weights.push(figures[k].group_weight);
        k += 1;
    }
    assert(weights@ =~= group_weights(figures@));
    let order = descending_order(&weights);
    let mut out: Vec<CategoryStats> = Vec::new();
    let mut i: usize = 0;
    while i < order.len()
        invariant
            i <= order@.len(),
            figures@.len() == groups@.len(),
            lists_all(order@, groups@.len() as int),
            out@.len() == i,
            forall|j: int|
                0 <= j < i ==> tells_category(
                    #[trigger] out@[j],
                    groups@[order@[j] as int].0@,
                    groups@[order@[j] as int].1@.len(),
                    figures@[order@[j] as int],
                ),
        decreases order@.len() - i,
    {
        assert(0 <= order@[i as int] < groups@.len());
        let g = &groups[order[i]];
        out.push(CategoryStats::new(g.0.as_str(), g.1.len(), &figures[order[i]]));
        i += 1;
    }
    assert(descending(order@, group_weights(figures@)));
    out
}

/// What is known of the motives, the largest first, where `figures` holds the figures of each
/// group.
pub fn rank_motives(groups: &Vec<(String, Vec<usize>)>, figures: &Vec<GroupFigures>) -> (r: Vec<
    MotiveStats,
>)
    requires
        figures@.len() == groups@.len(),
    ensures
        ranks_motives(groups@, figures@, r@),
        r@.len() == groups@.len(),
{
    let mut sizes: Vec<Real> = Vec::new();
    let mut k: usize = 0;
    while k < figures.len()
        invariant
            k <= figures@.len(),
            sizes@.len() == k,
            forall|j: int| 0 <= j < k ==> #[trigger] sizes@[j] == figures@[j].n_eff,
        decreases figures@.len() - k,
    {
        sizes.push(figures[k].n_eff);
        k += 1;
    }
    assert(sizes@ =~= group_sizes(figures@));
    let order = descending_order(&sizes);
    let mut out: Vec<MotiveStats> = Vec::new();
    let mut i: usize = 0;
    while i < order.len()
        invariant
            i <= order@.len(),
            figures@.len() == groups@.len(),
            lists_all(order@, groups@.len() as int),
            out@.len() == i,
            forall|j: int|
                0 <= j < i ==> tells_motive(
                    #[trigger] out@[j],
                    groups@[order@[j] as int].0@,
                    groups@[order@[j] as int].1@.len(),
                    figures@[order@[j] as int],
                ),
        decreases order@.len() - i,
    {
        assert(0 <= order@[i as int] < groups@.len());
        let g = &groups[order[i]];
        out.push(MotiveStats::new(g.0.as_str(), g.1.len(), &figures[order[i]]));
        i += 1;
    }
    assert(descending(order@, group_sizes(figures@)));
    out
}

/// All that the statistics tell.
#[derive(Debug, Clone)]
pub struct StatsSummary {
    pub total_events_in: usize,
    /// The number of events that count.
    pub total_events_filtered: usize,
    pub confirmed_count: usize,
    pub tentative_count: usize,
    pub discarded_count: usize,
    pub category_count: usize,
    /// The categories, the heaviest first.
    pub categories: Vec<CategoryStats>,
    pub cross_category: CrossCategoryMetrics,
    pub representative_events: Vec<RepresentativeEvent>,
    /// The motives, the largest first.
    pub motive_stats: Vec<MotiveStats>,
}

/// The figures of all events together.
#[derive(Debug, Clone, Copy, PartialEq, Eq, Structural)]
pub struct CrossFigures {
    pub emotional_stability: Real,
    pub narrative_consistency: Real,
    pub share_skewness: Real,
    pub share_kurtosis: Real,
}

/// The names of the categories.
pub open spec fn category_names(categories: Seq<CategoryStats>) -> Seq<Seq<char>> {
    categories.map_values(|c: CategoryStats| c.category@)
}

/// The figures of all categories together. Where there are two categories, their attitudes
/// can contradict each other.
pub fn cross_metrics(category_count: usize, cross: CrossFigures) -> (r: CrossCategoryMetrics)
    ensures
        r == (CrossCategoryMetrics {
            emotional_stability: cross.emotional_stability,
            narrative_consistency: cross.narrative_consistency,
            attitude_contradiction_count: if category_count >= 2 {
                1
            } else {
                0
            },
            share_skewness: cross.share_skewness,
            share_kurtosis: cross.share_kurtosis,
        }),
{
    CrossCategoryMetrics {
        emotional_stability: cross.emotional_stability,
        narrative_consistency: cross.narrative_consistency,
        attitude_contradiction_count: if category_count >= 2 {
            1
        } else {
            0
        },
        share_skewness: cross.share_skewness,
        share_kurtosis: cross.share_kurtosis,
    }
}

/// Puts together what was settled before and the figures, and selects the events that stand
/// for the categories, in the order of the categories.
pub fn finish_phase_a_stats(
    plan: StatsPlan,
    categories: Vec<CategoryStats>,
    motive_stats: Vec<MotiveStats>,
    cross: CrossFigures,
    config: &StatsConfig,
) -> (r: StatsSummary)
    ensures
        r.total_events_in == plan.total_events_in,
        r.total_events_filtered == plan.active@.len(),
        r.confirmed_count == plan.confirmed_count,
        r.tentative_count == plan.tentative_count,
        r.discarded_count == plan.discarded_count,
        r.category_count == categories@.len(),
        r.categories == categories,
        r.motive_stats == motive_stats,
        r.cross_category == (CrossCategoryMetrics {
            emotional_stability: cross.emotional_stability,
            narrative_consistency: cross.narrative_consistency,
            attitude_contradiction_count: if categories@.len() >= 2 {
                1
            } else {
                0
            },
            share_skewness: cross.share_skewness,
            share_kurtosis: cross.share_kurtosis,
        }),
        tells_selection(
            event_views(plan.active@),
            category_names(categories@),
            config.max_representative_events as nat,
            r.representative_events@,
        ),
{
    let mut names: Vec<String> = Vec::new();
    let mut i: usize = 0;
    while i < categories.len()
        invariant
            i <= categories@.len(),
            names@.len() == i,
            forall|j: int| 0 <= j < i ==> (#[trigger] names@[j])@ == categories@[j].category@,
        decreases categories@.len() - i,
    {
        names.push(copy_text(categories[i].category.as_str()));
        i += 1;
    }
    assert(texts(names@) =~= category_names(categories@));
    let representative_events = select_representative_events(
        &plan.active,
        &names,
        config.max_representative_events,
    );
    StatsSummary {
        total_events_in: plan.total_events_in,
        total_events_filtered: plan.active.len(),
        confirmed_count: plan.confirmed_count,
        tentative_count: plan.tentative_count,
        discarded_count: plan.discarded_count,
        category_count: categories.len(),
        cross_category: cross_metrics(categories.len(), cross),
        categories,
        representative_events,
        motive_stats,
    }
}

/// The weights of the categories never grow from one to the next.
pub proof fn law_categories_descend(
    groups: Seq<(String, Vec<usize>)>,
    figures: Seq<GroupFigures>,
    r: Seq<CategoryStats>,
    i: int,
    j: int,
)
    requires
        figures.len() == groups.len(),
        ranks_categories(groups, figures, r),
        0 <= i < j < r.len(),
    ensures
        r[i].group_weight.rank() >= r[j].group_weight.rank(),
{
    let weights = group_weights(figures);
    let order = choose|order: Seq<usize>|
        {
            &&& #[trigger] descending(order, group_weights(figures))
            &&& r.len() == order.len()
            &&& forall|i: int|
                0 <= i < r.len() ==> tells_category(
                    #[trigger] r[i],
                    groups[order[i] as int].0@,
                    groups[order[i] as int].1@.len(),
                    figures[order[i] as int],
                )
        };
    assert(descending(order, weights));
    assert(0 <= order[i] < weights.len() && 0 <= order[j] < weights.len());
    assert(weights[order[i] as int] == r[i].group_weight);
    assert(weights[order[j] as int] == r[j].group_weight);
}

/// Whether an event counts: it is on a track, or passes without calibrated weights.
pub open spec fn counts(e: EventView, config: StatsConfig) -> bool {
    if config.use_calibrated_weights {
        !(track_of(e.confidence) is Discarded)
    } else {
        passes(e, config)
    }
}

/// An event that does not count leaves the events that count as they were, wherever it stands
/// among them, and so all that is told of them; it adds one to the events that came in and to
/// those that were discarded.
pub proof fn law_discarded_changes_nothing(
    before: Seq<EventView>,
    e: EventView,
    after: Seq<EventView>,
    config: StatsConfig,
)
    requires
        !counts(e, config),
    ensures
        active_events(before.push(e) + after, config) == active_events(before + after, config),
        confirmed_number(before.push(e) + after, config) == confirmed_number(
            before + after,
            config,
        ),
        (before.push(e) + after).len() == (before + after).len() + 1,
{
    if config.use_calibrated_weights {
        lemma_filter_skips(
            before,
            e,
            after,
            |x: EventView| track_of(x.confidence) == AdmissionTrack::Confirmed,
        );
        lemma_filter_skips(
            before,
            e,
            after,
            |x: EventView| track_of(x.confidence) == AdmissionTrack::Tentative,
        );
    } else {
        lemma_filter_skips(before, e, after, |x: EventView| passes(x, config));
    }
}

/// An event that a filter drops may be left out before.
proof fn lemma_filter_skips(
    before: Seq<EventView>,
    e: EventView,
    after: Seq<EventView>,
    keep: spec_fn(EventView) -> bool,
)
    requires
        !keep(e),
    ensures
        (before.push(e) + after).filter(keep) == (before + after).filter(keep),
{
    Seq::filter_distributes_over_add(before.push(e), after, keep);
    Seq::filter_distributes_over_add(before, after, keep);
    reveal(Seq::filter);
    assert(before.push(e).drop_last() =~= before);
}

/// Where no event counts, nothing stands for anything.
pub proof fn law_nothing_of_nothing(
    categories: Seq<Seq<char>>,
    max: nat,
    r: Seq<RepresentativeEvent>,
)
    requires
        tells_selection(Seq::empty(), categories, max, r),
    ensures
        r.len() == 0,
{
    let p = choose|p: Seq<int>|
        #![trigger is_selection(Seq::empty(), categories, max, p)]
        is_selection(Seq::empty(), categories, max, p) && r.len() == p.len();
    if r.len() > 0 {
        assert(p[0] < Seq::<EventView>::empty().len());
    }
}

/// What filters by track leave of a track.
proof fn lemma_track_of_track(events: Seq<EventView>, t: AdmissionTrack, u: AdmissionTrack)
    ensures
        on_track(events, t).filter(|e: EventView| track_of(e.confidence) == u) == (if t == u {
            on_track(events, t)
        } else {
            Seq::empty()
        }),
    decreases events.len(),
{
    reveal(Seq::filter);
    let f = |e: EventView| track_of(e.confidence) == u;
    if events.len() > 0 {
        lemma_track_of_track(events.drop_last(), t, u);
        let front = on_track(events.drop_last(), t);
        let x = events.last();
        if track_of(x.confidence) == t {
            assert(on_track(events, t) =~= front.push(x));
            assert(on_track(events, t).drop_last() =~= front);
            assert(on_track(events, t).filter(f) =~= (if t == u {
                on_track(events, t)
            } else {
                Seq::empty()
            }));
        }
    } else {
        assert(on_track(events, t) =~= Seq::<EventView>::empty());
        assert(on_track(events, t).filter(f) =~= Seq::<EventView>::empty());
    }
}

/// With calibrated weights the events that count are the confirmed ones followed by the
/// tentative ones, each in the order in which they came; no discarded event counts.
pub proof fn law_tracks_that_count(events: Seq<EventView>, config: StatsConfig)
    requires
        config.use_calibrated_weights,
    ensures
        ({
            let r = active_events(events, config);
            let sure = events.filter(
                |e: EventView| track_of(e.confidence) == AdmissionTrack::Confirmed,
            );
            let unsure = events.filter(
                |e: EventView| track_of(e.confidence) == AdmissionTrack::Tentative,
            );
            &&& r.filter(|e: EventView| track_of(e.confidence) == AdmissionTrack::Confirmed) == sure
            &&& r.filter(|e: EventView| track_of(e.confidence) == AdmissionTrack::Tentative)
                == unsure
            &&& r.len() == sure.len() + unsure.len()
            &&& confirmed_number(events, config) == sure.len()
            &&& forall|a: int, b: int|
                0 <= a < b < r.len() && track_of((#[trigger] r[b]).confidence) is Confirmed
                    ==> track_of((#[trigger] r[a]).confidence) is Confirmed
            &&& forall|a: int| 0 <= a < r.len() ==> !(track_of((#[trigger] r[a]).confidence)
                is Discarded)
        }),
{
    let c = AdmissionTrack::Confirmed;
    let t = AdmissionTrack::Tentative;
    let f = |e: EventView| track_of(e.confidence) == c;
    let g = |e: EventView| track_of(e.confidence) == t;
    let x = on_track(events, c);
    let y = on_track(events, t);
    lemma_track_of_track(events, c, c);
    lemma_track_of_track(events, c, t);
    lemma_track_of_track(events, t, c);
    lemma_track_of_track(events, t, t);
    Seq::filter_distributes_over_add(x, y, f);
    Seq::filter_distributes_over_add(x, y, g);
    let r = active_events(events, config);
    assert(r.filter(f) =~= x);
    assert(r.filter(g) =~= y);
    assert forall|a: int| 0 <= a < r.len() implies track_of((#[trigger] r[a]).confidence) == (if a
        < x.len() {
        c
    } else {
        t
    }) by {
        if a < x.len() {
            events.lemma_filter_pred(f, a);
            assert(r[a] == x[a]);
        } else {
            events.lemma_filter_pred(g, a - x.len());
            assert(r[a] == y[a - x.len()]);
        }
    }
}

/// Without calibrated weights the events that count are those that are not discarded and reach
/// the threshold, in the order in which they came, and all of them count as confirmed.
pub proof fn law_threshold_that_counts(events: Seq<EventView>, config: StatsConfig)
    requires
        !config.use_calibrated_weights,
    ensures
        active_events(events, config) == events.filter(
            |e: EventView|
                !(track_of(e.confidence) is Discarded) && config.confidence_threshold.le(
                    e.confidence,
                ),
        ),
        confirmed_number(events, config) == active_events(events, config).len(),
{
    let f = |e: EventView| passes(e, config);
    let g = |e: EventView|
        !(track_of(e.confidence) is Discarded) && config.confidence_threshold.le(e.confidence);
    assert(f =~= g);
}

/// Every category is told of once, with its name, the number of its events and its own
/// figures.
pub proof fn law_every_category_is_told(
    groups: Seq<(String, Vec<usize>)>,
    figures: Seq<GroupFigures>,
    r: Seq<CategoryStats>,
    k: int,
)
    requires
        figures.len() == groups.len(),
        ranks_categories(groups, figures, r),
        0 <= k < groups.len(),
    ensures
        r.len() == groups.len(),
        exists|i: int|
            {
                &&& 0 <= i < r.len()
                &&& (#[trigger] r[i]).category@ == groups[k].0@
                &&& r[i].event_count == groups[k].1@.len()
                &&& r[i].n_eff == figures[k].n_eff
                &&& r[i].valence_mean == figures[k].valence_mean
                &&& r[i].valence_std == figures[k].valence_std
                &&& r[i].valence_positive_ratio == figures[k].valence_positive_ratio
                &&& r[i].share_mean == figures[k].share_mean
                &&& r[i].share_std == figures[k].share_std
                &&& r[i].presentation_objective_ratio == figures[k].presentation_objective_ratio
                &&& r[i].presentation_subjective_ratio == figures[k].presentation_subjective_ratio
                &&& r[i].presentation_mixed_ratio == figures[k].presentation_mixed_ratio
                &&& r[i].group_weight == figures[k].group_weight
            },
{
    let order = choose|order: Seq<usize>|
        {
            &&& #[trigger] descending(order, group_weights(figures))
            &&& r.len() == order.len()
            &&& forall|i: int|
                0 <= i < r.len() ==> tells_category(
                    #[trigger] r[i],
                    groups[order[i] as int].0@,
                    groups[order[i] as int].1@.len(),
                    figures[order[i] as int],
                )
        };
    lemma_lists_all(order, groups.len() as int, k);
    let i = choose|i: int| 0 <= i < order.len() && order[i] == k;
    assert(tells_category(
        r[i],
        groups[order[i] as int].0@,
        groups[order[i] as int].1@.len(),
        figures[order[i] as int],
    ));
}

/// Every motive is told of once, with its name, the number of its events and its own figures,
/// and the effective numbers of events never grow from one to the next.
pub proof fn law_every_motive_is_told(
    groups: Seq<(String, Vec<usize>)>,
    figures: Seq<GroupFigures>,
    r: Seq<MotiveStats>,
    k: int,
)
    requires
        figures.len() == groups.len(),
        ranks_motives(groups, figures, r),
        0 <= k < groups.len(),
    ensures
        r.len() == groups.len(),
        exists|i: int|
            {
                &&& 0 <= i < r.len()
                &&& (#[trigger] r[i]).motive@ == groups[k].0@
                &&& r[i].event_count == groups[k].1@.len()
                &&& r[i].n_eff == figures[k].n_eff
                &&& r[i].valence_mean == figures[k].valence_mean
                &&& r[i].valence_std == figures[k].valence_std
                &&& r[i].valence_positive_ratio == figures[k].valence_positive_ratio
                &&& r[i].share_mean == figures[k].share_mean
                &&& r[i].share_std == figures[k].share_std
                &&& r[i].presentation_objective_ratio == figures[k].presentation_objective_ratio
                &&& r[i].presentation_subjective_ratio == figures[k].presentation_subjective_ratio
                &&& r[i].presentation_mixed_ratio == figures[k].presentation_mixed_ratio
                &&& r[i].avg_salience == figures[k].avg_salience
            },
        forall|i: int, j: int|
            0 <= i < j < r.len() ==> (#[trigger] r[i]).n_eff.rank() >= (
            #[trigger] r[j]).n_eff.rank(),
{
    let sizes = group_sizes(figures);
    let order = choose|order: Seq<usize>|
        {
            &&& #[trigger] descending(order, group_sizes(figures))
            &&& r.len() == order.len()
            &&& forall|i: int|
                0 <= i < r.len() ==> tells_motive(
                    #[trigger] r[i],
                    groups[order[i] as int].0@,
                    groups[order[i] as int].1@.len(),
                    figures[order[i] as int],
                )
        };
    lemma_lists_all(order, groups.len() as int, k);
    let i = choose|i: int| 0 <= i < order.len() && order[i] == k;
    assert(tells_motive(
        r[i],
        groups[order[i] as int].0@,
        groups[order[i] as int].1@.len(),
        figures[order[i] as int],
    ));
    assert forall|i: int, j: int| 0 <= i < j < r.len() implies (#[trigger] r[i]).n_eff.rank() >= (
    #[trigger] r[j]).n_eff.rank() by {
        assert(order[i] < figures.len() && order[j] < figures.len());
        assert(sizes[order[i] as int] == figures[order[i] as int].n_eff);
        assert(sizes[order[j] as int] == figures[order[j] as int].n_eff);
        assert(tells_motive(
            r[i],
            groups[order[i] as int].0@,
            groups[order[i] as int].1@.len(),
            figures[order[i] as int],
        ));
        assert(tells_motive(
            r[j],
            groups[order[j] as int].0@,
            groups[order[j] as int].1@.len(),
            figures[order[j] as int],
        ));
    }
}

/// Numbers that are put in order descend, the earlier one first among equals, and none is left
/// out.
pub proof fn law_descending_order(p: Seq<usize>, values: Seq<Real>, a: int, b: int, k: int)
    requires
        descending(p, values),
        0 <= a < b < p.len(),
        0 <= k < values.len(),
    ensures
        p.len() == values.len(),
        p.contains(k as usize),
        p[a] < values.len() && p[b] < values.len(),
        values[p[a] as int].rank() >= values[p[b] as int].rank(),
        values[p[a] as int].rank() == values[p[b] as int].rank() ==> p[a] < p[b],
{
    lemma_lists_all(p, values.len() as int, k);
    let i = choose|i: int| 0 <= i < p.len() && p[i] == k;
    assert(p[i] == k as usize);
}

/// The plan counts every event once: as confirmed, as tentative or as discarded.
pub proof fn law_plan_counts_every_event(
    events: &Vec<MemoryEvent>,
    config: &StatsConfig,
    r: StatsPlan,
)
    requires
        call_ensures(plan_phase_a_stats, (events, config), r),
    ensures
        r.total_events_in == events@.len(),
        r.confirmed_count + r.tentative_count + r.discarded_count == events@.len(),
        r.active@.len() == r.confirmed_count + r.tentative_count,
        r.recurrence@.len() == r.active@.len(),
        forall|i: int|
            0 <= i < r.recurrence@.len() ==> 0 < #[trigger] r.recurrence@[i] <= r.max_recurrence,
        !config.use_calibrated_weights ==> r.tentative_count == 0 && r.motives@.len() == 0,
{
    let views = event_views(r.active@);
    assert(r.recurrence@.map_values(|n: usize| n as int).len() == r.recurrence@.len());
    assert forall|i: int| 0 <= i < r.recurrence@.len() implies 0 < #[trigger] r.recurrence@[i]
        <= r.max_recurrence by {
        law_recurrence_counts_category(views, i);
        let same = |e: EventView| category_of(e) == category_of(views[i]);
        views.lemma_filter_contains(same, i);
        assert(r.recurrence@.map_values(|n: usize| n as int)[i] == r.recurrence@[i]);
    }
}

/// Attitudes are told as contradicting where there are two categories or more; the other figures
/// are passed on.
pub proof fn law_figures_are_passed_on(n: usize, cross: CrossFigures, r: CrossCategoryMetrics)
    requires
        call_ensures(cross_metrics, (n, cross), r),
    ensures
        r.attitude_contradiction_count == (if n >= 2 {
            1int
        } else {
            0int
        }),
        r.emotional_stability == cross.emotional_stability,
        r.narrative_consistency == cross.narrative_consistency,
        r.share_skewness == cross.share_skewness,
        r.share_kurtosis == cross.share_kurtosis,
{
}

/// The summary tells what the plan counted, all categories and motives, and the events that stand
/// for the categories, in the order of the categories.
pub proof fn law_summary_tells_the_plan(
    plan: StatsPlan,
    categories: Vec<CategoryStats>,
    motive_stats: Vec<MotiveStats>,
    cross: CrossFigures,
    config: &StatsConfig,
    r: StatsSummary,
)
    requires
        call_ensures(finish_phase_a_stats, (plan, categories, motive_stats, cross, config), r),
    ensures
        r.total_events_in == plan.total_events_in,
        r.total_events_filtered == plan.active@.len(),
        r.confirmed_count == plan.confirmed_count,
        r.tentative_count == plan.tentative_count,
        r.discarded_count == plan.discarded_count,
        r.category_count == categories@.len(),
        r.categories@ == categories@,
        r.motive_stats@ == motive_stats@,
        r.cross_category.attitude_contradiction_count == (if categories@.len() >= 2 {
            1int
        } else {
            0int
        }),
        r.cross_category.emotional_stability == cross.emotional_stability,
        r.cross_category.narrative_consistency == cross.narrative_consistency,
        r.cross_category.share_skewness == cross.share_skewness,
        r.cross_category.share_kurtosis == cross.share_kurtosis,
        tells_selection(
            event_views(plan.active@),
            Seq::new(categories@.len(), |i: int| categories@[i].category@),
            config.max_representative_events as nat,
            r.representative_events@,
        ),
{
    assert(category_names(categories@) =~= Seq::new(
        categories@.len(),
        |i: int| categories@[i].category@,
    ));
}

} // verus!

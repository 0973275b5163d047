//! Which events count, and which of them are confirmed by others.

use vstd::prelude::*;

use crate::binary64::Real;
use crate::inference::stats::category::{category_of, category_pairs, distinct_texts,
    event_groups, field_tags, gathered, group_by_category, grouped_events, has_text,
    law_category_group, law_groups_are_unique, law_groups_hold_all, law_groups_of_categories,
    some_events_named, tags};
use crate::inference::stats::config::{event_views, AdmissionTrack, EventView, MemoryEvent,
    StatsConfig, CONFIRMED_BITS, TENTATIVE_BITS};
use crate::keyword::token::{distinct, lemma_distinct};
use crate::text::{lemma_lex_irreflexive, lemma_lex_transitive, lex_lt, texts};

verus! {

/// The track of a confidence: confirmed from six tenths on, tentative from 45 hundredths on.
/// What is not a number, or negative, is discarded.
pub open spec fn track_of(confidence: Real) -> AdmissionTrack {
    if (Real { bits: CONFIRMED_BITS }).le(confidence) {
        AdmissionTrack::Confirmed
    } else if (Real { bits: TENTATIVE_BITS }).le(confidence) {
        AdmissionTrack::Tentative
    } else {
        AdmissionTrack::Discarded
    }
}

/// The track of an event.
pub fn classify_event(event: &MemoryEvent) -> (r: AdmissionTrack)
    ensures
        r == track_of(event@.confidence),
{
    if (Real { bits: CONFIRMED_BITS }).is_at_most(&event.confidence) {
        AdmissionTrack::Confirmed
    } else if (Real { bits: TENTATIVE_BITS }).is_at_most(&event.confidence) {
        AdmissionTrack::Tentative
    } else {
        AdmissionTrack::Discarded
    }
}

/// The events of a track, in their order.
pub open spec fn on_track(events: Seq<EventView>, track: AdmissionTrack) -> Seq<EventView> {
    events.filter(|e: EventView| track_of(e.confidence) == track)
}

/// Events by their tracks. Of discarded events only the number is kept.
#[derive(Debug, Clone)]
pub struct ClassifiedEvents {
    pub confirmed: Vec<MemoryEvent>,
    pub tentative: Vec<MemoryEvent>,
    pub discarded_count: usize,
}

impl ClassifiedEvents {
    /// The events that count: the confirmed ones, then the tentative ones.
    pub fn active_events(&self) -> (r: Vec<MemoryEvent>)
        ensures
            event_views(r@) == event_views(self.confirmed@) + event_views(self.tentative@),
    {
        let mut out = copy_events(&self.confirmed);
        let mut i: usize = 0;
        let ghost first = event_views(self.confirmed@);
        let ghost second = event_views(self.tentative@);
        assert(event_views(out@) =~= first + second.take(0));
        while i < self.tentative.len()
            invariant
                i <= self.tentative@.len(),
                second == event_views(self.tentative@),
                event_views(out@) == first + second.take(i as int),
            decreases self.tentative@.len() - i,
        {
            let ghost before = event_views(out@);
            out.push(self.tentative[i].clone());
            assert(event_views(out@) =~= before.push(second[i as int]));
            assert(second.take(i + 1) =~= second.take(i as int).push(second[i as int]));
            i += 1;
            assert(event_views(out@) =~= first + second.take(i as int));
        }
        assert(second.take(i as int) =~= second);
        out
    }

    /// The number of events that count.
    pub fn active_count(&self) -> (r: usize)
        requires
            self.confirmed@.len() + self.tentative@.len() <= usize::MAX,
        ensures
            r == self.confirmed@.len() + self.tentative@.len(),
    {
        self.confirmed.len() + self.tentative.len()
    }
}

/// Copies of events.
pub fn copy_events(events: &Vec<MemoryEvent>) -> (r: Vec<MemoryEvent>)
    ensures
        event_views(r@) == event_views(events@),
{
    let ghost all = event_views(events@);
    let mut out: Vec<MemoryEvent> = Vec::new();
    let mut i: usize = 0;
    assert(event_views(out@) =~= all.take(0));
    while i < events.len()
        invariant
            i <= events@.len(),
            all == event_views(events@),
            event_views(out@) == all.take(i as int),
        decreases events@.len() - i,
    {
        let ghost before = event_views(out@);
        out.push(events[i].clone());
        assert(event_views(out@) =~= before.push(all[i as int]));
        assert(all.take(i + 1) =~= all.take(i as int).push(all[i as int]));
        i += 1;
    }
    assert(all.take(i as int) =~= all);
    out
}

/// The events by their tracks.
pub fn classify_events(events: &Vec<MemoryEvent>) -> (r: ClassifiedEvents)
    ensures
        event_views(r.confirmed@) == on_track(event_views(events@), AdmissionTrack::Confirmed),
        event_views(r.tentative@) == on_track(event_views(events@), AdmissionTrack::Tentative),
        r.discarded_count == on_track(event_views(events@), AdmissionTrack::Discarded).len(),
        r.confirmed@.len() + r.tentative@.len() + r.discarded_count == events@.len(),
{
    let ghost all = event_views(events@);
    let mut confirmed: Vec<MemoryEvent> = Vec::new();
    let mut tentative: Vec<MemoryEvent> = Vec::new();
    let mut discarded_count: usize = 0;
    let mut i: usize = 0;
    proof {
        reveal(Seq::filter);
        assert(event_views(confirmed@) =~= on_track(all.take(0), AdmissionTrack::Confirmed));
        assert(event_views(tentative@) =~= on_track(all.take(0), AdmissionTrack::Tentative));
    }
    while i < events.len()
        invariant
            i <= events@.len(),
            all == event_views(events@),
            event_views(confirmed@) == on_track(all.take(i as int), AdmissionTrack::Confirmed),
            event_views(tentative@) == on_track(all.take(i as int), AdmissionTrack::Tentative),
            discarded_count == on_track(all.take(i as int), AdmissionTrack::Discarded).len(),
            confirmed@.len() + tentative@.len() + discarded_count == i,
        decreases events@.len() - i,
    {
        let e = &events[i];
        proof {
            reveal(Seq::filter);
            assert(all.take(i + 1).drop_last() =~= all.take(i as int));
            assert(all.take(i + 1).last() == e@);
        }
        match classify_event(e) {
            AdmissionTrack::Confirmed => {
                let ghost before = event_views(confirmed@);
                confirmed.push(e.clone());
                assert(event_views(confirmed@) =~= before.push(e@));
            },
            AdmissionTrack::Tentative => {
                let ghost before = event_views(tentative@);
                tentative.push(e.clone());
                assert(event_views(tentative@) =~= before.push(e@));
            },
            AdmissionTrack::Discarded => {
                discarded_count += 1;
            },
        }
        i += 1;
    }
    assert(all.take(i as int) =~= all);
    ClassifiedEvents { confirmed, tentative, discarded_count }
}

/// Whether an event passes: it is not discarded, and without calibrated weights it has the
/// confidence that is asked for.
pub open spec fn passes(e: EventView, config: StatsConfig) -> bool {
    &&& !(track_of(e.confidence) is Discarded)
    &&& config.use_calibrated_weights || config.confidence_threshold.le(e.confidence)
}

/// The events that pass, in their order, and the number of those that do not.
pub fn prefilter_events(events: &Vec<MemoryEvent>, config: &StatsConfig) -> (r: (
    Vec<MemoryEvent>,
    usize,
))
    ensures
        event_views(r.0@) == event_views(events@).filter(|e: EventView| passes(e, *config)),
        r.0@.len() + r.1 == events@.len(),
{
    let ghost all = event_views(events@);
    let ghost f = |e: EventView| passes(e, *config);
    let mut out: Vec<MemoryEvent> = Vec::new();
    let mut i: usize = 0;
    proof {
        reveal(Seq::filter);
        assert(event_views(out@) =~= all.take(0).filter(f));
    }
    while i < events.len()
        invariant
            i <= events@.len(),
            all == event_views(events@),
            f == (|e: EventView| passes(e, *config)),
            event_views(out@) == all.take(i as int).filter(f),
            out@.len() <= i,
        decreases events@.len() - i,
    {
        let e = &events[i];
        proof {
            reveal(Seq::filter);
            assert(all.take(i + 1).drop_last() =~= all.take(i as int));
            assert(all.take(i + 1).last() == e@);
        }
        let kept = classify_event(e) != AdmissionTrack::Discarded;
        if kept && (config.use_calibrated_weights || config.confidence_threshold.is_at_most(
            &e.confidence,
        )) {
            let ghost before = event_views(out@);
            out.push(e.clone());
            assert(event_views(out@) =~= before.push(e@));
        }
        i += 1;
    }
    assert(all.take(i as int) =~= all);
    let excluded: usize = events.len() - out.len();
    (out, excluded)
}

/// When tentative events confirm each other.
#[derive(Debug, Clone, Copy, PartialEq, Eq, Structural)]
pub struct TentativePromotionConfig {
    /// So many events of a category are needed.
    pub min_cluster_size: usize,
    /// Events that lie so far apart come from different occasions, in milliseconds.
    pub min_batch_interval_ms: u64,
    /// So similar the keywords have to be on average.
    pub keyword_similarity_threshold: Real,
    /// The confidence of events that are confirmed by each other.
    pub promoted_confidence: Real,
}

impl Default for TentativePromotionConfig {
    /// Two events, six hours apart, of a similarity of four tenths; they get the confidence
    /// from which on events are confirmed.
    fn default() -> (r: Self)
        ensures
            r.min_cluster_size == 2,
            r.min_batch_interval_ms == 6 * 3_600_000,
            r.keyword_similarity_threshold == (Real { bits: 0x3fd9_9999_9999_999a }),
            r.promoted_confidence == (Real { bits: CONFIRMED_BITS }),
    {
        TentativePromotionConfig {
            min_cluster_size: 2,
            min_batch_interval_ms: 21_600_000,
            keyword_similarity_threshold: Real { bits: 0x3fd9_9999_9999_999a },
            promoted_confidence: Real { bits: CONFIRMED_BITS },
        }
    }
}

/// Whether two events come from different occasions. Where a time is unknown they do not.
pub open spec fn apart(a: EventView, b: EventView, interval: u64) -> bool {
    &&& a.created_at != 0
    &&& b.created_at != 0
    &&& a.created_at - b.created_at >= interval || b.created_at - a.created_at >= interval
}

/// Whether two events come from different occasions.
pub fn are_different_batches(
    a: &MemoryEvent,
    b: &MemoryEvent,
    config: &TentativePromotionConfig,
) -> (r: bool)
    ensures
        r == apart(a@, b@, config.min_batch_interval_ms),
{
    if a.created_at == 0 || b.created_at == 0 {
        return false;
    }
    let d: i128 = a.created_at as i128 - b.created_at as i128;
    let interval: i128 = config.min_batch_interval_ms as i128;
    d >= interval || -d >= interval
}

/// How many different tags two fields share, and how many they have together.
pub open spec fn overlap(a: Option<Seq<char>>, b: Option<Seq<char>>) -> (int, int) {
    let x = distinct(tags(a));
    let y = distinct(tags(b));
    let shared = x.filter(|t: Seq<char>| y.contains(t)).len() as int;
    (shared, x.len() + y.len() - shared)
}

/// How many different keywords two events share, and how many they have together.
pub fn keyword_overlap(a: &MemoryEvent, b: &MemoryEvent) -> (r: (usize, u128))
    ensures
        (r.0 as int, r.1 as int) == overlap(a@.keywords, b@.keywords),
{
    let xs = field_tags(&a.keywords);
    let ys = field_tags(&b.keywords);
    let x = distinct_texts(&xs);
    let y = distinct_texts(&ys);
    let ghost xv = texts(x@);
    let ghost yv = texts(y@);
    let ghost f = |t: Seq<char>| yv.contains(t);
    let mut shared: usize = 0;
    let mut i: usize = 0;
    proof {
        reveal(Seq::filter);
    }
    while i < x.len()
        invariant
            i <= x@.len(),
            xv == texts(x@),
            yv == texts(y@),
            f == (|t: Seq<char>| yv.contains(t)),
            shared <= i,
            shared == xv.take(i as int).filter(f).len(),
        decreases x@.len() - i,
    {
        proof {
            reveal(Seq::filter);
            assert(xv.take(i + 1).drop_last() =~= xv.take(i as int));
            assert(xv.take(i + 1).last() == x@[i as int]@);
        }
        if has_text(&y, x[i].as_str()) {
            shared += 1;
        }
        i += 1;
    }
    assert(xv.take(i as int) =~= xv);
    let together: u128 = x.len() as u128 + y.len() as u128 - shared as u128;
    (shared, together)
}

/// The overlaps of all pairs of events from pair `(i, j)` on.
pub open spec fn overlaps_from(events: Seq<EventView>, i: int, j: int) -> Seq<(int, int)>
    decreases events.len() - i, events.len() - j,
{
    if i < 0 || j <= i || i >= events.len() {
        Seq::empty()
    } else if j >= events.len() {
        overlaps_from(events, i + 1, i + 2)
    } else {
        seq![overlap(events[i].keywords, events[j].keywords)] + overlaps_from(events, i, j + 1)
    }
}

/// What pairs of numbers say.
pub open spec fn overlap_views(v: Seq<(usize, u128)>) -> Seq<(int, int)> {
    v.map_values(|p: (usize, u128)| (p.0 as int, p.1 as int))
}

/// The overlaps of all pairs of events: of the first with each later one, then of the second,
/// and so on.
pub fn cluster_overlaps(events: &Vec<MemoryEvent>) -> (r: Vec<(usize, u128)>)
    ensures
        overlap_views(r@) == overlaps_from(event_views(events@), 0, 1),
{
    let ghost ev = event_views(events@);
    let ghost all = overlaps_from(ev, 0, 1);
    let mut out: Vec<(usize, u128)> = Vec::new();
    let mut i: usize = 0;
    assert(overlap_views(out@) + all =~= all);
    while i < events.len()
        invariant
            i <= events@.len(),
            ev == event_views(events@),
            overlap_views(out@) + overlaps_from(ev, i as int, i + 1) == all,
        decreases events@.len() - i,
    {
        let mut j: usize = i + 1;
        while j < events.len()
            invariant
                i < j <= events@.len(),
                ev == event_views(events@),
                overlap_views(out@) + overlaps_from(ev, i as int, j as int) == all,
            decreases events@.len() - j,
        {
            let ghost before = overlap_views(out@);
            let ghost rest = overlaps_from(ev, i as int, j + 1);
            let p = keyword_overlap(&events[i], &events[j]);
            let ghost pv = (p.0 as int, p.1 as int);
            out.push(p);
            assert(overlap_views(out@) =~= before.push(pv));
            assert(before + (seq![pv] + rest) =~= before.push(pv) + rest);
            j += 1;
        }
        i += 1;
    }
    assert(overlap_views(out@) =~= all);
    out
}

/// Whether some events come from different occasions.
pub open spec fn some_apart(events: Seq<EventView>, interval: u64) -> bool {
    exists|i: int, j: int|
        0 <= i < j < events.len() && apart(#[trigger] events[i], #[trigger] events[j], interval)
}

/// Whether tentative events of one category confirm each other: there are enough of them,
/// some come from different occasions, and their keywords are similar.
pub open spec fn confirms(
    cluster: Seq<EventView>,
    config: TentativePromotionConfig,
    similar: bool,
) -> bool {
    &&& cluster.len() >= config.min_cluster_size
    &&& some_apart(cluster, config.min_batch_interval_ms)
    &&& similar
}

/// Whether tentative events of one category confirm each other, where it is known whether
/// their keywords are similar.
pub fn should_promote_cluster(
    cluster: &Vec<MemoryEvent>,
    config: &TentativePromotionConfig,
    similar: bool,
) -> (r: bool)
    ensures
        r == confirms(event_views(cluster@), *config, similar),
{
    if cluster.len() < config.min_cluster_size || !similar {
        return false;
    }
    let ghost ev = event_views(cluster@);
    let mut i: usize = 0;
    while i < cluster.len()
        invariant
            i <= cluster@.len(),
            ev == event_views(cluster@),
            cluster@.len() >= config.min_cluster_size,
            similar,
            forall|a: int, b: int|
                0 <= a < i && a < b < ev.len() ==> !apart(
                    #[trigger] ev[a],
                    #[trigger] ev[b],
                    config.min_batch_interval_ms,
                ),
        decreases cluster@.len() - i,
    {
        let mut j: usize = i + 1;
        while j < cluster.len()
            invariant
                i < j <= cluster@.len(),
                ev == event_views(cluster@),
                cluster@.len() >= config.min_cluster_size,
                similar,
                forall|b: int|
                    i < b < j ==> !apart(
                        ev[i as int],
                        #[trigger] ev[b],
                        config.min_batch_interval_ms,
                    ),
            decreases cluster@.len() - j,
        {
            assert(ev[i as int] == cluster@[i as int]@ && ev[j as int] == cluster@[j as int]@);
            if are_different_batches(&cluster[i], &cluster[j], config) {
                return true;
            }
            j += 1;
        }
        i += 1;
    }
    false
}

/// What became of tentative events.
#[derive(Debug, Clone)]
pub struct TentativePromotionResult {
    pub promoted: Vec<MemoryEvent>,
    pub remaining_tentative: Vec<MemoryEvent>,
    pub promoted_count: usize,
    pub remaining_count: usize,
}

/// Events with another confidence.
pub open spec fn with_confidence(events: Seq<EventView>, confidence: Real) -> Seq<EventView> {
    events.map_values(|e: EventView| EventView { confidence, ..e })
}

/// The events of the groups that confirm each other, with their new confidence.
pub open spec fn promoted_events(
    groups: Seq<(Seq<char>, Seq<EventView>)>,
    similar: Seq<Seq<char>>,
    config: TentativePromotionConfig,
) -> Seq<EventView>
    decreases groups.len(),
{
    if groups.len() == 0 {
        Seq::empty()
    } else {
        let front = promoted_events(groups.drop_last(), similar, config);
        if confirms(groups.last().1, config, similar.contains(groups.last().0)) {
            front + with_confidence(groups.last().1, config.promoted_confidence)
        } else {
            front
        }
    }
}

/// The events of the other groups, as they were.
pub open spec fn remaining_events(
    groups: Seq<(Seq<char>, Seq<EventView>)>,
    similar: Seq<Seq<char>>,
    config: TentativePromotionConfig,
) -> Seq<EventView>
    decreases groups.len(),
{
    if groups.len() == 0 {
        Seq::empty()
    } else {
        let front = remaining_events(groups.drop_last(), similar, config);
        if confirms(groups.last().1, config, similar.contains(groups.last().0)) {
            front
        } else {
            front + groups.last().1
        }
    }
}

/// The events with a confidence, added to others.
fn add_events(out: &mut Vec<MemoryEvent>, events: &Vec<MemoryEvent>, confidence: Option<Real>)
    ensures
        event_views(final(out)@) == event_views(old(out)@) + (match confidence {
            Some(c) => with_confidence(event_views(events@), c),
            None => event_views(events@),
        }),
{
    let ghost start = event_views(out@);
    let ghost more = match confidence {
        Some(c) => with_confidence(event_views(events@), c),
        None => event_views(events@),
    };
    let mut i: usize = 0;
    assert(event_views(out@) =~= start + more.take(0));
    while i < events.len()
        invariant
            i <= events@.len(),
            more == (match confidence {
                Some(c) => with_confidence(event_views(events@), c),
                None => event_views(events@),
            }),
            event_views(out@) == start + more.take(i as int),
        decreases events@.len() - i,
    {
        let mut e = events[i].clone();
        match confidence {
            Some(c) => {
                e.confidence = c;
            },
            None => {},
        }
        assert(e@ == more[i as int]);
        let ghost before = event_views(out@);
        out.push(e);
        assert(event_views(out@) =~= before.push(more[i as int]));
        assert(more.take(i + 1) =~= more.take(i as int).push(more[i as int]));
        i += 1;
        assert(event_views(out@) =~= start + more.take(i as int));
    }
    assert(more.take(i as int) =~= more);
}

/// What becomes of tentative events, where `similar` names the categories of similar keywords:
/// those of a category either all get the new confidence or all stay, in the order of the
/// categories.
pub open spec fn promotes(
    tentative: Seq<EventView>,
    similar: Seq<Seq<char>>,
    config: TentativePromotionConfig,
    promoted: Seq<EventView>,
    remaining: Seq<EventView>,
) -> bool {
    exists|groups: Seq<(Seq<char>, Seq<EventView>)>|
        #![trigger promoted_events(groups, similar, config)]
        grouped_events(tentative, category_pairs(tentative), groups) && promoted
            == promoted_events(groups, similar, config) && remaining == remaining_events(
            groups,
            similar,
            config,
        )
}

/// Confirms the tentative events that confirm each other, where `similar` names the categories
/// whose keywords are similar on average. What is confirmed already has no say in it.
pub fn promote_tentative_events(
    tentative: &Vec<MemoryEvent>,
    _confirmed: &Vec<MemoryEvent>,
    similar: &Vec<String>,
    config: &TentativePromotionConfig,
) -> (r: TentativePromotionResult)
    ensures
        promotes(
            event_views(tentative@),
            texts(similar@),
            *config,
            event_views(r.promoted@),
            event_views(r.remaining_tentative@),
        ),
        r.promoted_count == r.promoted@.len(),
        r.remaining_count == r.remaining_tentative@.len(),
{
    let groups = group_by_category(tentative);
    let ghost names = texts(similar@);
    let ghost all = event_groups(groups@);
    let mut promoted: Vec<MemoryEvent> = Vec::new();
    let mut remaining_tentative: Vec<MemoryEvent> = Vec::new();
    let mut i: usize = 0;
    assert(event_views(promoted@) =~= promoted_events(all.take(0), names, *config));
    assert(event_views(remaining_tentative@) =~= remaining_events(all.take(0), names, *config));
    while i < groups.len()
        invariant
            i <= groups@.len(),
            names == texts(similar@),
            all == event_groups(groups@),
            event_views(promoted@) == promoted_events(all.take(i as int), names, *config),
            event_views(remaining_tentative@) == remaining_events(
                all.take(i as int),
                names,
                *config,
            ),
        decreases groups@.len() - i,
    {
        assert(all.take(i + 1).drop_last() =~= all.take(i as int));
        assert(all.take(i + 1).last() == (groups@[i as int].0@, event_views(groups@[i as int].1@)));
        let alike = has_text(similar, groups[i].0.as_str());
        if should_promote_cluster(&groups[i].1, config, alike) {
            add_events(&mut promoted, &groups[i].1, Some(config.promoted_confidence));
        } else {
            add_events(&mut remaining_tentative, &groups[i].1, None);
        }
        i += 1;
    }
    assert(all.take(i as int) =~= all);
    let promoted_count: usize = promoted.len();
    let remaining_count: usize = remaining_tentative.len();
    TentativePromotionResult { promoted, remaining_tentative, promoted_count, remaining_count }
}

/// How high a track is.
pub open spec fn track_level(t: AdmissionTrack) -> int {
    match t {
        AdmissionTrack::Confirmed => 2,
        AdmissionTrack::Tentative => 1,
        AdmissionTrack::Discarded => 0,
    }
}

/// A higher confidence never has a lower track.
pub proof fn law_tracks_are_monotone(x: Real, y: Real)
    requires
        x.le(y),
    ensures
        track_level(track_of(x)) <= track_level(track_of(y)),
{
}

/// What is not a number, or negative, is discarded.
pub proof fn law_bad_confidence_is_discarded(x: Real)
    requires
        x.nan() || x.lt(Real { bits: 0 }),
    ensures
        track_of(x) is Discarded,
{
}

/// With calibrated weights, the events that pass are those that are not discarded: as many as
/// there are confirmed and tentative ones.
pub proof fn law_passing_events_count(events: Seq<EventView>, config: StatsConfig)
    requires
        config.use_calibrated_weights,
    ensures
        events.filter(|e: EventView| passes(e, config)).len() == on_track(
            events,
            AdmissionTrack::Confirmed,
        ).len() + on_track(events, AdmissionTrack::Tentative).len(),
    decreases events.len(),
{
    reveal(Seq::filter);
    if events.len() > 0 {
        law_passing_events_count(events.drop_last(), config);
    }
}

/// Whether tags overlap does not depend on which event comes first.
pub proof fn law_overlap_is_symmetric(a: Option<Seq<char>>, b: Option<Seq<char>>)
    ensures
        overlap(a, b) == overlap(b, a),
{
    let x = distinct(tags(a));
    let y = distinct(tags(b));
    lemma_distinct(tags(a));
    lemma_distinct(tags(b));
    let f = |t: Seq<char>| y.contains(t);
    let g = |t: Seq<char>| x.contains(t);
    lemma_filter_set(x, f);
    lemma_filter_set(y, g);
    assert(x.filter(f).to_set() =~= y.filter(g).to_set());
    x.filter(f).unique_seq_to_set();
    y.filter(g).unique_seq_to_set();
}

/// What a filter leaves of different texts: the texts that satisfy it, still different.
proof fn lemma_filter_set(s: Seq<Seq<char>>, f: spec_fn(Seq<char>) -> bool)
    requires
        s.no_duplicates(),
    ensures
        s.filter(f).no_duplicates(),
        forall|t: Seq<char>| #[trigger] s.filter(f).contains(t) <==> s.contains(t) && f(t),
    decreases s.len(),
{
    reveal(Seq::filter);
    if s.len() > 0 {
        let front = s.drop_last();
        lemma_filter_set(front, f);
        assert(!front.contains(s.last())) by {
            if front.contains(s.last()) {
                let i = choose|i: int| 0 <= i < front.len() && front[i] == s.last();
                assert(s[i] == s[s.len() - 1]);
            }
        }
        assert forall|t: Seq<char>| #[trigger] s.filter(f).contains(t) <==> s.contains(t) && f(
            t,
        ) by {
            let kept = front.filter(f);
            if s.filter(f).contains(t) {
                let i = choose|i: int| 0 <= i < s.filter(f).len() && s.filter(f)[i] == t;
                if i < kept.len() {
                    assert(kept[i] == t);
                    assert(kept.contains(t));
                    let j = choose|j: int| 0 <= j < front.len() && front[j] == t;
                    assert(s[j] == t);
                } else {
                    assert(s[s.len() - 1] == t);
                }
            }
            if s.contains(t) && f(t) {
                let j = choose|j: int| 0 <= j < s.len() && s[j] == t;
                if j < front.len() {
                    assert(front[j] == t);
                    assert(kept.contains(t));
                    let i = choose|i: int| 0 <= i < kept.len() && kept[i] == t;
                    assert(s.filter(f)[i] == t);
                } else {
                    assert(s.filter(f)[kept.len() as int] == t);
                }
            }
        }
        let kept = front.filter(f);
        let all = s.filter(f);
        assert forall|i: int, j: int| 0 <= i < all.len() && 0 <= j < all.len() && i != j implies all[i]
            != all[j] by {
            if i < kept.len() && j < kept.len() {
                assert(kept[i] != kept[j]);
            } else if i < kept.len() {
                assert(kept.contains(kept[i]));
            } else {
                assert(kept.contains(kept[j]));
            }
        }
    }
}

/// The events of the groups that confirm each other, as they were.
spec fn confirmed_before(
    groups: Seq<(Seq<char>, Seq<EventView>)>,
    similar: Seq<Seq<char>>,
    config: TentativePromotionConfig,
) -> Seq<EventView>
    decreases groups.len(),
{
    if groups.len() == 0 {
        Seq::empty()
    } else {
        let front = confirmed_before(groups.drop_last(), similar, config);
        if confirms(groups.last().1, config, similar.contains(groups.last().0)) {
            front + groups.last().1
        } else {
            front
        }
    }
}

/// The two parts of grouped events together.
proof fn lemma_promotion_parts(
    groups: Seq<(Seq<char>, Seq<EventView>)>,
    similar: Seq<Seq<char>>,
    config: TentativePromotionConfig,
)
    ensures
        promoted_events(groups, similar, config) == with_confidence(
            confirmed_before(groups, similar, config),
            config.promoted_confidence,
        ),
        confirmed_before(groups, similar, config).to_multiset().add(
            remaining_events(groups, similar, config).to_multiset(),
        ) == gathered(groups).to_multiset(),
    decreases groups.len(),
{
    let c = config.promoted_confidence;
    let p = confirmed_before(groups, similar, config);
    let r = remaining_events(groups, similar, config);
    if groups.len() > 0 {
        let front = groups.drop_last();
        let more = groups.last().1;
        let q = confirmed_before(front, similar, config);
        let s = remaining_events(front, similar, config);
        lemma_promotion_parts(front, similar, config);
        vstd::seq_lib::lemma_multiset_commutative(gathered(front), more);
        if confirms(more, config, similar.contains(groups.last().0)) {
            assert(with_confidence(q + more, c) =~= with_confidence(q, c) + with_confidence(more, c));
            vstd::seq_lib::lemma_multiset_commutative(q, more);
        } else {
            vstd::seq_lib::lemma_multiset_commutative(s, more);
        }
        assert(p.to_multiset().add(r.to_multiset()) =~= gathered(groups).to_multiset());
    } else {
        assert(promoted_events(groups, similar, config) =~= with_confidence(p, c));
        p.to_multiset_ensures();
        r.to_multiset_ensures();
        gathered(groups).to_multiset_ensures();
        assert(p.to_multiset().add(r.to_multiset()) =~= gathered(groups).to_multiset());
    }
}

/// No event is lost or made up: the tentative events fall into two parts, one that stays as it
/// is and one that is promoted, and nothing of a promoted event changes but its confidence.
pub proof fn law_promotion_keeps_events(
    tentative: Seq<EventView>,
    similar: Seq<Seq<char>>,
    config: TentativePromotionConfig,
    promoted: Seq<EventView>,
    remaining: Seq<EventView>,
)
    requires
        promotes(tentative, similar, config, promoted, remaining),
    ensures
        exists|before: Seq<EventView>|
            promoted == #[trigger] with_confidence(before, config.promoted_confidence)
                && before.to_multiset().add(remaining.to_multiset()) == tentative.to_multiset(),
        promoted.len() + remaining.len() == tentative.len(),
{
    let groups = choose|groups: Seq<(Seq<char>, Seq<EventView>)>|
        #![trigger promoted_events(groups, similar, config)]
        grouped_events(tentative, category_pairs(tentative), groups) && promoted
            == promoted_events(groups, similar, config) && remaining == remaining_events(
            groups,
            similar,
            config,
        );
    let before = confirmed_before(groups, similar, config);
    lemma_promotion_parts(groups, similar, config);
    law_groups_hold_all(tentative, groups);
    assert(promoted == with_confidence(before, config.promoted_confidence));
    before.to_multiset_ensures();
    remaining.to_multiset_ensures();
    tentative.to_multiset_ensures();
    assert(before.to_multiset().add(remaining.to_multiset()).len() == before.len()
        + remaining.len());
}

/// What becomes of tentative events is settled.
pub proof fn law_promotion_is_unique(
    tentative: Seq<EventView>,
    similar: Seq<Seq<char>>,
    config: TentativePromotionConfig,
    p: (Seq<EventView>, Seq<EventView>),
    q: (Seq<EventView>, Seq<EventView>),
)
    requires
        promotes(tentative, similar, config, p.0, p.1),
        promotes(tentative, similar, config, q.0, q.1),
    ensures
        p == q,
{
    let g = choose|groups: Seq<(Seq<char>, Seq<EventView>)>|
        #![trigger promoted_events(groups, similar, config)]
        grouped_events(tentative, category_pairs(tentative), groups) && p.0 == promoted_events(
            groups,
            similar,
            config,
        ) && p.1 == remaining_events(groups, similar, config);
    let h = choose|groups: Seq<(Seq<char>, Seq<EventView>)>|
        #![trigger promoted_events(groups, similar, config)]
        grouped_events(tentative, category_pairs(tentative), groups) && q.0 == promoted_events(
            groups,
            similar,
            config,
        ) && q.1 == remaining_events(groups, similar, config);
    law_groups_are_unique(tentative, category_pairs(tentative), g, h);
}

/// The events of the groups that confirm each other have the new confidence.
proof fn lemma_promoted_confidence(
    groups: Seq<(Seq<char>, Seq<EventView>)>,
    similar: Seq<Seq<char>>,
    config: TentativePromotionConfig,
)
    ensures
        forall|i: int|
            0 <= i < promoted_events(groups, similar, config).len() ==> (#[trigger] promoted_events(
                groups,
                similar,
                config,
            )[i]).confidence == config.promoted_confidence,
    decreases groups.len(),
{
    if groups.len() > 0 {
        lemma_promoted_confidence(groups.drop_last(), similar, config);
    }
}

/// Events that were confirmed by each other have the confidence that was given.
pub proof fn law_promoted_confidence(
    tentative: Seq<EventView>,
    similar: Seq<Seq<char>>,
    config: TentativePromotionConfig,
    promoted: Seq<EventView>,
    remaining: Seq<EventView>,
)
    requires
        promotes(tentative, similar, config, promoted, remaining),
    ensures
        forall|i: int|
            0 <= i < promoted.len() ==> (#[trigger] promoted[i]).confidence
                == config.promoted_confidence,
{
    let groups = choose|groups: Seq<(Seq<char>, Seq<EventView>)>|
        #![trigger promoted_events(groups, similar, config)]
        grouped_events(tentative, category_pairs(tentative), groups) && promoted
            == promoted_events(groups, similar, config) && remaining == remaining_events(
            groups,
            similar,
            config,
        );
    lemma_promoted_confidence(groups, similar, config);
}

/// A single event never confirms itself.
pub proof fn law_single_event_stays(
    cluster: Seq<EventView>,
    config: TentativePromotionConfig,
    similar: bool,
)
    requires
        cluster.len() <= 1,
    ensures
        !confirms(cluster, config, similar),
{
}

/// A cluster confirms itself where it is large enough, its keywords are similar, and some two
/// of its events, neighbours or not, have known times that lie far enough apart.
pub proof fn law_cluster_confirms(
    cluster: Seq<EventView>,
    config: TentativePromotionConfig,
    similar: bool,
)
    ensures
        confirms(cluster, config, similar) <==> {
            &&& cluster.len() >= config.min_cluster_size
            &&& similar
            &&& exists|a: int, b: int|
                {
                    &&& 0 <= a < cluster.len()
                    &&& 0 <= b < cluster.len()
                    &&& a != b
                    &&& (#[trigger] cluster[a]).created_at != 0
                    &&& (#[trigger] cluster[b]).created_at != 0
                    &&& cluster[b].created_at - cluster[a].created_at
                        >= config.min_batch_interval_ms
                }
        },
{
    let interval = config.min_batch_interval_ms;
    if exists|a: int, b: int|
        {
            &&& 0 <= a < cluster.len()
            &&& 0 <= b < cluster.len()
            &&& a != b
            &&& (#[trigger] cluster[a]).created_at != 0
            &&& (#[trigger] cluster[b]).created_at != 0
            &&& cluster[b].created_at - cluster[a].created_at >= interval
        } {
        let (a, b) = choose|a: int, b: int|
            {
                &&& 0 <= a < cluster.len()
                &&& 0 <= b < cluster.len()
                &&& a != b
                &&& (#[trigger] cluster[a]).created_at != 0
                &&& (#[trigger] cluster[b]).created_at != 0
                &&& cluster[b].created_at - cluster[a].created_at >= interval
            };
        if a < b {
            assert(apart(cluster[a], cluster[b], interval));
        } else {
            assert(apart(cluster[b], cluster[a], interval));
        }
    }
    if some_apart(cluster, interval) {
        let (i, j) = choose|i: int, j: int|
            0 <= i < j < cluster.len() && apart(
                #[trigger] cluster[i],
                #[trigger] cluster[j],
                interval,
            );
        if cluster[i].created_at - cluster[j].created_at >= interval {
            assert(cluster[i].created_at - cluster[j].created_at >= interval);
        } else {
            assert(cluster[j].created_at - cluster[i].created_at >= interval);
        }
    }
}

/// What a filter by category leaves of events that are all of one category.
proof fn lemma_filter_one_category(events: Seq<EventView>, own: Seq<char>, name: Seq<char>)
    requires
        forall|i: int| 0 <= i < events.len() ==> category_of(#[trigger] events[i]) == own,
    ensures
        events.filter(|e: EventView| category_of(e) == name) == (if own == name {
            events
        } else {
            Seq::empty()
        }),
    decreases events.len(),
{
    reveal(Seq::filter);
    if events.len() > 0 {
        let rest = events.drop_last();
        assert forall|i: int| 0 <= i < rest.len() implies category_of(#[trigger] rest[i]) == own by {
            assert(rest[i] == events[i]);
        }
        lemma_filter_one_category(rest, own, name);
        assert(category_of(events[events.len() - 1]) == own);
        assert(rest.push(events.last()) =~= events);
    } else {
        assert(events =~= Seq::<EventView>::empty());
        assert(events.filter(|e: EventView| category_of(e) == name) =~= Seq::<EventView>::empty());
    }
}

/// The events of a group have its category.
proof fn lemma_group_category(
    events: Seq<EventView>,
    groups: Seq<(Seq<char>, Seq<EventView>)>,
    a: int,
)
    requires
        forall|b: int|
            0 <= b < groups.len() ==> (#[trigger] groups[b]).1 == events.filter(
                |e: EventView| category_of(e) == groups[b].0,
            ),
        0 <= a < groups.len(),
    ensures
        forall|i: int|
            0 <= i < groups[a].1.len() ==> category_of(#[trigger] groups[a].1[i]) == groups[a].0,
{
    let name = groups[a].0;
    let f = |e: EventView| category_of(e) == name;
    assert(groups[a].1 == events.filter(f));
    assert forall|i: int| 0 <= i < groups[a].1.len() implies category_of(#[trigger] groups[a].1[i])
        == name by {
        events.lemma_filter_pred(f, i);
    }
}

/// What a filter by category leaves of the two parts of some groups.
proof fn lemma_parts_of_category(
    events: Seq<EventView>,
    groups: Seq<(Seq<char>, Seq<EventView>)>,
    similar: Seq<Seq<char>>,
    config: TentativePromotionConfig,
    name: Seq<char>,
)
    requires
        forall|a: int, b: int|
            0 <= a < b < groups.len() ==> lex_lt((#[trigger] groups[a]).0, (#[trigger] groups[b]).0),
        forall|b: int|
            0 <= b < groups.len() ==> (#[trigger] groups[b]).1 == events.filter(
                |e: EventView| category_of(e) == groups[b].0,
            ),
    ensures
        ({
            let own = events.filter(|e: EventView| category_of(e) == name);
            let here = exists|a: int| 0 <= a < groups.len() && (#[trigger] groups[a]).0 == name;
            let yes = confirms(own, config, similar.contains(name));
            &&& promoted_events(groups, similar, config).filter(
                |e: EventView| category_of(e) == name,
            ) == (if here && yes {
                with_confidence(own, config.promoted_confidence)
            } else {
                Seq::empty()
            })
            &&& remaining_events(groups, similar, config).filter(
                |e: EventView| category_of(e) == name,
            ) == (if here && !yes {
                own
            } else {
                Seq::empty()
            })
        }),
    decreases groups.len(),
{
    let f = |e: EventView| category_of(e) == name;
    let own = events.filter(f);
    let c = config.promoted_confidence;
    if groups.len() > 0 {
        let front = groups.drop_last();
        let n = groups.len() - 1;
        let last = groups[n];
        assert forall|b: int| 0 <= b < front.len() implies (#[trigger] front[b]).1
            == events.filter(|e: EventView| category_of(e) == front[b].0) by {
            assert(front[b] == groups[b]);
        }
        lemma_parts_of_category(events, front, similar, config, name);
        lemma_group_category(events, groups, n);
        let more = with_confidence(last.1, c);
        assert forall|i: int| 0 <= i < more.len() implies category_of(#[trigger] more[i])
            == last.0 by {
            assert(category_of(last.1[i]) == last.0);
            assert(more[i].keywords == last.1[i].keywords);
        }
        lemma_filter_one_category(last.1, last.0, name);
        lemma_filter_one_category(more, last.0, name);
        let p = promoted_events(front, similar, config);
        let r = remaining_events(front, similar, config);
        Seq::filter_distributes_over_add(p, more, f);
        Seq::filter_distributes_over_add(r, last.1, f);
        let before = exists|a: int| 0 <= a < front.len() && (#[trigger] front[a]).0 == name;
        let here = exists|a: int| 0 <= a < groups.len() && (#[trigger] groups[a]).0 == name;
        if before {
            let a = choose|a: int| 0 <= a < front.len() && (#[trigger] front[a]).0 == name;
            assert(groups[a].0 == name);
            assert(lex_lt(groups[a].0, groups[n].0));
            lemma_lex_irreflexive(name);
            assert(here && last.0 != name);
        } else if last.0 == name {
            assert(groups[n].0 == name);
            assert(here);
            assert(last.1 == events.filter(|e: EventView| category_of(e) == groups[n].0));
            assert(last.1 =~= own);
        } else {
            if here {
                let a = choose|a: int| 0 <= a < groups.len() && (#[trigger] groups[a]).0 == name;
                assert(front[a].0 == name);
            }
        }
        assert(promoted_events(groups, similar, config).filter(f) =~= (if here && confirms(
            own,
            config,
            similar.contains(name),
        ) {
            with_confidence(own, c)
        } else {
            Seq::empty()
        }));
        assert(remaining_events(groups, similar, config).filter(f) =~= (if here && !confirms(
            own,
            config,
            similar.contains(name),
        ) {
            own
        } else {
            Seq::empty()
        }));
    } else {
        reveal(Seq::filter);
    }
}

/// The events of a category share their fate: where they confirm each other all of them are
/// promoted, in their order and with the new confidence, and none remains; otherwise all of
/// them remain as they were, and none is promoted.
pub proof fn law_categories_are_promoted_whole(
    tentative: Seq<EventView>,
    similar: Seq<Seq<char>>,
    config: TentativePromotionConfig,
    promoted: Seq<EventView>,
    remaining: Seq<EventView>,
    name: Seq<char>,
)
    requires
        promotes(tentative, similar, config, promoted, remaining),
    ensures
        ({
            let own = tentative.filter(|e: EventView| category_of(e) == name);
            let up = promoted.filter(|e: EventView| category_of(e) == name);
            let left = remaining.filter(|e: EventView| category_of(e) == name);
            if confirms(own, config, similar.contains(name)) {
                &&& left.len() == 0
                &&& up == own.map_values(
                    |e: EventView| EventView { confidence: config.promoted_confidence, ..e },
                )
            } else {
                &&& up.len() == 0
                &&& left == own
            }
        }),
{
    let groups = choose|groups: Seq<(Seq<char>, Seq<EventView>)>|
        #![trigger promoted_events(groups, similar, config)]
        grouped_events(tentative, category_pairs(tentative), groups) && promoted
            == promoted_events(groups, similar, config) && remaining == remaining_events(
            groups,
            similar,
            config,
        );
    let f = |e: EventView| category_of(e) == name;
    let own = tentative.filter(f);
    assert forall|b: int| 0 <= b < groups.len() implies (#[trigger] groups[b]).1
        == tentative.filter(|e: EventView| category_of(e) == groups[b].0) by {
        law_category_group(tentative, groups[b].0);
    }
    lemma_parts_of_category(tentative, groups, similar, config, name);
    if own.len() > 0 {
        tentative.lemma_filter_pred(f, 0);
        let e = own[0];
        assert(own.contains(e));
        lemma_filter_source(tentative, f, e);
        let k = choose|k: int| 0 <= k < tentative.len() && tentative[k] == e;
        assert(category_pairs(tentative)[k].0 == name);
        assert(some_events_named(groups, name));
    } else {
        assert(own =~= Seq::<EventView>::empty());
        assert(with_confidence(own, config.promoted_confidence) =~= Seq::<EventView>::empty());
    }
}

/// What a filter leaves was there before.
proof fn lemma_filter_source(s: Seq<EventView>, f: spec_fn(EventView) -> bool, e: EventView)
    requires
        s.filter(f).contains(e),
    ensures
        s.contains(e),
    decreases s.len(),
{
    reveal(Seq::filter);
    if s.len() > 0 {
        let rest = s.drop_last();
        let i = choose|i: int| 0 <= i < s.filter(f).len() && s.filter(f)[i] == e;
        if i < rest.filter(f).len() {
            assert(rest.filter(f)[i] == e);
            lemma_filter_source(rest, f, e);
            let k = choose|k: int| 0 <= k < rest.len() && rest[k] == e;
            assert(s[k] == e);
        } else {
            assert(s[s.len() - 1] == e);
        }
    }
}

/// Six tenths confirm an event, and 45 hundredths make it tentative; what is less, or no number,
/// is discarded.
pub proof fn law_track_bounds(x: Real)
    ensures
        track_of(x) is Confirmed <==> !x.nan() && x.rank() >= 0x3fe3_3333_3333_3333,
        track_of(x) is Tentative <==> !x.nan() && 0x3fdc_cccc_cccc_cccd <= x.rank()
            && x.rank() < 0x3fe3_3333_3333_3333,
        track_of(x) is Discarded <==> x.nan() || x.rank() < 0x3fdc_cccc_cccc_cccd,
{
}

/// An event passes where it is not discarded and, without calibrated weights, its confidence
/// reaches the threshold.
pub proof fn law_what_passes(e: EventView, config: StatsConfig)
    ensures
        config.use_calibrated_weights ==> (passes(e, config) <==> !(track_of(
            e.confidence,
        ) is Discarded)),
        !config.use_calibrated_weights ==> (passes(e, config) <==> {
            &&& !(track_of(e.confidence) is Discarded)
            &&& !config.confidence_threshold.nan()
            &&& config.confidence_threshold.rank() <= e.confidence.rank()
        }),
{
}

/// The overlap of two lists of keywords counts the different keywords that both have, and those
/// that at least one of them has.
pub proof fn law_overlap_counts(a: Option<Seq<char>>, b: Option<Seq<char>>)
    ensures
        overlap(a, b).0 == tags(a).to_set().intersect(tags(b).to_set()).len(),
        overlap(a, b).1 == tags(a).to_set().union(tags(b).to_set()).len(),
{
    let x = distinct(tags(a));
    let y = distinct(tags(b));
    lemma_distinct(tags(a));
    lemma_distinct(tags(b));
    let f = |t: Seq<char>| y.contains(t);
    lemma_filter_set(x, f);
    assert(x.to_set() =~= tags(a).to_set()) by {
        assert forall|t: Seq<char>| x.to_set().contains(t) <==> #[trigger] tags(a).to_set().contains(
            t,
        ) by {
            assert(x.contains(t) <==> tags(a).contains(t));
        }
    }
    assert(y.to_set() =~= tags(b).to_set()) by {
        assert forall|t: Seq<char>| y.to_set().contains(t) <==> #[trigger] tags(b).to_set().contains(
            t,
        ) by {
            assert(y.contains(t) <==> tags(b).contains(t));
        }
    }
    assert(x.filter(f).to_set() =~= x.to_set().intersect(y.to_set()));
    x.filter(f).unique_seq_to_set();
    x.unique_seq_to_set();
    y.unique_seq_to_set();
    vstd::set_lib::lemma_set_intersect_union_lens(x.to_set(), y.to_set());
}

/// The overlaps of a cluster are those of its first event with each later one, followed by those
/// of the later ones among themselves: every pair is there once.
pub proof fn law_every_pair_overlaps(first: EventView, later: Seq<EventView>)
    ensures
        overlaps_from(seq![first] + later, 0, 1) == later.map_values(
            |e: EventView| overlap(first.keywords, e.keywords),
        ) + overlaps_from(later, 0, 1),
        overlaps_from(Seq::<EventView>::empty(), 0, 1).len() == 0,
{
    lemma_overlaps_of_first(first, later, 0);
    lemma_overlaps_shift(first, later, 0, 1);
    assert(later.skip(0) =~= later);
}

proof fn lemma_overlaps_of_first(first: EventView, later: Seq<EventView>, k: int)
    requires
        0 <= k <= later.len(),
    ensures
        overlaps_from(seq![first] + later, 0, k + 1) == later.skip(k).map_values(
            |e: EventView| overlap(first.keywords, e.keywords),
        ) + overlaps_from(seq![first] + later, 1, 2),
    decreases later.len() - k,
{
    let all = seq![first] + later;
    let g = |e: EventView| overlap(first.keywords, e.keywords);
    if k < later.len() {
        lemma_overlaps_of_first(first, later, k + 1);
        assert(later.skip(k) =~= seq![later[k]] + later.skip(k + 1));
        assert(all[k + 1] == later[k]);
        assert(overlaps_from(all, 0, k + 1) =~= later.skip(k).map_values(g) + overlaps_from(
            all,
            1,
            2,
        ));
    } else {
        assert(later.skip(k).map_values(g) =~= Seq::<(int, int)>::empty());
        assert(overlaps_from(all, 0, k + 1) =~= later.skip(k).map_values(g) + overlaps_from(
            all,
            1,
            2,
        ));
    }
}

proof fn lemma_overlaps_shift(first: EventView, later: Seq<EventView>, i: int, j: int)
    requires
        0 <= i < j,
    ensures
        overlaps_from(seq![first] + later, i + 1, j + 1) == overlaps_from(later, i, j),
    decreases later.len() - i, later.len() - j,
{
    let all = seq![first] + later;
    if i >= later.len() {
    } else if j >= later.len() {
        lemma_overlaps_shift(first, later, i + 1, i + 2);
    } else {
        lemma_overlaps_shift(first, later, i, j + 1);
        assert(all[i + 1] == later[i] && all[j + 1] == later[j]);
    }
}

/// Two events come from different occasions where both times are known and lie at least as far
/// apart as wanted, whichever comes first.
pub proof fn law_different_occasions(a: EventView, b: EventView, interval: u64)
    ensures
        apart(a, b, interval) == apart(b, a, interval),
        apart(a, b, interval) ==> a.created_at != 0 && b.created_at != 0,
        a.created_at != 0 && b.created_at != 0 && a.created_at <= b.created_at ==> (apart(
            a,
            b,
            interval,
        ) <==> a.created_at + interval <= b.created_at || interval == 0),
{
}

/// Every event is on one track, by its confidence, and the events of a track keep their order.
pub proof fn law_events_of_tracks(events: Seq<EventView>)
    ensures
        on_track(events, AdmissionTrack::Confirmed) == events.filter(
            |e: EventView| !e.confidence.nan() && e.confidence.rank() >= 0x3fe3_3333_3333_3333,
        ),
        on_track(events, AdmissionTrack::Tentative) == events.filter(
            |e: EventView|
                !e.confidence.nan() && 0x3fdc_cccc_cccc_cccd <= e.confidence.rank()
                    && e.confidence.rank() < 0x3fe3_3333_3333_3333,
        ),
        on_track(events, AdmissionTrack::Discarded) == events.filter(
            |e: EventView| e.confidence.nan() || e.confidence.rank() < 0x3fdc_cccc_cccc_cccd,
        ),
{
    let a = |e: EventView| track_of(e.confidence) == AdmissionTrack::Confirmed;
    let b = |e: EventView| track_of(e.confidence) == AdmissionTrack::Tentative;
    let c = |e: EventView| track_of(e.confidence) == AdmissionTrack::Discarded;
    let x = |e: EventView| !e.confidence.nan() && e.confidence.rank() >= 0x3fe3_3333_3333_3333;
    let y = |e: EventView|
        !e.confidence.nan() && 0x3fdc_cccc_cccc_cccd <= e.confidence.rank() && e.confidence.rank()
            < 0x3fe3_3333_3333_3333;
    let z = |e: EventView| e.confidence.nan() || e.confidence.rank() < 0x3fdc_cccc_cccc_cccd;
    assert forall|e: EventView| #[trigger] a(e) == x(e) by {
        law_track_bounds(e.confidence);
    }
    assert forall|e: EventView| #[trigger] b(e) == y(e) by {
        law_track_bounds(e.confidence);
    }
    assert forall|e: EventView| #[trigger] c(e) == z(e) by {
        law_track_bounds(e.confidence);
    }
    assert(a =~= x && b =~= y && c =~= z);
}

/// What is promoted and what remains come in the order of the categories.
pub proof fn law_promotion_goes_by_category(
    tentative: Seq<EventView>,
    similar: Seq<Seq<char>>,
    config: TentativePromotionConfig,
    promoted: Seq<EventView>,
    remaining: Seq<EventView>,
)
    requires
        promotes(tentative, similar, config, promoted, remaining),
    ensures
        forall|i: int, j: int|
            0 <= i < j < promoted.len() ==> !lex_lt(
                category_of(#[trigger] promoted[j]),
                category_of(#[trigger] promoted[i]),
            ),
        forall|i: int, j: int|
            0 <= i < j < remaining.len() ==> !lex_lt(
                category_of(#[trigger] remaining[j]),
                category_of(#[trigger] remaining[i]),
            ),
{
    let groups = choose|groups: Seq<(Seq<char>, Seq<EventView>)>|
        #![trigger promoted_events(groups, similar, config)]
        grouped_events(tentative, category_pairs(tentative), groups) && promoted
            == promoted_events(groups, similar, config) && remaining == remaining_events(
            groups,
            similar,
            config,
        );
    law_groups_of_categories(tentative, groups, 0);
    assert forall|a: int, i: int|
        0 <= a < groups.len() && 0 <= i < groups[a].1.len() implies category_of(
        #[trigger] groups[a].1[i],
    ) == groups[a].0 by {
        tentative.lemma_filter_pred(|e: EventView| category_of(e) == groups[a].0, i);
    }
    lemma_by_category(groups, similar, config);
}

proof fn lemma_by_category(
    groups: Seq<(Seq<char>, Seq<EventView>)>,
    similar: Seq<Seq<char>>,
    config: TentativePromotionConfig,
)
    requires
        forall|a: int, b: int|
            0 <= a < b < groups.len() ==> lex_lt((#[trigger] groups[a]).0, (#[trigger] groups[b]).0),
        forall|a: int, i: int|
            0 <= a < groups.len() && 0 <= i < groups[a].1.len() ==> category_of(
                #[trigger] groups[a].1[i],
            ) == groups[a].0,
    ensures
        ({
            let p = promoted_events(groups, similar, config);
            let r = remaining_events(groups, similar, config);
            &&& forall|i: int|
                0 <= i < p.len() ==> some_events_named(groups, category_of(#[trigger] p[i]))
            &&& forall|i: int|
                0 <= i < r.len() ==> some_events_named(groups, category_of(#[trigger] r[i]))
            &&& forall|i: int, j: int|
                0 <= i < j < p.len() ==> !lex_lt(
                    category_of(#[trigger] p[j]),
                    category_of(#[trigger] p[i]),
                )
            &&& forall|i: int, j: int|
                0 <= i < j < r.len() ==> !lex_lt(
                    category_of(#[trigger] r[j]),
                    category_of(#[trigger] r[i]),
                )
        }),
    decreases groups.len(),
{
    if groups.len() > 0 {
        let n = groups.len() - 1;
        let front = groups.drop_last();
        assert forall|a: int, b: int| 0 <= a < b < front.len() implies lex_lt(
            (#[trigger] front[a]).0,
            (#[trigger] front[b]).0,
        ) by {
            assert(front[a] == groups[a] && front[b] == groups[b]);
        }
        assert forall|a: int, i: int|
            0 <= a < front.len() && 0 <= i < front[a].1.len() implies category_of(
            #[trigger] front[a].1[i],
        ) == front[a].0 by {
            assert(front[a].1[i] == groups[a].1[i]);
        }
        lemma_by_category(front, similar, config);
        let own = groups.last().1;
        assert forall|i: int| 0 <= i < own.len() implies category_of(#[trigger] own[i])
            == groups.last().0 by {
            assert(own[i] == groups[n].1[i]);
        }
        let up = with_confidence(own, config.promoted_confidence);
        assert forall|i: int| 0 <= i < up.len() implies category_of(#[trigger] up[i])
            == groups.last().0 by {
            assert(category_of(up[i]) == category_of(own[i]));
        }
        let confirmed = confirms(own, config, similar.contains(groups.last().0));
        let none = Seq::<EventView>::empty();
        let p = promoted_events(front, similar, config);
        let r = remaining_events(front, similar, config);
        lemma_appended_category(groups, p, if confirmed {
            up
        } else {
            none
        });
        lemma_appended_category(groups, r, if confirmed {
            none
        } else {
            own
        });
        assert(p + none =~= p);
        assert(r + none =~= r);
    }
}

proof fn lemma_appended_category(
    groups: Seq<(Seq<char>, Seq<EventView>)>,
    s: Seq<EventView>,
    t: Seq<EventView>,
)
    requires
        groups.len() > 0,
        forall|a: int, b: int|
            0 <= a < b < groups.len() ==> lex_lt((#[trigger] groups[a]).0, (#[trigger] groups[b]).0),
        forall|i: int|
            0 <= i < s.len() ==> some_events_named(groups.drop_last(), category_of(#[trigger] s[i])),
        forall|i: int, j: int|
            0 <= i < j < s.len() ==> !lex_lt(
                category_of(#[trigger] s[j]),
                category_of(#[trigger] s[i]),
            ),
        forall|i: int| 0 <= i < t.len() ==> category_of(#[trigger] t[i]) == groups.last().0,
    ensures
        forall|i: int|
            0 <= i < (s + t).len() ==> some_events_named(groups, category_of(#[trigger] (s + t)[i])),
        forall|i: int, j: int|
            0 <= i < j < (s + t).len() ==> !lex_lt(
                category_of(#[trigger] (s + t)[j]),
                category_of(#[trigger] (s + t)[i]),
            ),
{
    let n = groups.len() - 1;
    let all = s + t;
    assert forall|i: int| 0 <= i < all.len() implies some_events_named(
        groups,
        category_of(#[trigger] all[i]),
    ) by {
        if i < s.len() {
            assert(all[i] == s[i]);
            let a = choose|a: int|
                0 <= a < groups.len() - 1 && (#[trigger] groups.drop_last()[a]).0 == category_of(
                    s[i],
                );
            assert(groups[a].0 == category_of(all[i]));
        } else {
            assert(all[i] == t[i - s.len()]);
            assert(groups[n].0 == category_of(all[i]));
        }
    }
    assert forall|i: int, j: int| 0 <= i < j < all.len() implies !lex_lt(
        category_of(#[trigger] all[j]),
        category_of(#[trigger] all[i]),
    ) by {
        if j < s.len() {
            assert(all[i] == s[i] && all[j] == s[j]);
        } else if i < s.len() {
            assert(all[i] == s[i] && all[j] == t[j - s.len()]);
            let a = choose|a: int|
                0 <= a < groups.len() - 1 && (#[trigger] groups.drop_last()[a]).0 == category_of(
                    s[i],
                );
            assert(lex_lt(groups[a].0, groups[n].0));
            if lex_lt(groups[n].0, groups[a].0) {
                lemma_lex_transitive(groups[n].0, groups[a].0, groups[n].0);
                lemma_lex_irreflexive(groups[n].0);
            }
        } else {
            assert(all[i] == t[i - s.len()] && all[j] == t[j - s.len()]);
            lemma_lex_irreflexive(groups.last().0);
        }
    }
}

/// A cluster is promoted where it is large enough, its keywords are similar, and any two of its
/// events have known times that lie far enough apart.
pub proof fn law_promoting_a_cluster(
    cluster: &Vec<MemoryEvent>,
    config: &TentativePromotionConfig,
    similar: bool,
    r: bool,
)
    requires
        call_ensures(should_promote_cluster, (cluster, config, similar), r),
    ensures
        r <==> cluster@.len() >= config.min_cluster_size && similar && exists|a: int, b: int|
            {
                &&& 0 <= a < cluster@.len()
                &&& 0 <= b < cluster@.len()
                &&& a != b
                &&& (#[trigger] cluster@[a]).created_at != 0
                &&& (#[trigger] cluster@[b]).created_at != 0
                &&& cluster@[b].created_at - cluster@[a].created_at >= config.min_batch_interval_ms
            },
{
    let views = event_views(cluster@);
    law_cluster_confirms(views, *config, similar);
    assert forall|i: int| 0 <= i < cluster@.len() implies #[trigger] views[i].created_at
        == cluster@[i].created_at by {
    }
    if r {
        let (a, b) = choose|a: int, b: int|
            {
                &&& 0 <= a < views.len()
                &&& 0 <= b < views.len()
                &&& a != b
                &&& (#[trigger] views[a]).created_at != 0
                &&& (#[trigger] views[b]).created_at != 0
                &&& views[b].created_at - views[a].created_at >= config.min_batch_interval_ms
            };
        assert(cluster@[a].created_at == views[a].created_at);
        assert(cluster@[b].created_at == views[b].created_at);
    }
    if exists|a: int, b: int|
        {
            &&& 0 <= a < cluster@.len()
            &&& 0 <= b < cluster@.len()
            &&& a != b
            &&& (#[trigger] cluster@[a]).created_at != 0
            &&& (#[trigger] cluster@[b]).created_at != 0
            &&& cluster@[b].created_at - cluster@[a].created_at >= config.min_batch_interval_ms
        } {
        let (a, b) = choose|a: int, b: int|
            {
                &&& 0 <= a < cluster@.len()
                &&& 0 <= b < cluster@.len()
                &&& a != b
                &&& (#[trigger] cluster@[a]).created_at != 0
                &&& (#[trigger] cluster@[b]).created_at != 0
                &&& cluster@[b].created_at - cluster@[a].created_at >= config.min_batch_interval_ms
            };
        assert(views[a].created_at == cluster@[a].created_at);
        assert(views[b].created_at == cluster@[b].created_at);
    }
}

/// Sorting events by their tracks loses none, and the numbers add up.
pub proof fn law_sorting_events(events: &Vec<MemoryEvent>, r: ClassifiedEvents)
    requires
        call_ensures(classify_events, (events,), r),
    ensures
        event_views(r.confirmed@) == event_views(events@).filter(
            |e: EventView| !e.confidence.nan() && e.confidence.rank() >= 0x3fe3_3333_3333_3333,
        ),
        event_views(r.tentative@) == event_views(events@).filter(
            |e: EventView|
                !e.confidence.nan() && 0x3fdc_cccc_cccc_cccd <= e.confidence.rank()
                    && e.confidence.rank() < 0x3fe3_3333_3333_3333,
        ),
        r.discarded_count == events@.len() - r.confirmed@.len() - r.tentative@.len(),
{
    law_events_of_tracks(event_views(events@));
}

/// Where nothing else is said, two events that are six hours apart and whose keywords are four
/// tenths alike confirm each other, and are then as sure as a confirmed event must be.
pub proof fn law_default_promotion(r: TentativePromotionConfig)
    requires
        call_ensures(TentativePromotionConfig::default, (), r),
    ensures
        r.min_cluster_size == 2,
        r.min_batch_interval_ms == 6 * 60 * 60 * 1000,
        r.keyword_similarity_threshold.bits == 0x3fd9_9999_9999_999a,
        r.promoted_confidence.bits == 0x3fe3_3333_3333_3333,
{
}

} // verus!

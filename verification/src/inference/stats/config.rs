//! Events, and how their statistics are made.

use vstd::prelude::*;

use crate::binary64::{Real, ONE_BITS, SIGN};
use crate::text::{copy_opt, copy_text, opt_text};

verus! {

/// How something is told.
#[derive(Debug, Clone, Copy, PartialEq, Eq, Structural)]
pub enum Presentation {
    Objective,
    Subjective,
    Mixed,
}

/// Something that happened, as it is remembered.
#[derive(Debug)]
pub struct MemoryEvent {
    pub id: u128,
    pub persona_uid: String,
    pub title: String,
    pub summary: String,
    /// Keywords, with commas between them.
    pub keywords: Option<String>,
    pub attitude: Option<String>,
    /// Motives, with commas between them.
    pub motives: Option<String>,
    pub confidence: Real,
    pub salience: Real,
    pub valence: Real,
    pub share: Real,
    pub presentation: Presentation,
    pub situation_strength: Option<i32>,
    /// In milliseconds; zero where it is unknown.
    pub created_at: i64,
}

/// What a `MemoryEvent` says.
#[verifier::ext_equal]
pub struct EventView {
    pub id: u128,
    pub persona_uid: Seq<char>,
    pub title: Seq<char>,
    pub summary: Seq<char>,
    pub keywords: Option<Seq<char>>,
    pub attitude: Option<Seq<char>>,
    pub motives: Option<Seq<char>>,
    pub confidence: Real,
    pub salience: Real,
    pub valence: Real,
    pub share: Real,
    pub presentation: Presentation,
    pub situation_strength: Option<i32>,
    pub created_at: i64,
}

impl View for MemoryEvent {
    type V = EventView;

    open spec fn view(&self) -> EventView {
        EventView {
            id: self.id,
            persona_uid: self.persona_uid@,
            title: self.title@,
            summary: self.summary@,
            keywords: opt_text(self.keywords),
            attitude: opt_text(self.attitude),
            motives: opt_text(self.motives),
            confidence: self.confidence,
            salience: self.salience,
            valence: self.valence,
            share: self.share,
            presentation: self.presentation,
            situation_strength: self.situation_strength,
            created_at: self.created_at,
        }
    }
}

/// What a sequence of events says.
pub open spec fn event_views(v: Seq<MemoryEvent>) -> Seq<EventView> {
    v.map_values(|e: MemoryEvent| e@)
}

impl Clone for MemoryEvent {
    fn clone(&self) -> (r: Self)
        ensures
            r@ == self@,
    {
        MemoryEvent {
            id: self.id,
            persona_uid: copy_text(self.persona_uid.as_str()),
            title: copy_text(self.title.as_str()),
            summary: copy_text(self.summary.as_str()),
            keywords: copy_opt(&self.keywords),
            attitude: copy_opt(&self.attitude),
            motives: copy_opt(&self.motives),
            confidence: self.confidence,
            salience: self.salience,
            valence: self.valence,
            share: self.share,
            presentation: self.presentation,
            situation_strength: self.situation_strength,
            created_at: self.created_at,
        }
    }
}

/// How far an event is believed.
#[derive(Debug, Clone, Copy, PartialEq, Eq, Structural)]
pub enum AdmissionTrack {
    /// It counts in full.
    Confirmed,
    /// It counts less, and may be confirmed by others.
    Tentative,
    /// It does not count.
    Discarded,
}

impl AdmissionTrack {
    /// The factor with which events of the track count.
    pub open spec fn factor(self, tentative_factor: Real) -> Real {
        match self {
            AdmissionTrack::Confirmed => Real { bits: ONE_BITS },
            AdmissionTrack::Tentative => tentative_factor,
            AdmissionTrack::Discarded => Real { bits: 0 },
        }
    }

    /// The factor with which events of the track count: one, the given factor, or zero.
    pub fn confidence_factor(self, tentative_factor: Real) -> (r: Real)
        ensures
            r == self.factor(tentative_factor),
    {
        match self {
            AdmissionTrack::Confirmed => Real { bits: ONE_BITS },
            AdmissionTrack::Tentative => tentative_factor,
            AdmissionTrack::Discarded => Real { bits: 0 },
        }
    }

    /// The name of the track.
    pub open spec fn name(self) -> Seq<char> {
        match self {
            AdmissionTrack::Confirmed => "confirmed"@,
            AdmissionTrack::Tentative => "tentative"@,
            AdmissionTrack::Discarded => "discarded"@,
        }
    }

    /// The name of the track.
    pub fn as_str(self) -> (r: &'static str)
        ensures
            r@ == self.name(),
    {
        match self {
            AdmissionTrack::Confirmed => "confirmed",
            AdmissionTrack::Tentative => "tentative",
            AdmissionTrack::Discarded => "discarded",
        }
    }
}

/// How the weight of an event is calculated.
#[derive(Debug, Clone, Copy, PartialEq, Eq, Structural)]
pub struct CalibratedWeightConfig {
    pub salience_exponent: Real,
    /// How much a topic that comes back can add.
    pub recurrence_boost_max: Real,
    /// How much strong feelings can add.
    pub intensity_boost_max: Real,
    /// How much frequent mention can add.
    pub mention_boost_max: Real,
    /// With so many sources an event has full support.
    pub min_sources_for_full_support: usize,
    /// The factor with which tentative events count.
    pub tentative_weight_factor: Real,
}

/// The ordinary weights: the exponent is one; the boosts are 30, 20 and 15 per cent;
/// tentative events count half.
pub open spec fn default_weights() -> CalibratedWeightConfig {
    CalibratedWeightConfig {
        salience_exponent: Real { bits: ONE_BITS },
        recurrence_boost_max: Real { bits: 0x3fd3_3333_3333_3333 },
        intensity_boost_max: Real { bits: 0x3fc9_9999_9999_999a },
        mention_boost_max: Real { bits: 0x3fc3_3333_3333_3333 },
        min_sources_for_full_support: 3,
        tentative_weight_factor: Real { bits: 0x3fe0_0000_0000_0000 },
    }
}

impl Default for CalibratedWeightConfig {
    fn default() -> (r: Self)
        ensures
            r == default_weights(),
    {
        CalibratedWeightConfig {
            salience_exponent: Real { bits: ONE_BITS },
            recurrence_boost_max: Real { bits: 0x3fd3_3333_3333_3333 },
            intensity_boost_max: Real { bits: 0x3fc9_9999_9999_999a },
            mention_boost_max: Real { bits: 0x3fc3_3333_3333_3333 },
            min_sources_for_full_support: 3,
            tentative_weight_factor: Real { bits: 0x3fe0_0000_0000_0000 },
        }
    }
}

/// The bit pattern of six tenths: from this confidence on an event is confirmed.
pub const CONFIRMED_BITS: u64 = 0x3fe3_3333_3333_3333;

/// The bit pattern of 45 hundredths: from this confidence on an event is tentative.
pub const TENTATIVE_BITS: u64 = 0x3fdc_cccc_cccc_cccd;

/// How the statistics are made.
#[derive(Debug, Clone, Copy, PartialEq, Eq, Structural)]
pub struct StatsConfig {
    /// Without calibrated weights, events of a lower confidence do not count.
    pub confidence_threshold: Real,
    /// How many events stand for a category, at most.
    pub max_representative_events: usize,
    pub use_calibrated_weights: bool,
    pub calibrated_weight_config: CalibratedWeightConfig,
}

impl Default for StatsConfig {
    fn default() -> (r: Self)
        ensures
            r.confidence_threshold == (Real { bits: CONFIRMED_BITS }),
            r.max_representative_events == 3,
            r.use_calibrated_weights,
            r.calibrated_weight_config == default_weights(),
    {
        StatsConfig {
            confidence_threshold: Real { bits: CONFIRMED_BITS },
            max_representative_events: 3,
            use_calibrated_weights: true,
            calibrated_weight_config: CalibratedWeightConfig::default(),
        }
    }
}

/// The size of a number without its sign, and at most one; what is not a number counts as
/// one.
pub open spec fn intensity(x: Real) -> Real {
    let size = if x.bits < SIGN {
        x
    } else {
        Real { bits: (x.bits - SIGN) as u64 }
    };
    if size.lt(Real { bits: ONE_BITS }) {
        size
    } else {
        Real { bits: ONE_BITS }
    }
}

/// What is known about an event beyond itself.
#[derive(Debug, Clone, Copy, PartialEq, Eq, Structural)]
pub struct EventEnrichment {
    /// How often its topic comes back, from zero to one.
    pub topic_recurrence_count: Real,
    /// How strong the feelings are, from zero to one.
    pub emotional_intensity: Real,
    /// How often it is mentioned, from zero to one.
    pub mention_frequency: Real,
    pub source_count: usize,
}

impl Default for EventEnrichment {
    fn default() -> (r: Self)
        ensures
            r.topic_recurrence_count == (Real { bits: 0 }),
            r.emotional_intensity == (Real { bits: 0 }),
            r.mention_frequency == (Real { bits: 0 }),
            r.source_count == 0,
    {
        EventEnrichment {
            topic_recurrence_count: Real { bits: 0 },
            emotional_intensity: Real { bits: 0 },
            mention_frequency: Real { bits: 0 },
            source_count: 0,
        }
    }
}

impl EventEnrichment {
    /// What an event by itself tells: the feelings by its valence, the mention by its
    /// salience, and one source.
    pub fn from_event(event: &MemoryEvent) -> (r: Self)
        ensures
            r.topic_recurrence_count == (Real { bits: 0 }),
            r.emotional_intensity == intensity(event.valence),
            r.mention_frequency == event.salience,
            r.source_count == 1,
    {
        let bits: u64 = event.valence.bits;
        let size = if bits < SIGN {
            event.valence
        } else {
            Real { bits: bits - SIGN }
        };
        let one = Real { bits: ONE_BITS };
        EventEnrichment {
            topic_recurrence_count: Real { bits: 0 },
            emotional_intensity: if size.is_less(&one) {
                size
            } else {
                one
            },
            mention_frequency: event.salience,
            source_count: 1,
        }
    }
}

/// The factor of a situation: the traits of a person show more in weak situations (1 and 2)
/// and less in strong ones (4 and 5).
pub open spec fn situation_factor(strength: Option<i32>) -> Real {
    match strength {
        Some(s) => if s == 1 || s == 2 {
            Real { bits: 0x3ff8_0000_0000_0000 }
        } else if s == 4 || s == 5 {
            Real { bits: 0x3fe0_0000_0000_0000 }
        } else {
            Real { bits: ONE_BITS }
        },
        None => Real { bits: ONE_BITS },
    }
}

/// The factor of a situation: one and a half, one, or a half.
pub fn situation_multiplier(strength: Option<i32>) -> (r: Real)
    ensures
        r == situation_factor(strength),
{
    match strength {
        Some(s) => if s == 1 || s == 2 {
            Real { bits: 0x3ff8_0000_0000_0000 }
        } else if s == 4 || s == 5 {
            Real { bits: 0x3fe0_0000_0000_0000 }
        } else {
            Real { bits: ONE_BITS }
        },
        None => Real { bits: ONE_BITS },
    }
}

/// The figures of a group of events.
#[derive(Debug, Clone, Copy, PartialEq, Eq, Structural)]
pub struct GroupFigures {
    /// The sum of the weights of the events.
    pub n_eff: Real,
    pub valence_mean: Real,
    pub valence_std: Real,
    pub valence_positive_ratio: Real,
    pub share_mean: Real,
    pub share_std: Real,
    pub presentation_objective_ratio: Real,
    pub presentation_subjective_ratio: Real,
    pub presentation_mixed_ratio: Real,
    /// The mean of the saliences.
    pub avg_salience: Real,
    /// The weight of the group among all groups.
    pub group_weight: Real,
}

/// What is known of a category.
#[derive(Debug, Clone)]
pub struct CategoryStats {
    pub category: String,
    pub event_count: usize,
    pub n_eff: Real,
    pub valence_mean: Real,
    pub valence_std: Real,
    pub valence_positive_ratio: Real,
    pub share_mean: Real,
    pub share_std: Real,
    pub presentation_objective_ratio: Real,
    pub presentation_subjective_ratio: Real,
    pub presentation_mixed_ratio: Real,
    pub group_weight: Real,
}

/// What is known of a motive.
#[derive(Debug, Clone)]
pub struct MotiveStats {
    pub motive: String,
    pub event_count: usize,
    pub n_eff: Real,
    pub valence_mean: Real,
    pub valence_std: Real,
    pub valence_positive_ratio: Real,
    pub share_mean: Real,
    pub share_std: Real,
    pub presentation_objective_ratio: Real,
    pub presentation_subjective_ratio: Real,
    pub presentation_mixed_ratio: Real,
    pub avg_salience: Real,
}

/// The figures of all categories together.
#[derive(Debug, Clone, Copy, PartialEq, Eq, Structural)]
pub struct CrossCategoryMetrics {
    pub emotional_stability: Real,
    pub narrative_consistency: Real,
    /// One where attitudes of different categories can contradict each other.
    pub attitude_contradiction_count: usize,
    pub share_skewness: Real,
    pub share_kurtosis: Real,
}

/// Whether `r` tells the name, the number of events and the figures of a category.
pub open spec fn tells_category(
    r: CategoryStats,
    name: Seq<char>,
    count: nat,
    f: GroupFigures,
) -> bool {
    &&& r.category@ == name
    &&& r.event_count == count
    &&& r.n_eff == f.n_eff
    &&& r.valence_mean == f.valence_mean
    &&& r.valence_std == f.valence_std
    &&& r.valence_positive_ratio == f.valence_positive_ratio
    &&& r.share_mean == f.share_mean
    &&& r.share_std == f.share_std
    &&& r.presentation_objective_ratio == f.presentation_objective_ratio
    &&& r.presentation_subjective_ratio == f.presentation_subjective_ratio
    &&& r.presentation_mixed_ratio == f.presentation_mixed_ratio
    &&& r.group_weight == f.group_weight
}

/// Whether `r` tells the name, the number of events and the figures of a motive.
pub open spec fn tells_motive(
    r: MotiveStats,
    name: Seq<char>,
    count: nat,
    f: GroupFigures,
) -> bool {
    &&& r.motive@ == name
    &&& r.event_count == count
    &&& r.n_eff == f.n_eff
    &&& r.valence_mean == f.valence_mean
    &&& r.valence_std == f.valence_std
    &&& r.valence_positive_ratio == f.valence_positive_ratio
    &&& r.share_mean == f.share_mean
    &&& r.share_std == f.share_std
    &&& r.presentation_objective_ratio == f.presentation_objective_ratio
    &&& r.presentation_subjective_ratio == f.presentation_subjective_ratio
    &&& r.presentation_mixed_ratio == f.presentation_mixed_ratio
    &&& r.avg_salience == f.avg_salience
}

impl CategoryStats {
    /// What is known of a category.
    pub fn new(category: &str, event_count: usize, f: &GroupFigures) -> (r: Self)
        ensures
            tells_category(r, category@, event_count as nat, *f),
    {
        CategoryStats {
            category: copy_text(category),
            event_count,
            n_eff: f.n_eff,
            valence_mean: f.valence_mean,
            valence_std: f.valence_std,
            valence_positive_ratio: f.valence_positive_ratio,
            share_mean: f.share_mean,
            share_std: f.share_std,
            presentation_objective_ratio: f.presentation_objective_ratio,
            presentation_subjective_ratio: f.presentation_subjective_ratio,
            presentation_mixed_ratio: f.presentation_mixed_ratio,
            group_weight: f.group_weight,
        }
    }
}

impl MotiveStats {
    /// What is known of a motive.
    pub fn new(motive: &str, event_count: usize, f: &GroupFigures) -> (r: Self)
        ensures
            tells_motive(r, motive@, event_count as nat, *f),
    {
        MotiveStats {
            motive: copy_text(motive),
            event_count,
            n_eff: f.n_eff,
            valence_mean: f.valence_mean,
            valence_std: f.valence_std,
            valence_positive_ratio: f.valence_positive_ratio,
            share_mean: f.share_mean,
            share_std: f.share_std,
            presentation_objective_ratio: f.presentation_objective_ratio,
            presentation_subjective_ratio: f.presentation_subjective_ratio,
            presentation_mixed_ratio: f.presentation_mixed_ratio,
            avg_salience: f.avg_salience,
        }
    }
}

/// The strength of feelings lies between zero and one.
pub proof fn law_intensity_in_range(x: Real)
    ensures
        (Real { bits: 0 }).le(intensity(x)),
        intensity(x).le(Real { bits: ONE_BITS }),
{
}

/// Confirmed events count in full, tentative ones by the given factor, discarded ones not at
/// all.
pub proof fn law_track_factors(t: AdmissionTrack, f: Real)
    ensures
        t is Confirmed ==> t.factor(f).bits == 0x3ff0_0000_0000_0000,
        t is Tentative ==> t.factor(f) == f,
        t is Discarded ==> t.factor(f).bits == 0,
{
}

/// Weak situations count one and a half times, strong ones half, and all others once.
pub proof fn law_situation_factors(s: Option<i32>)
    ensures
        situation_factor(s).bits == 0x3ff8_0000_0000_0000 <==> s == Some(1i32) || s == Some(2i32),
        situation_factor(s).bits == 0x3fe0_0000_0000_0000 <==> s == Some(4i32) || s == Some(5i32),
        situation_factor(s).bits == 0x3ff0_0000_0000_0000 <==> !(s == Some(1i32) || s == Some(2i32)
            || s == Some(4i32) || s == Some(5i32)),
{
}

/// Feelings are as strong as the valence is far from zero, on either side, up to one.
pub proof fn law_intensity_is_distance(x: Real)
    requires
        !x.nan(),
    ensures
        intensity(x).rank() == (if x.magnitude() < 0x3ff0_0000_0000_0000 {
            x.magnitude()
        } else {
            0x3ff0_0000_0000_0000
        }),
{
}

/// The weights that are used where nothing else is said: one, three tenths, two tenths, fifteen
/// hundredths, three sources, and a half.
pub proof fn law_default_weights()
    ensures
        default_weights().salience_exponent.bits == 0x3ff0_0000_0000_0000,
        default_weights().recurrence_boost_max.bits == 0x3fd3_3333_3333_3333,
        default_weights().intensity_boost_max.bits == 0x3fc9_9999_9999_999a,
        default_weights().mention_boost_max.bits == 0x3fc3_3333_3333_3333,
        default_weights().min_sources_for_full_support == 3,
        default_weights().tentative_weight_factor.bits == 0x3fe0_0000_0000_0000,
        CONFIRMED_BITS == 0x3fe3_3333_3333_3333,
{
}

/// The tracks have their names.
pub proof fn law_track_names()
    ensures
        AdmissionTrack::Confirmed.name() == "confirmed"@,
        AdmissionTrack::Tentative.name() == "tentative"@,
        AdmissionTrack::Discarded.name() == "discarded"@,
{
}

/// What an event says is what stands in its fields; what events say is said in their order.
pub proof fn law_events_are_seen(e: MemoryEvent, v: Seq<MemoryEvent>)
    ensures
        e@.id == e.id && e@.persona_uid == e.persona_uid@ && e@.title == e.title@,
        e@.summary == e.summary@ && e@.keywords == opt_text(e.keywords),
        e@.attitude == opt_text(e.attitude) && e@.motives == opt_text(e.motives),
        e@.confidence == e.confidence && e@.salience == e.salience && e@.valence == e.valence,
        e@.share == e.share && e@.presentation == e.presentation,
        e@.situation_strength == e.situation_strength && e@.created_at == e.created_at,
        event_views(v).len() == v.len(),
        forall|i: int| 0 <= i < v.len() ==> #[trigger] event_views(v)[i] == v[i]@,
{
}

/// Feelings are written down without a sign, up to one; what is not a number counts as one.
pub proof fn law_intensity_has_no_sign(x: Real)
    ensures
        x.bits < 0x3ff0_0000_0000_0000 ==> intensity(x) == x,
        0x8000_0000_0000_0000 <= x.bits < 0xbff0_0000_0000_0000 ==> intensity(x).bits == x.bits
            - 0x8000_0000_0000_0000,
        0x3ff0_0000_0000_0000 <= x.bits < 0x8000_0000_0000_0000 || 0xbff0_0000_0000_0000 <= x.bits
            ==> intensity(x).bits == 0x3ff0_0000_0000_0000,
{
}

} // verus!

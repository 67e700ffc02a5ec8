//! Coverage feedback: the kind of coverage collected, the opinion a
//! feedback forms of one outcome, and the novelty rule over bitmaps.

use vstd::prelude::*;

verus! {

/// Which coverage source feeds the greybox loop.
#[derive(Debug, Clone, Copy, PartialEq, Eq, Structural)]
pub enum CoverageType {
    /// No coverage is collected.
    NoCoverage,
    /// Linux kernel coverage, for kernel filesystems.
    KCov,
    /// User-space coverage for ordinary programs.
    LCov,
}

/// The set of coverage slots one input touched.
pub type InputCoverage = Vec<u64>;

/// The global hit counters, one per coverage slot.
pub type CoverageMap = Vec<u64>;

/// A feedback's verdict on one outcome, with the input's coverage.
pub enum FeedbackOpinion {
    Interesting(InputCoverage),
    NotInteresting(InputCoverage),
}

impl FeedbackOpinion {
    /// Whether the verdict keeps the input.
    pub fn is_interesting(&self) -> (r: bool)
        ensures
            r == (self is Interesting),
    {
        match self {
            FeedbackOpinion::Interesting(_) => true,
            FeedbackOpinion::NotInteresting(_) => false,
        }
    }

    /// The coverage the verdict carries, either way.
    pub fn coverage(self) -> (r: InputCoverage)
        ensures
            match self {
                FeedbackOpinion::Interesting(c) => r == c,
                FeedbackOpinion::NotInteresting(c) => r == c,
            },
    {
        match self {
            FeedbackOpinion::Interesting(c) => c,
            FeedbackOpinion::NotInteresting(c) => c,
        }
    }
}

/// The log-bucket of a hit count: zero stays zero, and each doubling
/// fills one more bucket.
pub open spec fn spec_bucket(h: int) -> int
    decreases h,
{
    if h <= 0 {
        0
    } else {
        1 + spec_bucket(h / 2)
    }
}

/// The log-bucket of a hit count.
pub fn bucket(h: u64) -> (r: u64)
    ensures
        r == spec_bucket(h as int),
{
    let mut b: u64 = 0;
    let mut v = h;
    proof {
        lemma_bucket_le(h as int);
        lemma_bucket_nonneg(h as int);
    }
    while v > 0
        invariant
            b + spec_bucket(v as int) == spec_bucket(h as int),
            spec_bucket(h as int) <= u64::MAX,
            b <= spec_bucket(h as int),
        decreases v,
    {
        proof {
            lemma_bucket_nonneg((v / 2) as int);
        }
        v = v / 2;
        b = b + 1;
    }
    b
}

proof fn lemma_bucket_nonneg(h: int)
    ensures
        spec_bucket(h) >= 0,
    decreases h,
{
    if h > 0 {
        lemma_bucket_nonneg(h / 2);
    }
}

proof fn lemma_bucket_le(h: int)
    requires
        h >= 0,
    ensures
        spec_bucket(h) <= h,
    decreases h,
{
    if h > 0 {
        lemma_bucket_le(h / 2);
    }
}

/// One slot turned novel: it went from silent to hit, or its hit count
/// moved up one log-bucket.
pub open spec fn slot_novel(old_hits: int, new_hits: int) -> bool {
    (old_hits == 0 && new_hits > 0) || spec_bucket(new_hits) > spec_bucket(old_hits)
}

/// Whether the observed hit counts show anything the map has not seen:
/// some slot goes from zero to non-zero, or climbs a log-bucket.
pub fn coverage_is_novel(map: &CoverageMap, observed: &CoverageMap) -> (r: bool)
    requires
        map@.len() == observed@.len(),
    ensures
        r == exists|i: int|
            0 <= i < map@.len() && slot_novel(#[trigger] map@[i] as int, observed@[i] as int),
{
    let mut i: usize = 0;
    while i < map.len()
        invariant
            0 <= i <= map@.len(),
            map@.len() == observed@.len(),
            forall|j: int| 0 <= j < i ==> !slot_novel(#[trigger] map@[j] as int, observed@[j] as int),
        decreases map@.len() - i,
    {
        let old_hits = map[i];
        let new_hits = observed[i];
        if old_hits == 0 && new_hits > 0 {
            return true;
        }
        if bucket(new_hits) > bucket(old_hits) {
            return true;
        }
        i += 1;
    }
    false
}

/// A coverage feedback: names its kind, exposes the global map, and
/// judges one run's observed coverage.
pub trait CoverageFeedback {
    fn coverage_type(&self) -> CoverageType;

    fn map(&self) -> &CoverageMap;

    fn opinion(&mut self, observed: &CoverageMap) -> FeedbackOpinion;
}

/// The no-coverage feedback for the black-box driver: nothing is ever
/// interesting.
pub struct DummyCoverageFeedback {
    pub map: CoverageMap,
}

impl DummyCoverageFeedback {
    pub fn new() -> (r: DummyCoverageFeedback)
        ensures
            r.map@.len() == 0,
    {
        DummyCoverageFeedback { map: Vec::new() }
    }
}

impl CoverageFeedback for DummyCoverageFeedback {
    fn coverage_type(&self) -> CoverageType {
        CoverageType::NoCoverage
    }

    fn map(&self) -> &CoverageMap {
        &self.map
    }

    fn opinion(&mut self, observed: &CoverageMap) -> FeedbackOpinion {
        FeedbackOpinion::NotInteresting(Vec::new())
    }
}

} // verus!

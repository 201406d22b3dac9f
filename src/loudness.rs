//! The integer side of ReplayGain analysis: a histogram of 50 ms windows by
//! loudness in hundredths of a dB, its 95th percentile counted from the loud
//! end, and the gain relative to the pink-noise reference.

use vstd::prelude::*;
use crate::mp4::is_mp4;

verus! {

/// Number of histogram buckets: -70 dB to +50 dB in steps of 0.01 dB.
pub const HISTOGRAM_SIZE: usize = 12000;

/// Bucket of 0 dB.
pub const HISTOGRAM_OFFSET: i64 = 7000;

/// Loudness of the pink-noise reference, in hundredths of a dB.
pub const PINK_REF_CENTI_DB: i64 = 6482;

/// Kind of audio file.
#[derive(Debug, Clone, Copy, PartialEq, Eq, Structural)]
pub enum AudioFileType {
    Mp3,
    Aac,
}

/// MP4 files are AAC, all others MP3.
pub fn detect_file_type(data: &[u8]) -> (r: AudioFileType)
    ensures
        r == (if is_mp4(data@) {
            AudioFileType::Aac
        } else {
            AudioFileType::Mp3
        }),
{
    if crate::mp4::is_mp4_data(data) {
        AudioFileType::Aac
    } else {
        AudioFileType::Mp3
    }
}

/// Whether ReplayGain analysis can run: the histogram side is always here.
pub fn is_available() -> (r: bool)
    ensures
        r,
{
    true
}

/// Counts of windows per loudness bucket.
#[derive(Debug, Clone)]
pub struct LoudnessHistogram {
    pub data: Vec<u32>,
}

/// Sum of `s[i..]`.
pub open spec fn suffix_sum(s: Seq<u32>, i: int) -> int
    decreases s.len() - i,
{
    if i < 0 || i >= s.len() {
        0
    } else {
        s[i] + suffix_sum(s, i + 1)
    }
}

/// The highest index at or below `i` whose suffix sum reaches `th`, or -1.
pub open spec fn reach_from(s: Seq<u32>, th: int, i: int) -> int
    decreases i + 1,
{
    if i < 0 {
        -1
    } else if suffix_sum(s, i) >= th {
        i
    } else {
        reach_from(s, th, i - 1)
    }
}

/// The loudness of a histogram in hundredths of a dB: the bucket where the
/// count from the loud end first reaches 5% of all windows (rounded up), or
/// -70 dB for an empty histogram.
pub open spec fn loudness_of(s: Seq<u32>) -> int {
    let total = suffix_sum(s, 0);
    if total == 0 {
        -7000
    } else {
        let i = reach_from(s, (total + 19) / 20, s.len() - 1);
        if i < 0 {
            -7000
        } else {
            i - 7000
        }
    }
}

/// The bucket of a window whose loudness, in hundredths of a dB, is `v`:
/// clamped to the histogram.
pub open spec fn bucket_of(v: int) -> int {
    if v + 7000 < 0 {
        0
    } else if v + 7000 > 11999 {
        11999
    } else {
        v + 7000
    }
}

pub open spec fn sat_add(a: u32, b: u32) -> u32 {
    if a + b > u32::MAX {
        u32::MAX
    } else {
        (a + b) as u32
    }
}

/// Two histograms added bucket by bucket.
pub open spec fn merged(a: Seq<u32>, b: Seq<u32>) -> Seq<u32> {
    Seq::new(a.len(), |i: int| sat_add(a[i], b[i]))
}

/// Merging histograms does not depend on their order or grouping.
pub proof fn lemma_merge_order(a: Seq<u32>, b: Seq<u32>, c: Seq<u32>)
    requires
        a.len() == b.len() == c.len(),
    ensures
        merged(a, b) == merged(b, a),
        merged(merged(a, b), c) == merged(a, merged(b, c)),
{
    assert(merged(a, b) =~= merged(b, a));
    assert(merged(merged(a, b), c) =~= merged(a, merged(b, c)));
}

proof fn lemma_suffix_bound(s: Seq<u32>, i: int)
    requires
        0 <= i <= s.len(),
    ensures
        0 <= suffix_sum(s, i) <= (s.len() - i) * 0xFFFF_FFFF,
    decreases s.len() - i,
{
    if i < s.len() {
        lemma_suffix_bound(s, i + 1);
    }
}

impl LoudnessHistogram {
    pub open spec fn wf(&self) -> bool {
        self.data@.len() == HISTOGRAM_SIZE
    }

    /// An empty histogram.
    pub fn new() -> (r: LoudnessHistogram)
        ensures
            r.wf(),
            forall|i: int| 0 <= i < HISTOGRAM_SIZE ==> #[trigger] r.data@[i] == 0,
    {
        LoudnessHistogram { data: vec![0u32; HISTOGRAM_SIZE] }
    }

    /// Adds the counts of `other`, bucket by bucket (saturating).
    pub fn accumulate(&mut self, other: &LoudnessHistogram)
        requires
            old(self).wf(),
            other.wf(),
        ensures
            final(self).wf(),
            final(self).data@ == merged(old(self).data@, other.data@),
    {
        let ghost start = self.data@;
        let mut i: usize = 0;
        while i < HISTOGRAM_SIZE
            invariant
                i <= HISTOGRAM_SIZE,
                self.data@.len() == HISTOGRAM_SIZE,
                other.wf(),
                start.len() == HISTOGRAM_SIZE,
                forall|j: int| 0 <= j < i ==> #[trigger] self.data@[j] == sat_add(start[j], other.data@[j]),
                forall|j: int| i <= j < HISTOGRAM_SIZE ==> #[trigger] self.data@[j] == start[j],
            decreases HISTOGRAM_SIZE - i,
        {
            let v = self.data[i].saturating_add(other.data[i]);
            self.data.set(i, v);
            i = i + 1;
        }
        assert(self.data@ =~= merged(start, other.data@));
    }

    /// Counts one window of loudness `centi_db` (hundredths of a dB).
    pub fn add_window(&mut self, centi_db: i64)
        requires
            old(self).wf(),
        ensures
            final(self).wf(),
            final(self).data@ == old(self).data@.update(
                bucket_of(centi_db as int),
                sat_add(old(self).data@[bucket_of(centi_db as int)], 1),
            ),
    {
        let idx: usize = if centi_db < -7000 {
            0
        } else if centi_db > 4999 {
            11999
        } else {
            (centi_db + 7000) as usize
        };
        let v = self.data[idx].saturating_add(1);
        self.data.set(idx, v);
    }

    /// The loudness in hundredths of a dB (see `loudness_of`).
    pub fn loudness_centi_db(&self) -> (r: i64)
        requires
            self.wf(),
        ensures
            r == loudness_of(self.data@),
    {
        let ghost s = self.data@;
        let mut total: u64 = 0;
        let mut k: usize = HISTOGRAM_SIZE;
        while k > 0
            invariant
                k <= HISTOGRAM_SIZE,
                s == self.data@,
                s.len() == HISTOGRAM_SIZE,
                total == suffix_sum(s, k as int),
            decreases k,
        {
            proof {
                lemma_suffix_bound(s, k as int);
            }
            k = k - 1;
            total = total + self.data[k] as u64;
        }
        proof {
            lemma_suffix_bound(s, 0);
        }
        if total == 0 {
            return -7000;
        }
        let threshold: u64 = (total + 19) / 20;
        let mut count: u64 = 0;
        let mut i: usize = HISTOGRAM_SIZE;
        while i > 0
            invariant
                i <= HISTOGRAM_SIZE,
                s == self.data@,
                s.len() == HISTOGRAM_SIZE,
                total == suffix_sum(s, 0),
                threshold == (total + 19) / 20,
                count == suffix_sum(s, i as int),
                count < threshold,
                reach_from(s, threshold as int, i - 1) == reach_from(s, threshold as int, s.len() - 1),
            decreases i,
        {
            proof {
                lemma_suffix_bound(s, i as int);
            }
            i = i - 1;
            count = count + self.data[i] as u64;
            if count >= threshold {
                return i as i64 - 7000;
            }
        }
        assert(reach_from(s, threshold as int, -1) == -1);
        -7000
    }
}

/// The track gain in hundredths of a dB: the reference minus the loudness.
pub fn gain_centi_db(loudness_centi_db: i64) -> (r: i64)
    requires
        -1_000_000_000 <= loudness_centi_db <= 1_000_000_000,
    ensures
        r == PINK_REF_CENTI_DB - loudness_centi_db,
{
    PINK_REF_CENTI_DB - loudness_centi_db
}

} // verus!

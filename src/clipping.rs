//! What to do when a requested gain exceeds a file's headroom. The caller
//! picks the policy; this only works out its effect.

use vstd::prelude::*;

verus! {

/// How a gain beyond the headroom is handled.
#[derive(Debug, Clone, Copy, PartialEq, Eq, Structural)]
pub enum ClipPolicy {
    /// Apply it, with a warning.
    Warn,
    /// Reduce it to the headroom.
    Prevent,
    /// Apply it silently.
    Ignore,
}

/// What came of the check.
#[derive(Debug, Clone, Copy, PartialEq, Eq, Structural)]
pub enum ClipAdvice {
    /// Nothing to report.
    Clear,
    /// The gain was reduced to the headroom.
    Reduced,
    /// The gain goes beyond the headroom.
    Warning,
}

/// The steps to apply and what to report.
#[derive(Debug, Clone, Copy, PartialEq, Eq, Structural)]
pub struct GainPlan {
    pub steps: i32,
    pub advice: ClipAdvice,
}

/// A positive saturating change beyond the headroom would clip.
pub open spec fn clips(steps: i32, headroom_steps: i32, wrap: bool) -> bool {
    steps > 0 && !wrap && steps > headroom_steps
}

/// Works out the steps to apply for a request of `steps` on a file with
/// `headroom_steps` of headroom: unchanged unless the change would clip, and
/// then reduced, warned about, or left alone as `policy` says.
pub fn plan_gain(steps: i32, headroom_steps: i32, wrap: bool, policy: ClipPolicy) -> (r: GainPlan)
    ensures
        !clips(steps, headroom_steps, wrap) ==> r == (GainPlan { steps, advice: ClipAdvice::Clear }),
        clips(steps, headroom_steps, wrap) && policy == ClipPolicy::Prevent ==> r == (GainPlan {
            steps: headroom_steps,
            advice: ClipAdvice::Reduced,
        }),
        clips(steps, headroom_steps, wrap) && policy == ClipPolicy::Warn ==> r == (GainPlan {
            steps,
            advice: ClipAdvice::Warning,
        }),
        clips(steps, headroom_steps, wrap) && policy == ClipPolicy::Ignore ==> r == (GainPlan {
            steps,
            advice: ClipAdvice::Clear,
        }),
{
    if steps > 0 && !wrap && steps > headroom_steps {
        match policy {
            ClipPolicy::Prevent => GainPlan { steps: headroom_steps, advice: ClipAdvice::Reduced },
            ClipPolicy::Warn => GainPlan { steps, advice: ClipAdvice::Warning },
            ClipPolicy::Ignore => GainPlan { steps, advice: ClipAdvice::Clear },
        }
    } else {
        GainPlan { steps, advice: ClipAdvice::Clear }
    }
}

} // verus!

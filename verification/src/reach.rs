use vstd::prelude::*;
use vstd::arithmetic::power2::{pow2, lemma2_to64, lemma_pow2_unfold, lemma_pow2_strictly_increases};

use crate::text::same_text;

verus! {

/// How a run towards full knowledge of a multiplexer ended.
#[derive(Clone, Copy, PartialEq, Eq, Debug, Structural)]
pub enum Verdict {
    Success,
    TrialsLimited,
    MemoryLimited,
    TimeLimited,
}

/// The name a verdict is reported and saved under.
pub open spec fn verdict_name(verdict: Verdict) -> Seq<char> {
    match verdict {
        Verdict::Success => "SUCCESS"@,
        Verdict::TrialsLimited => "TRIALS-LIMITED"@,
        Verdict::MemoryLimited => "MEMORY-LIMITED"@,
        Verdict::TimeLimited => "TIME-LIMITED"@,
    }
}

impl Verdict {
    pub fn label(self) -> (result: &'static str)
        ensures
            result@ == verdict_name(self),
    {
        match self {
            Verdict::Success => "SUCCESS",
            Verdict::TrialsLimited => "TRIALS-LIMITED",
            Verdict::MemoryLimited => "MEMORY-LIMITED",
            Verdict::TimeLimited => "TIME-LIMITED",
        }
    }

    /// The verdict a saved name stands for; the name must be one of the
    /// four.
    pub fn from_label(label: &str) -> (result: Verdict)
        requires
            exists|verdict: Verdict| #[trigger] verdict_name(verdict) == label@,
        ensures
            verdict_name(result) == label@,
    {
        if same_text(label, "SUCCESS") {
            Verdict::Success
        } else if same_text(label, "TRIALS-LIMITED") {
            Verdict::TrialsLimited
        } else if same_text(label, "MEMORY-LIMITED") {
            Verdict::MemoryLimited
        } else {
            proof {
                let verdict = choose|verdict: Verdict| #[trigger] verdict_name(verdict) == label@;
                assert(verdict == Verdict::TimeLimited);
            }
            Verdict::TimeLimited
        }
    }
}

/// Different verdicts have different names, so a saved verdict reads
/// back as itself.
pub proof fn lemma_verdict_name_injective(a: Verdict, b: Verdict)
    ensures
        verdict_name(a) == verdict_name(b) ==> a == b,
{
    reveal_strlit("SUCCESS");
    reveal_strlit("TRIALS-LIMITED");
    reveal_strlit("MEMORY-LIMITED");
    reveal_strlit("TIME-LIMITED");
    if verdict_name(a) == verdict_name(b) && a != b {
        assert(verdict_name(a).len() == verdict_name(b).len());
        assert("TRIALS-LIMITED"@[0] != "MEMORY-LIMITED"@[0]);
    }
}

/// The trial budget of a run on the multiplexer with `size` input bits:
/// ten times an estimate that starts at 20 000 trials for six bits and
/// doubles with every further bit, clamped to the largest `u64`.
pub open spec fn trials_cap_spec(size: nat) -> int {
    let budget: int = 200_000 * (pow2((size - 6) as nat) as int);
    if budget > u64::MAX {
        u64::MAX as int
    } else {
        budget
    }
}

/// The trial budget of a run on the multiplexer with `size` input bits
/// (see `trials_cap_spec`).
pub fn trials_cap_for(size: usize) -> (result: u64)
    requires
        size >= 6,
    ensures
        result == trials_cap_spec(size as nat),
{
    let extra: usize = size - 6;
    let mut budget: u64 = 200_000;
    let mut doublings: usize = 0;
    proof {
        lemma2_to64();
    }
    while doublings < extra
        invariant
            doublings <= extra,
            extra == size - 6,
            budget == 200_000 * pow2(doublings as nat),
        decreases extra - doublings,
    {
        let next_pow: Ghost<nat> = Ghost((doublings + 1) as nat);
        proof {
            lemma_pow2_unfold(next_pow@);
        }
        if budget > u64::MAX / 2 {
            proof {
                if next_pow@ < extra {
                    lemma_pow2_strictly_increases(next_pow@, extra as nat);
                }
                let full = pow2(extra as nat);
                let part = pow2(next_pow@);
                assert(200_000 * full >= 200_000 * part) by (nonlinear_arith)
                    requires
                        full >= part,
                ;
            }
            return u64::MAX;
        }
        budget = budget * 2;
        doublings = doublings + 1;
    }
    budget
}

/// The first multiple of `step` after `trials_used`, saturating at the
/// largest `u64`.
pub fn next_accuracy_trial(trials_used: u64, step: u64) -> (result: u64)
    requires
        step > 0,
    ensures
        ({
            let next = (trials_used / step + 1) * step;
            result == if next > u64::MAX {
                u64::MAX as int
            } else {
                next
            }
        }),
{
    let quotient = trials_used / step;
    let bumped: u64 = if quotient == u64::MAX {
        u64::MAX
    } else {
        quotient + 1
    };
    proof {
        assert(quotient * step <= trials_used) by (nonlinear_arith)
            requires
                quotient == trials_used / step,
                step > 0,
        ;
    }
    if quotient == u64::MAX {
        proof {
            assert(step == 1) by (nonlinear_arith)
                requires
                    quotient == trials_used / step,
                    quotient == u64::MAX,
                    trials_used <= u64::MAX,
                    step > 0,
            ;
        }
        return u64::MAX;
    }
    if bumped > u64::MAX / step {
        proof {
            assert(bumped * step > u64::MAX) by (nonlinear_arith)
                requires
                    bumped > u64::MAX / step,
                    step > 0,
            ;
        }
        u64::MAX
    } else {
        proof {
            assert(bumped * step <= u64::MAX) by (nonlinear_arith)
                requires
                    bumped <= u64::MAX / step,
                    step > 0,
            ;
        }
        bumped * step
    }
}

} // verus!

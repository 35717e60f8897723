//! Reaching an arbitrary magnification with a fixed-factor model.
//!
//! Super-resolution models bake their factor into the weights: a 4x model only
//! ever produces 4x. Offering a free choice of magnification therefore means
//! running the model enough times to *overshoot* the request, then resampling
//! down to the exact size.
//!
//! Overshooting and shrinking beats undershooting and stretching. Reaching 7x
//! by running a 4x model twice to 16x and shrinking keeps detail the model
//! synthesised; running it once to 4x and stretching to 7x just blurs.

use vstd::arithmetic::power::*;
use vstd::prelude::*;
use vstd::string::*;

use crate::text;

verus! {

/// Guards against a pathological model reporting a tiny factor and provoking a
/// very long chain. Four passes of a 2x model already reach 16x.
pub const MAX_PASSES: u32 = 6;

/// Why a magnification cannot be planned.
#[derive(Debug, Clone, Copy, PartialEq, Eq, Structural)]
pub enum ScaleError {
    /// The target magnification is zero.
    ZeroTarget,
    /// The model's factor is zero.
    ZeroNative,
    /// The model does not get to the target within the allowed passes.
    OutOfReach { target: u32, native: u32 },
}

impl ScaleError {
    /// What is said of the error.
    pub open spec fn wording(self) -> Seq<char> {
        match self {
            ScaleError::ZeroTarget => "target scale must be at least 1"@,
            ScaleError::ZeroNative => "model scale factor must be at least 1"@,
            ScaleError::OutOfReach { target, native } => "cannot reach "@ + text::decimal(
                target as nat,
            ) + "x with a "@ + text::decimal(native as nat) + "x model in "@ + text::decimal(
                MAX_PASSES as nat,
            ) + " passes"@,
        }
    }

    /// What is said of the error.
    pub fn message(&self) -> (s: String)
        ensures
            s@ == self.wording(),
    {
        let mut s = String::new();
        match *self {
            ScaleError::ZeroTarget => {
                s.append("target scale must be at least 1");
            },
            ScaleError::ZeroNative => {
                s.append("model scale factor must be at least 1");
            },
            ScaleError::OutOfReach { target, native } => {
                s.append("cannot reach ");
                s.append(text::decimal_text(target).as_str());
                s.append("x with a ");
                s.append(text::decimal_text(native).as_str());
                s.append("x model in ");
                s.append(text::decimal_text(MAX_PASSES).as_str());
                s.append(" passes");
            },
        }
        assert(s@ =~= self.wording());
        s
    }
}

/// How to reach `target` using a model with a fixed `native` factor.
#[derive(Debug, Clone, Copy, PartialEq, Eq, Structural)]
pub struct ScaleStrategy {
    /// Requested final magnification.
    pub target: u32,
    /// The model's own factor.
    pub native: u32,
    /// How many times to run the model.
    pub passes: u32,
    /// Magnification after the last pass, before the final resample.
    pub intermediate: u32,
}

/// Whether every magnification that planning has to look at can be held.
pub open spec fn plan_holds(target: u32, native: u32) -> bool {
    forall|k: nat|
        1 <= k < MAX_PASSES && #[trigger] pow(native as int, k) < target ==> pow(
            native as int,
            k + 1,
        ) <= u32::MAX
}

/// Whether the model gets to the target within the allowed passes.
pub open spec fn reachable(target: u32, native: u32) -> bool {
    native == 1 || pow(native as int, MAX_PASSES as nat) >= target
}

impl ScaleStrategy {
    /// Whether this is how to reach its target: with the fewest passes of the
    /// model whose combined factor is at least the target. A 1x model never
    /// grows, so it is run once whatever the target.
    pub open spec fn is_plan(self) -> bool {
        &&& self.target >= 1
        &&& self.native >= 1
        &&& 1 <= self.passes <= MAX_PASSES
        &&& self.intermediate == pow(self.native as int, self.passes as nat)
        &&& self.native == 1 ==> self.passes == 1
        &&& self.native > 1 ==> self.intermediate >= self.target
        &&& self.native > 1 && self.passes > 1 ==> pow(
            self.native as int,
            (self.passes - 1) as nat,
        ) < self.target
    }

    /// Plan the passes needed to reach `target`.
    ///
    /// `target` of 1 still runs the model once and shrinks back. That is not a
    /// no-op: it is how these models remove compression artifacts and scanning
    /// noise without changing the image's size.
    pub fn plan(target: u32, native: u32) -> (r: Result<Self, ScaleError>)
        requires
            plan_holds(target, native),
        ensures
            target == 0 ==> r == Err::<Self, ScaleError>(ScaleError::ZeroTarget),
            target > 0 && native == 0 ==> r == Err::<Self, ScaleError>(ScaleError::ZeroNative),
            target > 0 && native > 0 && !reachable(target, native) ==> r == Err::<
                Self,
                ScaleError,
            >(ScaleError::OutOfReach { target, native }),
            target > 0 && native > 0 && reachable(target, native) ==> {
                &&& r matches Ok(s)
                &&& s.target == target
                &&& s.native == native
                &&& s.is_plan()
            },
            // Enough passes to reach the target, and none too many.
            r matches Ok(s) ==> {
                &&& 1 <= s.passes <= 6
                &&& s.intermediate == pow(native as int, s.passes as nat)
                &&& native > 1 ==> s.intermediate >= target
                &&& native > 1 && s.passes > 1 ==> pow(native as int, (s.passes - 1) as nat) < target
                &&& native == 1 ==> s.passes == 1
            },
            r is Err && target > 0 && native > 0 ==> native > 1 && pow(native as int, 6) < target,
    {
        if target < 1 {
            return Err(ScaleError::ZeroTarget);
        }
        if native < 1 {
            return Err(ScaleError::ZeroNative);
        }
        proof {
            lemma_pow1(native as int);
        }
        // A 1x model never grows, so one pass is all that can be asked of it;
        // any enlargement then falls to the resampler.
        if native == 1 {
            return Ok(ScaleStrategy { target, native, passes: 1, intermediate: 1 });
        }
        let mut passes: u32 = 1;
        let mut intermediate: u32 = native;
        while intermediate < target && passes < MAX_PASSES
            invariant
                native >= 2,
                target >= 1,
                plan_holds(target, native),
                1 <= passes <= MAX_PASSES,
                intermediate == pow(native as int, passes as nat),
                passes > 1 ==> pow(native as int, (passes - 1) as nat) < target,
            decreases MAX_PASSES - passes,
        {
            proof {
                lemma_pow_next(native as int, passes as nat);
            }
            intermediate = intermediate * native;
            passes = passes + 1;
        }
        if intermediate < target {
            return Err(ScaleError::OutOfReach { target, native });
        }
        proof {
            lemma_pow_grows(native as int, passes as nat, MAX_PASSES as nat);
        }
        Ok(ScaleStrategy { target, native, passes, intermediate })
    }

    /// Whether planning stays within numbers that can be held.
    pub fn can_plan(target: u32, native: u32) -> (r: bool)
        ensures
            r == plan_holds(target, native),
    {
        if native < 2 {
            proof {
                assert forall|k: nat| 1 <= k < MAX_PASSES && #[trigger] pow(native as int, k)
                    < target implies pow(native as int, k + 1) <= u32::MAX by {
                    lemma_small_powers(native as int, k + 1);
                }
            }
            return true;
        }
        proof {
            lemma_pow1(native as int);
        }
        let mut passes: u32 = 1;
        let mut reached: u32 = native;
        while reached < target && passes < MAX_PASSES
            invariant
                native >= 2,
                1 <= passes <= MAX_PASSES,
                reached == pow(native as int, passes as nat),
                forall|k: nat|
                    1 <= k < passes && #[trigger] pow(native as int, k) < target ==> pow(
                        native as int,
                        k + 1,
                    ) <= u32::MAX,
            decreases MAX_PASSES - passes,
        {
            proof {
                lemma_pow_next(native as int, passes as nat);
                assert(reached as u64 * native as u64 <= u64::MAX) by (nonlinear_arith)
                    requires
                        reached <= u32::MAX,
                        native <= u32::MAX,
                ;
                assert(reached as u64 * native as u64 == native * reached) by (nonlinear_arith);
            }
            let next: u64 = reached as u64 * native as u64;
            if next > u32::MAX as u64 {
                assert(pow(native as int, passes as nat) < target);
                return false;
            }
            reached = next as u32;
            passes = passes + 1;
        }
        proof {
            assert forall|k: nat| 1 <= k < MAX_PASSES && #[trigger] pow(native as int, k)
                < target implies pow(native as int, k + 1) <= u32::MAX by {
                if k >= passes {
                    lemma_pow_grows(native as int, passes as nat, k);
                }
            }
        }
        true
    }

    /// Whether a resampling step is needed after the final model pass.
    pub fn needs_resample(&self) -> (r: bool)
        ensures
            r == (self.intermediate != self.target),
    {
        self.intermediate != self.target
    }

    /// What [`ScaleStrategy::describe`] says.
    pub open spec fn description(self) -> Seq<char> {
        let native = text::decimal(self.native as nat);
        let target = text::decimal(self.target as nat);
        let intermediate = text::decimal(self.intermediate as nat);
        let passes = text::decimal(self.passes as nat);
        let resampled = self.intermediate != self.target;
        if self.passes == 1 && !resampled {
            "1 model pass at "@ + native + "x"@
        } else if self.passes == 1 {
            "1 model pass at "@ + native + "x, then resample to "@ + target + "x"@
        } else if !resampled {
            passes + " model passes at "@ + native + "x"@
        } else {
            passes + " model passes to "@ + intermediate + "x, then resample to "@ + target + "x"@
        }
    }

    /// Human-readable summary for the command line and the interface.
    pub fn describe(&self) -> (s: String)
        ensures
            s@ == self.description(),
    {
        let native = text::decimal_text(self.native);
        let target = text::decimal_text(self.target);
        let mut s = String::new();
        if self.passes == 1 {
            s.append("1 model pass at ");
            s.append(native.as_str());
            if self.needs_resample() {
                s.append("x, then resample to ");
                s.append(target.as_str());
            }
            s.append("x");
        } else {
            let passes = text::decimal_text(self.passes);
            s.append(passes.as_str());
            if self.needs_resample() {
                let intermediate = text::decimal_text(self.intermediate);
                s.append(" model passes to ");
                s.append(intermediate.as_str());
                s.append("x, then resample to ");
                s.append(target.as_str());
            } else {
                s.append(" model passes at ");
                s.append(native.as_str());
            }
            s.append("x");
        }
        assert(s@ =~= self.description());
        s
    }
}

/// One more factor.
pub proof fn lemma_pow_next(b: int, k: nat)
    ensures
        pow(b, k + 1) == b * pow(b, k),
        pow(b, k + 1) == pow(b, k) * b,
{
    reveal(pow);
    assert(b * pow(b, k) == pow(b, k) * b) by (nonlinear_arith);
}

/// Powers of a positive number do not shrink with the exponent.
pub proof fn lemma_pow_grows(b: int, i: nat, j: nat)
    requires
        b >= 1,
        i <= j,
    ensures
        1 <= pow(b, i) <= pow(b, j),
    decreases j,
{
    if j == 0 {
        lemma_pow0(b);
    } else {
        let k: nat = (j - 1) as nat;
        lemma_pow_next(b, k);
        if i < j {
            lemma_pow_grows(b, i, k);
        } else {
            lemma_pow_grows(b, k, k);
        }
        assert(b * pow(b, k) >= pow(b, k)) by (nonlinear_arith)
            requires
                b >= 1,
                pow(b, k) >= 1,
        ;
    }
}

/// Powers of 0 and 1 with a positive exponent.
proof fn lemma_small_powers(b: int, k: nat)
    requires
        b == 0 || b == 1,
        k >= 1,
    ensures
        pow(b, k) == b,
    decreases k,
{
    lemma_pow1(b);
    if k > 1 {
        lemma_small_powers(b, (k - 1) as nat);
        lemma_pow_next(b, (k - 1) as nat);
        assert(b * b == b) by (nonlinear_arith)
            requires
                b == 0 || b == 1,
        ;
    }
}

/// No fewer passes would do: any number of passes whose combined factor clears the
/// target is at least the planned one.
pub proof fn law_fewest_passes(s: ScaleStrategy, k: nat)
    requires
        s.is_plan(),
        s.native > 1,
        k >= 1,
        pow(s.native as int, k) >= s.target,
    ensures
        s.passes <= k,
{
    if k < s.passes {
        lemma_pow_grows(s.native as int, k, (s.passes - 1) as nat);
    }
}

/// A plan is determined by its target and the model's factor.
pub proof fn law_plan_is_unique(a: ScaleStrategy, b: ScaleStrategy)
    requires
        a.is_plan(),
        b.is_plan(),
        a.target == b.target,
        a.native == b.native,
    ensures
        a == b,
{
    if a.native > 1 {
        law_fewest_passes(a, b.passes as nat);
        law_fewest_passes(b, a.passes as nat);
    }
}

/// Every stop of the slider, and every target up to 64, is within reach of any
/// model that enlarges, and planning for it stays within numbers that can be held.
pub proof fn law_slider_stops_are_reachable(target: u32, native: u32)
    requires
        1 <= target <= 64,
        native >= 2,
    ensures
        reachable(target, native),
        plan_holds(target, native),
{
    let n: int = native as int;
    lemma_pow_base_grows(2, n, MAX_PASSES as nat);
    assert(pow(2, 6) == 64) by {
        reveal_with_fuel(pow, 7);
    }
    assert forall|k: nat| 1 <= k < MAX_PASSES && #[trigger] pow(n, k) < target implies pow(n, k + 1)
        <= u32::MAX by {
        lemma_pow1(n);
        lemma_pow_grows(n, 1, k);
        lemma_pow_next(n, k);
        assert(n * pow(n, k) <= 64 * 64) by (nonlinear_arith)
            requires
                0 <= n <= pow(n, k) < 64,
        ;
    }
}

/// Powers do not shrink with the base.
proof fn lemma_pow_base_grows(a: int, b: int, k: nat)
    requires
        0 <= a <= b,
    ensures
        0 <= pow(a, k) <= pow(b, k),
    decreases k,
{
    if k == 0 {
        lemma_pow0(a);
        lemma_pow0(b);
    } else {
        let j: nat = (k - 1) as nat;
        lemma_pow_base_grows(a, b, j);
        lemma_pow_next(a, j);
        lemma_pow_next(b, j);
        assert(0 <= a * pow(a, j) <= b * pow(b, j)) by (nonlinear_arith)
            requires
                0 <= a <= b,
                0 <= pow(a, j) <= pow(b, j),
        ;
    }
}

/// An enlarging model needs no resampling exactly when the target is a whole
/// number of its passes.
pub proof fn law_exact_powers_need_no_resample(s: ScaleStrategy)
    requires
        s.is_plan(),
        s.native > 1,
    ensures
        s.intermediate == s.target <==> exists|k: nat|
            k >= 1 && #[trigger] pow(s.native as int, k) == s.target,
{
    if exists|k: nat| k >= 1 && #[trigger] pow(s.native as int, k) == s.target {
        let k = choose|k: nat| k >= 1 && #[trigger] pow(s.native as int, k) == s.target;
        law_fewest_passes(s, k);
        lemma_pow_grows(s.native as int, s.passes as nat, k);
    }
}

/// Asking for the original size still costs exactly one pass of the model.
pub proof fn law_unit_target_runs_the_model(s: ScaleStrategy)
    requires
        s.is_plan(),
        s.target == 1,
    ensures
        s.passes == 1,
        s.intermediate == s.native,
{
    lemma_pow1(s.native as int);
    if s.native > 1 {
        law_fewest_passes(s, 1);
    }
}

/// What it takes to be a plan: at least one pass and at most six, whose combined factor
/// is what the last pass reaches; enough of them to reach the target, where the model
/// enlarges at all, and not one more than that takes.
pub proof fn law_plans_reach_the_target(s: ScaleStrategy)
    requires
        s.target >= 1,
        s.native >= 1,
    ensures
        s.is_plan() <==> {
            &&& 1 <= s.passes <= 6
            &&& s.intermediate == pow(s.native as int, s.passes as nat)
            &&& s.native == 1 ==> s.passes == 1
            &&& s.native > 1 ==> s.intermediate >= s.target
            &&& s.native > 1 && s.passes > 1 ==> pow(s.native as int, (s.passes - 1) as nat)
                < s.target
        },
        reachable(s.target, s.native) <==> s.native == 1 || pow(s.native as int, 6) >= s.target,
{
}

/// Every plan that can be made is within reach and can be looked for.
pub proof fn law_plans_are_found(target: u32, native: u32, passes: nat)
    requires
        target >= 1,
        native >= 1,
        1 <= passes <= 6,
        native == 1 ==> passes == 1,
        native > 1 ==> pow(native as int, passes) >= target,
        pow(native as int, passes) <= u32::MAX,
    ensures
        reachable(target, native),
        plan_holds(target, native),
{
    let n: int = native as int;
    lemma_pow_grows(n, passes, 6);
    assert forall|k: nat| 1 <= k < MAX_PASSES && #[trigger] pow(n, k) < target implies pow(n, k + 1)
        <= u32::MAX by {
        if native == 1 {
            lemma_small_powers(1, k + 1);
        } else {
            if k >= passes {
                lemma_pow_grows(n, passes, k);
            }
            lemma_pow_grows(n, k + 1, passes);
        }
    }
}

/// What is said of a plan tells how often the model is run, what that reaches, and
/// whether the result is resampled, and to what.
pub proof fn law_plans_are_described(s: ScaleStrategy)
    ensures
        s.passes == 1 && s.intermediate == s.target ==> s.description() == "1 model pass at "@
            + text::decimal(s.native as nat) + "x"@,
        s.passes == 1 && s.intermediate != s.target ==> s.description() == "1 model pass at "@
            + text::decimal(s.native as nat) + "x, then resample to "@ + text::decimal(
            s.target as nat,
        ) + "x"@,
        s.passes != 1 && s.intermediate == s.target ==> s.description() == text::decimal(
            s.passes as nat,
        ) + " model passes at "@ + text::decimal(s.native as nat) + "x"@,
        s.passes != 1 && s.intermediate != s.target ==> s.description() == text::decimal(
            s.passes as nat,
        ) + " model passes to "@ + text::decimal(s.intermediate as nat) + "x, then resample to "@
            + text::decimal(s.target as nat) + "x"@,
{
}

/// What is said of a magnification that cannot be planned.
pub proof fn law_unplanned_scales_are_told_why(target: u32, native: u32)
    ensures
        ScaleError::ZeroTarget.wording() == "target scale must be at least 1"@,
        ScaleError::ZeroNative.wording() == "model scale factor must be at least 1"@,
        (ScaleError::OutOfReach { target, native }).wording() == "cannot reach "@ + text::decimal(
            target as nat,
        ) + "x with a "@ + text::decimal(native as nat) + "x model in "@ + text::decimal(6)
            + " passes"@,
{
}

} // verus!

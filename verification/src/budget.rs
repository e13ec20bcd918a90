//! Token estimates and the split of the context window.
use vstd::prelude::*;
use vstd::string::StringSliceAdditionalSpecFns;

verus! {

/// Number of tokens that a text of `len` bytes is estimated to take: a quarter of its bytes,
/// rounded up.
pub open spec fn estimated_tokens(len: nat) -> nat {
    ((len + 3) / 4) as nat
}

/// Estimated tokens of a text, `(len + 3) / 4`.
pub fn estimate_tokens(text: &[u8]) -> (n: usize)
    ensures
        n == estimated_tokens(text@.len()),
        n <= usize::MAX / 4 + 1,
{
    let len = text.len();
    let q = len / 4;
    if len % 4 == 0 {
        q
    } else {
        q + 1
    }
}


/// Tokens kept free of the context window beyond the reply's reserve.
pub const SAFETY_MARGIN: usize = 500;

/// The tokens given to the active file, and to each knowledge document, where the context
/// carries no budget settings.
pub const DEFAULT_CONTEXT_BUDGET: usize = 4096;

/// `usize::saturating_sub`.
pub open spec fn sat_sub(a: nat, b: nat) -> nat {
    if a >= b { (a - b) as nat } else { 0 }
}

/// The tokens left to share between context and history: the window less the reply's
/// reserve and the safety margin.
pub open spec fn allocation_budget(context_window: nat, output_reserve: nat) -> nat {
    sat_sub(sat_sub(context_window, output_reserve), SAFETY_MARGIN as nat)
}

/// Computes `allocation_budget`.
pub fn allocation_budget_of(context_window: usize, output_reserve: usize) -> (r: usize)
    ensures
        r == allocation_budget(context_window as nat, output_reserve as nat),
{
    context_window.saturating_sub(output_reserve).saturating_sub(SAFETY_MARGIN)
}

/// The `contextSettings` of the context: its `strategy`, where it is a string.
pub struct ContextSettings {
    pub strategy: Option<Vec<u8>>,
}

/// How the allocation budget is shared out to the active file and the knowledge base.
#[derive(PartialEq, Eq, Structural, Clone, Copy, Debug)]
pub enum BudgetStrategy {
    /// No settings: `DEFAULT_CONTEXT_BUDGET` each.
    Fixed,
    /// `"custom"`: a share set by the user, split in halves.
    Custom,
    /// `"prefer_codebase"`: 40% each.
    PreferCodebase,
    /// `"prefer_history"`: 15% each.
    PreferHistory,
    /// `"auto"` and anything else: 30% each.
    Auto,
}

/// The strategy that the settings name; a missing strategy is `"auto"`.
pub open spec fn strategy_of(settings: Option<ContextSettings>) -> BudgetStrategy {
    match settings {
        None => BudgetStrategy::Fixed,
        Some(s) => {
            let name = match s.strategy {
                Some(n) => n@,
                None => "auto".spec_bytes(),
            };
            if name == "custom".spec_bytes() {
                BudgetStrategy::Custom
            } else if name == "prefer_codebase".spec_bytes() {
                BudgetStrategy::PreferCodebase
            } else if name == "prefer_history".spec_bytes() {
                BudgetStrategy::PreferHistory
            } else {
                BudgetStrategy::Auto
            }
        },
    }
}

/// The strategy of the settings.
pub fn budget_strategy(settings: &Option<ContextSettings>) -> (r: BudgetStrategy)
    ensures
        r == strategy_of(*settings),
{
    match settings {
        None => BudgetStrategy::Fixed,
        Some(s) => {
            let name = match &s.strategy {
                Some(n) => {
                    assert(n@.subrange(0, n@.len() as int) =~= n@);
                    crate::text::slice_copy(n.as_slice(), 0, n.len())
                },
                None => crate::text::lit("auto"),
            };
            let custom = crate::text::lit("custom");
            let codebase = crate::text::lit("prefer_codebase");
            let history = crate::text::lit("prefer_history");
            if crate::text::bytes_eq(name.as_slice(), custom.as_slice()) {
                BudgetStrategy::Custom
            } else if crate::text::bytes_eq(name.as_slice(), codebase.as_slice()) {
                BudgetStrategy::PreferCodebase
            } else if crate::text::bytes_eq(name.as_slice(), history.as_slice()) {
                BudgetStrategy::PreferHistory
            } else {
                BudgetStrategy::Auto
            }
        },
    }
}

} // verus!

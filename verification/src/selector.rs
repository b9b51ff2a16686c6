//! The selector model: compound selectors joined by combinators, with the
//! state and positional pseudo-classes the engine understands.

use vstd::prelude::*;

verus! {

/// State pseudo-classes, read from per-entity flag storage (and, for
/// enabled/disabled, from the resolved `disabled` property).
#[derive(Clone, Copy, PartialEq, Eq, Structural, Debug)]
pub enum StatePseudo {
    Hover,
    Over,
    Active,
    Focus,
    FocusVisible,
    FocusWithin,
    Enabled,
    Disabled,
    ReadOnly,
    ReadWrite,
    PlaceholderShown,
    Neutral,
    Checked,
    Indeterminate,
    Blank,
    Valid,
    Invalid,
    InRange,
    OutOfRange,
    Required,
    Optional,
    UserValid,
    UserInvalid,
}

/// One pseudo-class of a compound selector.
///
/// `Lang`, `Dir` and `Custom` name selector features this engine does not
/// implement: a rule set holding one is rejected outright when it is applied,
/// so that unsupported stylesheet authoring surfaces early instead of
/// matching wrongly in silence.
#[derive(Clone, Debug)]
pub enum PseudoSelector {
    /// Matches only the tree root.
    Root,
    /// Position 1 among layout siblings.
    FirstChild,
    /// Last position among layout siblings.
    LastChild,
    /// The sole layout child.
    OnlyChild,
    /// `an + b` over 1-based positions from the start.
    NthChild(i64, i64),
    /// `an + b` over 1-based positions from the end.
    NthLastChild(i64, i64),
    /// A state pseudo-class.
    State(StatePseudo),
    /// `:lang(..)` -- not implemented.
    Lang(String),
    /// `:dir(..)` -- not implemented.
    Dir(String),
    /// A custom pseudo-class -- not implemented.
    Custom(String),
}

impl PseudoSelector {
    /// Does the engine implement this pseudo-class?
    pub open spec fn spec_supported(self) -> bool {
        !(self is Lang || self is Dir || self is Custom)
    }

    /// Does this pseudo-class depend on the entity's position among its
    /// layout siblings?
    pub open spec fn spec_positional(self) -> bool {
        self is FirstChild || self is LastChild || self is OnlyChild || self is NthChild
            || self is NthLastChild
    }

    /// Does the engine implement this pseudo-class?
    pub fn supported(&self) -> (r: bool)
        ensures
            r == self.spec_supported(),
    {
        match self {
            PseudoSelector::Lang(_) => false,
            PseudoSelector::Dir(_) => false,
            PseudoSelector::Custom(_) => false,
            _ => true,
        }
    }

    /// Does this pseudo-class depend on sibling position?
    pub fn positional(&self) -> (r: bool)
        ensures
            r == self.spec_positional(),
    {
        match self {
            PseudoSelector::FirstChild => true,
            PseudoSelector::LastChild => true,
            PseudoSelector::OnlyChild => true,
            PseudoSelector::NthChild(_, _) => true,
            PseudoSelector::NthLastChild(_, _) => true,
            _ => false,
        }
    }
}

/// Does a 1-based position `n` satisfy `an + b`: is there a `k >= 0` with
/// `n == a * k + b`?  For `a != 0` that holds exactly when `a` divides
/// `n - b` with a non-negative quotient.
pub open spec fn nth_matches(a: int, b: int, n: int) -> bool {
    exists|k: int| k >= 0 && n == #[trigger] (a * k) + b
}

/// Multiplying by a positive factor is monotone.
proof fn lemma_mul_mono(a: int, k1: int, k2: int)
    requires
        a > 0,
        k1 <= k2,
    ensures
        a * k1 <= a * k2,
{
    assert(a * k1 <= a * k2) by (nonlinear_arith)
        requires
            a > 0,
            k1 <= k2,
    ;
}

/// Decide `an + b` membership for a 1-based position.
pub fn nth_position_matches(a: i64, b: i64, n: usize) -> (r: bool)
    ensures
        r == nth_matches(a as int, b as int, n as int),
{
    let n_wide: i128 = n as i128;
    let a_wide: i128 = a as i128;
    let b_wide: i128 = b as i128;
    if a == 0 {
        proof {
            if n_wide == b_wide {
                assert(0 >= 0 && n as int == (a as int) * 0 + b as int);
            }
            if nth_matches(a as int, b as int, n as int) {
                let k = choose|k: int| k >= 0 && n as int == #[trigger] ((a as int) * k) + b as int;
                assert((a as int) * k == 0) by (nonlinear_arith)
                    requires
                        a as int == 0,
                ;
            }
        }
        n_wide == b_wide
    } else if a > 0 {
        // Walk a*k + b upwards from k = 0 until it passes n.
        let mut k: i128 = 0;
        let mut val: i128 = b_wide;
        loop
            invariant
                a > 0,
                0 <= k,
                k <= n_wide - b_wide + 1 || k == 0,
                val == a_wide * k + b_wide,
                n_wide == n as int,
                a_wide == a as int,
                b_wide == b as int,
                forall|k2: int| 0 <= k2 < k ==> #[trigger] ((a as int) * k2) + b as int != n as int,
            ensures
                (val == n_wide) == nth_matches(a as int, b as int, n as int),
            decreases n_wide + a_wide - val,
        {
            if val == n_wide {
                proof {
                    assert(k >= 0 && n as int == (a as int) * k + b as int);
                }
                break ;
            }
            if val > n_wide {
                proof {
                    if nth_matches(a as int, b as int, n as int) {
                        let k2 = choose|k2: int|
                            k2 >= 0 && n as int == #[trigger] ((a as int) * k2) + b as int;
                        if k2 >= k {
                            lemma_mul_mono(a as int, k as int, k2);
                        }
                    }
                }
                proof {
                    assert(val != n_wide);
                }
                break ;
            }
            proof {
                assert(a_wide * (k + 1) == a_wide * k + a_wide) by (nonlinear_arith);
                assert(k + 1 <= n_wide - b_wide + 1) by {
                    assert(val < n_wide);
                    assert(a_wide * k >= k) by (nonlinear_arith)
                        requires
                            a_wide >= 1,
                            k >= 0,
                    ;
                }
            }
            k = k + 1;
            val = val + a_wide;
        }
        val == n_wide
    } else {
        // a < 0: walk a*k + b downwards from k = 0 until it drops below n.
        let mut k: i128 = 0;
        let mut val: i128 = b_wide;
        loop
            invariant
                a < 0,
                0 <= k,
                val <= b_wide,
                k <= b_wide - n_wide || k == 0,
                val == a_wide * k + b_wide,
                n_wide == n as int,
                a_wide == a as int,
                b_wide == b as int,
                forall|k2: int| 0 <= k2 < k ==> #[trigger] ((a as int) * k2) + b as int != n as int,
            ensures
                (val == n_wide) == nth_matches(a as int, b as int, n as int),
            decreases val - n_wide - a_wide,
        {
            if val == n_wide {
                proof {
                    assert(k >= 0 && n as int == (a as int) * k + b as int);
                }
                break ;
            }
            if val < n_wide {
                proof {
                    if nth_matches(a as int, b as int, n as int) {
                        let k2 = choose|k2: int|
                            k2 >= 0 && n as int == #[trigger] ((a as int) * k2) + b as int;
                        if k2 >= k {
                            assert((a as int) * k2 <= (a as int) * k) by (nonlinear_arith)
                                requires
                                    (a as int) < 0,
                                    k <= k2,
                            ;
                        }
                    }
                }
                break ;
            }
            proof {
                assert(a_wide * (k + 1) == a_wide * k + a_wide) by (nonlinear_arith);
                assert(a_wide * k <= -k) by (nonlinear_arith)
                    requires
                        a_wide <= -1,
                        k >= 0,
                ;
            }
            k = k + 1;
            val = val + a_wide;
        }
        val == n_wide
    }
}

/// How one compound selector relates to the next one on its left.
#[derive(Clone, Copy, PartialEq, Eq, Structural, Debug)]
pub enum Combinator {
    /// Any layout ancestor.
    Descendant,
    /// The layout parent.
    Child,
    /// The immediately preceding layout sibling.
    NextSibling,
    /// Any earlier layout sibling.
    LaterSibling,
}

/// One compound selector: an optional element kind, an optional id, class
/// names, and pseudo-classes, all of which must hold at once.
#[derive(Clone, Debug)]
pub struct Compound {
    /// Type selector, if any ("label", "button").
    pub kind: Option<String>,
    /// Id selector, if any (exact, case-sensitive).
    pub id: Option<String>,
    /// Class selectors (set membership).
    pub classes: Vec<String>,
    /// Pseudo-class selectors.
    pub pseudos: Vec<PseudoSelector>,
}

/// A full selector: compound parts from the subject leftwards, joined by
/// combinators, with the precomputed specificity used for cascade ordering.
///
/// `parts[0]` is the subject compound; `combinators[i]` relates `parts[i]`
/// to `parts[i + 1]`, which sits further left in source order.
#[derive(Clone, Debug)]
pub struct Selector {
    /// Compound parts, subject first.
    pub parts: Vec<Compound>,
    /// Combinators between consecutive parts.
    pub combinators: Vec<Combinator>,
    /// Precomputed specificity: the numeric ordering key for tie-breaks.
    pub specificity: u32,
}

impl Compound {
    /// Does the engine implement every pseudo-class of this compound?
    pub open spec fn spec_supported(self) -> bool {
        forall|i: int| 0 <= i < self.pseudos.len() ==> (#[trigger] self.pseudos@[i]).spec_supported()
    }

    /// Is this compound free of positional pseudo-classes?
    pub open spec fn spec_positional_free(self) -> bool {
        forall|i: int|
            0 <= i < self.pseudos.len() ==> !(#[trigger] self.pseudos@[i]).spec_positional()
    }

    /// Does the engine implement every pseudo-class of this compound?
    pub fn supported(&self) -> (r: bool)
        ensures
            r == self.spec_supported(),
    {
        let mut i: usize = 0;
        while i < self.pseudos.len()
            invariant
                i <= self.pseudos.len(),
                forall|j: int| 0 <= j < i ==> (#[trigger] self.pseudos@[j]).spec_supported(),
            decreases self.pseudos.len() - i,
        {
            if !self.pseudos[i].supported() {
                return false;
            }
            i = i + 1;
        }
        true
    }

    /// Is this compound free of positional pseudo-classes?
    pub fn positional_free(&self) -> (r: bool)
        ensures
            r == self.spec_positional_free(),
    {
        let mut i: usize = 0;
        while i < self.pseudos.len()
            invariant
                i <= self.pseudos.len(),
                forall|j: int| 0 <= j < i ==> !(#[trigger] self.pseudos@[j]).spec_positional(),
            decreases self.pseudos.len() - i,
        {
            if self.pseudos[i].positional() {
                return false;
            }
            i = i + 1;
        }
        true
    }
}

impl Selector {
    /// Structural well-formedness: at least one part, one combinator fewer
    /// than parts.
    pub open spec fn spec_wf(self) -> bool {
        self.parts.len() >= 1 && self.combinators.len() + 1 == self.parts.len()
    }

    /// Does the engine implement every feature of this selector?
    pub open spec fn spec_supported(self) -> bool {
        forall|i: int| 0 <= i < self.parts.len() ==> (#[trigger] self.parts@[i]).spec_supported()
    }

    /// No positional pseudo-class anywhere in the selector.
    pub open spec fn spec_positional_free(self) -> bool {
        forall|i: int|
            0 <= i < self.parts.len() ==> (#[trigger] self.parts@[i]).spec_positional_free()
    }

    /// No sibling combinator anywhere in the selector.
    pub open spec fn spec_sibling_free(self) -> bool {
        forall|i: int|
            0 <= i < self.combinators.len() ==> !((#[trigger] self.combinators@[i])
                is NextSibling) && !(self.combinators@[i] is LaterSibling)
    }

    /// Structural well-formedness, computed.
    pub fn wf(&self) -> (r: bool)
        ensures
            r == self.spec_wf(),
    {
        self.parts.len() >= 1 && self.combinators.len() == self.parts.len() - 1
    }

    /// Does the engine implement every feature of this selector?
    pub fn supported(&self) -> (r: bool)
        ensures
            r == self.spec_supported(),
    {
        let mut i: usize = 0;
        while i < self.parts.len()
            invariant
                i <= self.parts.len(),
                forall|j: int| 0 <= j < i ==> (#[trigger] self.parts@[j]).spec_supported(),
            decreases self.parts.len() - i,
        {
            if !self.parts[i].supported() {
                return false;
            }
            i = i + 1;
        }
        true
    }

    /// No positional pseudo-class anywhere in the selector.
    pub fn positional_free(&self) -> (r: bool)
        ensures
            r == self.spec_positional_free(),
    {
        let mut i: usize = 0;
        while i < self.parts.len()
            invariant
                i <= self.parts.len(),
                forall|j: int| 0 <= j < i ==> (#[trigger] self.parts@[j]).spec_positional_free(),
            decreases self.parts.len() - i,
        {
            if !self.parts[i].positional_free() {
                return false;
            }
            i = i + 1;
        }
        true
    }

    /// No sibling combinator anywhere in the selector.
    pub fn sibling_free(&self) -> (r: bool)
        ensures
            r == self.spec_sibling_free(),
    {
        let mut i: usize = 0;
        while i < self.combinators.len()
            invariant
                i <= self.combinators.len(),
                forall|j: int|
                    0 <= j < i ==> !((#[trigger] self.combinators@[j]) is NextSibling) && !(
                    self.combinators@[j] is LaterSibling),
            decreases self.combinators.len() - i,
        {
            match self.combinators[i] {
                Combinator::NextSibling => {
                    return false;
                },
                Combinator::LaterSibling => {
                    return false;
                },
                _ => {},
            }
            i = i + 1;
        }
        true
    }
}

} // verus!

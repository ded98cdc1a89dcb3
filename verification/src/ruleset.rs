//! The rule variant under which a game is played, as one plain configuration value.

use vstd::prelude::*;
use crate::score::Komi;

verus! {

/// How the final position is counted.
#[derive(Clone, Copy, Debug, PartialEq, Eq, Hash, Structural)]
pub enum Scoring {
    Area,
    Territory,
}

/// The rules that vary from one variant to another. The named variants below
/// are values of this one type.
#[derive(Clone, Copy, Debug, PartialEq, Eq, Structural)]
pub struct Ruleset {
    pub min_size: u8,
    pub max_size: u8,
    pub suicide_allowed: bool,
    pub scoring: Scoring,
    pub default_komi: Komi,
}

impl Ruleset {
    /// Any board size, suicide allowed, area scoring, no komi by default.
    pub open spec fn spec_any_size_tromp_taylor() -> Ruleset {
        Ruleset {
            min_size: 1,
            max_size: 255,
            suicide_allowed: true,
            scoring: Scoring::Area,
            default_komi: Komi { half_points: 0 },
        }
    }

    /// Any board size, suicide forbidden, area scoring, a default komi of 6.5.
    pub open spec fn spec_kgs_chinese() -> Ruleset {
        Ruleset {
            min_size: 1,
            max_size: 255,
            suicide_allowed: false,
            scoring: Scoring::Area,
            default_komi: Komi { half_points: 13 },
        }
    }

    /// The board of 19 lines only, suicide forbidden, area scoring, a default
    /// komi of 6.5.
    pub open spec fn spec_minimal() -> Ruleset {
        Ruleset {
            min_size: 19,
            max_size: 19,
            suicide_allowed: false,
            scoring: Scoring::Area,
            default_komi: Komi { half_points: 13 },
        }
    }

    #[verifier::when_used_as_spec(spec_any_size_tromp_taylor)]
    pub fn any_size_tromp_taylor() -> (r: Ruleset)
        ensures
            r == Ruleset::spec_any_size_tromp_taylor(),
    {
        Ruleset {
            min_size: 1,
            max_size: 255,
            suicide_allowed: true,
            scoring: Scoring::Area,
            default_komi: Komi { half_points: 0 },
        }
    }

    #[verifier::when_used_as_spec(spec_kgs_chinese)]
    pub fn kgs_chinese() -> (r: Ruleset)
        ensures
            r == Ruleset::spec_kgs_chinese(),
    {
        Ruleset {
            min_size: 1,
            max_size: 255,
            suicide_allowed: false,
            scoring: Scoring::Area,
            default_komi: Komi { half_points: 13 },
        }
    }

    #[verifier::when_used_as_spec(spec_minimal)]
    pub fn minimal() -> (r: Ruleset)
        ensures
            r == Ruleset::spec_minimal(),
    {
        Ruleset {
            min_size: 19,
            max_size: 19,
            suicide_allowed: false,
            scoring: Scoring::Area,
            default_komi: Komi { half_points: 13 },
        }
    }

    /// Whether the variant is meant for boards of this size.
    pub open spec fn spec_allows_size(&self, size: u8) -> bool {
        self.min_size <= size <= self.max_size
    }

    #[verifier::when_used_as_spec(spec_allows_size)]
    pub fn allows_size(&self, size: u8) -> (b: bool)
        ensures
            b == self.spec_allows_size(size),
    {
        self.min_size <= size && size <= self.max_size
    }

    pub fn suicide_allowed(&self) -> (b: bool)
        ensures
            b == self.suicide_allowed,
    {
        self.suicide_allowed
    }
}

} // verus!

//! Agent definitions and the movement rules of their behaviour variants.

use crate::server::keyframe::{Coordinates, Orientation};
use crate::server::store::TimeIndex;
use vstd::prelude::*;

verus! {

/// The handle of a player.
pub type Player = usize;

/// The behaviour variants of the agents.
#[derive(Clone, Copy, Debug, PartialEq, Eq, Structural)]
pub enum AIType {
    Scout,
    Knight,
    Builder,
}

/// A movement policy: how one tick changes the placement of an agent.
#[derive(Clone, Copy, Debug, PartialEq, Eq, Structural)]
pub enum Rule {
    /// The agent stays where it is.
    Identity,
    /// The agent moves one cell along `x` and up to the square of its new `x`.
    Mover,
}

/// The immutable description of one simulated unit. Its id is its index in
/// the agent table.
#[derive(Clone, Copy, Debug, PartialEq, Eq)]
pub struct AI {
    pub ai_type: AIType,
    pub player: Player,
    pub start_location: Coordinates,
    pub start_orientation: Orientation,
}

impl AIType {
    /// The position of the variant in a rule table.
    pub open spec fn spec_tag(self) -> nat {
        match self {
            AIType::Scout => 0,
            AIType::Knight => 1,
            AIType::Builder => 2,
        }
    }

    /// The position of the variant in a rule table.
    pub fn tag(self) -> (t: usize)
        ensures
            t == self.spec_tag(),
    {
        match self {
            AIType::Scout => 0,
            AIType::Knight => 1,
            AIType::Builder => 2,
        }
    }
}

impl Rule {
    /// The placement that the rule gives an agent at `tick`, from its placement
    /// one tick earlier; `None` where the new location has no `i64`
    /// coordinates.
    pub open spec fn spec_advance(
        self,
        location: Coordinates,
        orientation: Orientation,
        tick: nat,
    ) -> Option<(Coordinates, Orientation)> {
        match self {
            Rule::Identity => Some((location, orientation)),
            Rule::Mover => {
                let x = location.0 + 1;
                if x <= i64::MAX && x * x <= i64::MAX {
                    Some(((x as i64, (x * x) as i64), orientation))
                } else {
                    None
                }
            },
        }
    }

    /// Applies the rule for one tick.
    pub fn advance(self, location: Coordinates, orientation: Orientation, tick: TimeIndex) -> (next:
        Option<(Coordinates, Orientation)>)
        ensures
            next == self.spec_advance(location, orientation, tick as nat),
    {
        match self {
            Rule::Identity => Some((location, orientation)),
            Rule::Mover => {
                match location.0.checked_add(1) {
                    Some(x) => {
                        assert(x * x >= 0) by (nonlinear_arith);
                        match x.checked_mul(x) {
                            Some(y) => Some(((x, y), orientation)),
                            None => None,
                        }
                    },
                    None => None,
                }
            },
        }
    }
}

/// The rule that the table `rules` holds for `variant`: the one supplied for
/// it, and [`Rule::Identity`] where none was.
pub open spec fn rule_of(rules: Seq<Rule>, variant: AIType) -> Rule {
    if variant.spec_tag() < rules.len() {
        rules[variant.spec_tag() as int]
    } else {
        Rule::Identity
    }
}

/// The registry of movement rules, by behaviour variant.
///
/// The stepper asks the table and nothing else, so a variant is given a
/// different policy by supplying it here.
#[derive(Debug)]
pub struct RuleTable {
    rules: Vec<Rule>,
}

impl View for RuleTable {
    type V = Seq<Rule>;

    closed spec fn view(&self) -> Seq<Rule> {
        self.rules@
    }
}

impl RuleTable {
    /// The table in which no variant moves.
    pub fn new() -> (table: RuleTable)
        ensures
            forall|variant: AIType| rule_of(table@, variant) == Rule::Identity,
    {
        RuleTable { rules: Vec::new() }
    }

    /// The table of the game: scouts are movers, every other variant stays.
    pub fn standard() -> (table: RuleTable)
        ensures
            forall|variant: AIType|
                rule_of(table@, variant) == if variant == AIType::Scout {
                    Rule::Mover
                } else {
                    Rule::Identity
                },
    {
        let mut table = RuleTable::new();
        table.supply(AIType::Scout, Rule::Mover);
        table
    }

    /// Supplies the rule of one variant; the other variants keep theirs.
    pub fn supply(&mut self, variant: AIType, rule: Rule)
        ensures
            forall|other: AIType|
                rule_of(final(self)@, other) == if other == variant {
                    rule
                } else {
                    rule_of(old(self)@, other)
                },
    {
        let t = variant.tag();
        while self.rules.len() <= t
            invariant
                t == variant.spec_tag(),
                old(self)@.len() <= self.rules@.len(),
                forall|i: int| 0 <= i < old(self)@.len() ==> self.rules@[i] == old(self)@[i],
                forall|i: int| old(self)@.len() <= i < self.rules@.len() ==> self.rules@[i]
                    == Rule::Identity,
            decreases t + 1 - self.rules.len(),
        {
            self.rules.push(Rule::Identity);
        }
        self.rules.set(t, rule);
        assert forall|other: AIType|
            rule_of(self@, other) == if other == variant {
                rule
            } else {
                rule_of(old(self)@, other)
            } by {
            if other != variant {
                assert(other.spec_tag() != variant.spec_tag());
            }
        }
    }

    /// The rule of `variant`.
    pub fn rule_for(&self, variant: AIType) -> (rule: Rule)
        ensures
            rule == rule_of(self@, variant),
    {
        let t = variant.tag();
        if t < self.rules.len() {
            self.rules[t]
        } else {
            Rule::Identity
        }
    }
}

impl Clone for RuleTable {
    fn clone(&self) -> (copy: RuleTable)
        ensures
            copy@ == self@,
    {
        let mut rules: Vec<Rule> = Vec::with_capacity(self.rules.len());
        let mut i: usize = 0;
        while i < self.rules.len()
            invariant
                i <= self.rules.len(),
                rules@.len() == i,
                forall|k: int| 0 <= k < i ==> rules@[k] == self.rules@[k],
            decreases self.rules.len() - i,
        {
            rules.push(self.rules[i]);
            i += 1;
        }
        assert(rules@ =~= self.rules@);
        RuleTable { rules }
    }
}

} // verus!

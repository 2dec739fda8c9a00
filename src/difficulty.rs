use vstd::prelude::*;

verus! {

/// The three standard board sizes.
#[derive(Debug, Clone, Copy, PartialEq, Eq, Structural)]
pub enum Difficulty {
    Beginner,
    Intermediate,
    Expert,
}

impl Difficulty {
    /// Width, height and mine count of the board of this difficulty.
    pub open spec fn dimensions(self) -> (usize, usize, usize) {
        match self {
            Difficulty::Beginner => (9, 9, 10),
            Difficulty::Intermediate => (16, 16, 40),
            Difficulty::Expert => (30, 16, 99),
        }
    }

    /// The name shown to the player.
    pub open spec fn label(self) -> Seq<char> {
        match self {
            Difficulty::Beginner => "Beginner"@,
            Difficulty::Intermediate => "Intermediate"@,
            Difficulty::Expert => "Expert"@,
        }
    }

    /// Width, height and mine count of the board of this difficulty.
    pub fn get_dimensions(&self) -> (r: (usize, usize, usize))
        ensures
            r == self.dimensions(),
            r.0 * r.1 <= usize::MAX,
            r.2 < r.0 * r.1,
    {
        match self {
            Difficulty::Beginner => (9, 9, 10),
            Difficulty::Intermediate => (16, 16, 40),
            Difficulty::Expert => (30, 16, 99),
        }
    }

    /// The name shown to the player.
    pub fn name(&self) -> (r: &'static str)
        ensures
            r@ == self.label(),
    {
        match self {
            Difficulty::Beginner => "Beginner",
            Difficulty::Intermediate => "Intermediate",
            Difficulty::Expert => "Expert",
        }
    }
}

} // verus!

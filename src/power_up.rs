//! The kinds of power-up lying in a maze.

use vstd::prelude::*;

verus! {

#[derive(Clone, Copy, Debug, Hash, PartialEq, Eq, Structural)]
pub enum PowerUp {
    Speed,
    Vision,
    Memory,
}

impl PowerUp {
    /// Every kind, in declaration order.
    pub fn all() -> (r: Vec<PowerUp>)
        ensures
            r@ == seq![PowerUp::Speed, PowerUp::Vision, PowerUp::Memory],
    {
        let r = vec![PowerUp::Speed, PowerUp::Vision, PowerUp::Memory];
        assert(r@ =~= seq![PowerUp::Speed, PowerUp::Vision, PowerUp::Memory]);
        r
    }

    /// The kind's name.
    pub fn name(&self) -> (r: &'static str)
        ensures
            r@ == match self {
                PowerUp::Speed => "Speed"@,
                PowerUp::Vision => "Vision"@,
                PowerUp::Memory => "Memory"@,
            },
    {
        match self {
            PowerUp::Speed => "Speed",
            PowerUp::Vision => "Vision",
            PowerUp::Memory => "Memory",
        }
    }
}

} // verus!

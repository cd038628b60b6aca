use vstd::prelude::*;

verus! {

/// Payload stored for one dictionary key: the grammatical context ids used to
/// look up transition costs, and the word's own cost.
#[derive(Copy, Clone, Debug, PartialEq, Eq, Structural)]
pub struct Info {
    pub left_id: u16,
    pub right_id: u16,
    pub cost: i16,
}

impl Info {
    pub fn new(left_id: u16, right_id: u16, cost: i16) -> (r: Self)
        ensures
            r == (Info { left_id, right_id, cost }),
    {
        Info { left_id, right_id, cost }
    }
}

} // verus!

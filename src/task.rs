use vstd::prelude::*;

verus! {

/// A unit of work: an opaque label and a weight that stands for its cost.
#[derive(Debug, Clone, PartialEq, Eq)]
pub struct Task {
    pub name: String,
    pub weight: u8,
}

impl Task {
    pub fn new(name: String, weight: u8) -> (r: Task)
        ensures
            r.name == name,
            r.weight == weight,
    {
        Task { name: name, weight: weight }
    }
}

} // verus!

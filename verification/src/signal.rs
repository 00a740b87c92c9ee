use vstd::prelude::*;

verus! {

/// A message that can be put on the wire as text and read back from it.
pub trait Signal {
    fn serialize(&self) -> String;

    fn deserialize(data: String) -> Self where Self: Sized;
}

} // verus!

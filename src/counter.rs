use vstd::prelude::*;

verus! {

/// The source of fresh label ids. It only counts upward, so every id it
/// hands out in a session is new.
pub struct Counter {
    pub value: u64,
}

/// A counter that has handed out no id yet.
pub fn counter() -> (c: Counter)
    ensures
        c.value == 0,
{
    Counter { value: 0 }
}

/// The next fresh id: one more than the last one handed out.
pub fn next_id(c: &mut Counter) -> (id: u64)
    requires
        old(c).value < u64::MAX,
    ensures
        id == old(c).value + 1,
        final(c).value == id,
{
    c.value = c.value + 1;
    c.value
}

} // verus!

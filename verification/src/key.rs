//! Identifiers of arena entries and the counter that hands them out.

use vstd::prelude::*;

verus! {

/// Identifies one entry of an arena. Keys are ordered by `value`.
#[derive(Debug, PartialEq, Eq, Structural, PartialOrd, Ord, Clone, Copy, Hash)]
pub struct Key {
    pub value: u32,
}

impl Key {
    /// The zero key, the first one a fresh counter hands out.
    pub fn new() -> (key: Key)
        ensures
            key.value == 0,
    {
        Key { value: 0 }
    }

    /// Steps to the next key.
    pub fn increment(&mut self)
        requires
            old(self).value < u32::MAX,
        ensures
            final(self).value == old(self).value + 1,
    {
        self.value = self.value + 1;
    }

    /// The key with the given number.
    pub open spec fn at(n: nat) -> Key {
        Key { value: n as u32 }
    }
}

/// Hands out keys in increasing order, starting at zero. One counter
/// serves one parse.
#[derive(Debug)]
pub struct KeyCounter {
    next: Key,
}

impl View for KeyCounter {
    type V = nat;

    /// The number of keys drawn so far, which is also the number of the
    /// key that the next draw returns.
    closed spec fn view(&self) -> nat {
        self.next.value as nat
    }
}

impl KeyCounter {
    /// A counter from which nothing was drawn yet.
    pub fn new() -> (counter: KeyCounter)
        ensures
            counter@ == 0,
    {
        KeyCounter { next: Key::new() }
    }

    /// Draws the next key. A counter holds out for `u32::MAX` draws.
    pub fn count(&mut self) -> (key: Key)
        requires
            old(self)@ < u32::MAX,
        ensures
            key == old(self).key_after(0),
            final(self)@ == old(self)@ + 1,
    {
        let k = self.next;
        self.next.increment();
        k
    }

    /// The key that a draw returns once `draws` draws were made before
    /// it: each draw returns the key with the number of the counter and
    /// adds one to that number.
    pub open spec fn key_after(self, draws: nat) -> Key {
        Key::at(self@ + draws)
    }
}

/// Draws from one counter are strictly increasing, hence distinct, and a
/// fresh counter starts at the zero key: its draw number `n` (from zero)
/// is the key `n`.
pub proof fn lemma_draws_increase(counter: KeyCounter, earlier: nat, later: nat)
    requires
        earlier < later,
        counter@ + later <= u32::MAX,
    ensures
        counter.key_after(earlier).value < counter.key_after(later).value,
        counter.key_after(earlier) != counter.key_after(later),
        counter@ == 0 ==> counter.key_after(earlier).value == earlier,
{
}

} // verus!

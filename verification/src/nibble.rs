//! Nibbles and paths of nibbles.
use vstd::prelude::*;

verus! {

/// The number of nibbles in a key, and so the depth below which no node can lie.
pub const ROOT_NIBBLE_HEIGHT: usize = 64;

/// A number below sixteen.
#[derive(Clone, Copy, Debug, PartialEq, Eq, PartialOrd, Ord, Hash, Structural)]
pub struct Nibble {
    pub value: u8,
}

impl Nibble {
    pub open spec fn wf(self) -> bool {
        self.value < 16
    }

    pub fn new(value: u8) -> (r: Self)
        requires
            value < 16,
        ensures
            r.value == value,
            r.wf(),
    {
        Nibble { value }
    }
}

/// A path of nibbles from the root of the tree.
#[derive(Debug, Eq, Hash, PartialOrd, Ord)]
pub struct NibblePath {
    pub nibbles: Vec<u8>,
}

impl View for NibblePath {
    type V = Seq<u8>;

    open spec fn view(&self) -> Seq<u8> {
        self.nibbles@
    }
}

impl Clone for NibblePath {
    fn clone(&self) -> (r: Self)
        ensures
            r@ == self@,
    {
        let r = NibblePath { nibbles: vstd::slice::slice_to_vec(self.nibbles.as_slice()) };
        r
    }
}

impl PartialEq for NibblePath {
    fn eq(&self, other: &Self) -> (r: bool) {
        self.is_same(other)
    }
}

impl vstd::std_specs::cmp::PartialEqSpecImpl for NibblePath {
    open spec fn obeys_eq_spec() -> bool {
        true
    }

    open spec fn eq_spec(&self, other: &Self) -> bool {
        self@ == other@
    }
}

impl NibblePath {
    /// The path that leads to the root.
    pub fn new_empty() -> (r: Self)
        ensures
            r@ == Seq::<u8>::empty(),
    {
        NibblePath { nibbles: Vec::new() }
    }

    /// Tells whether `other` is the same path.
    pub fn is_same(&self, other: &Self) -> (r: bool)
        ensures
            r == (self@ == other@),
    {
        if self.nibbles.len() != other.nibbles.len() {
            return false;
        }
        let mut i: usize = 0;
        while i < self.nibbles.len()
            invariant
                i <= self.nibbles.len(),
                self.nibbles.len() == other.nibbles.len(),
                forall|j: int| 0 <= j < i ==> self.nibbles[j] == other.nibbles[j],
            decreases self.nibbles.len() - i,
        {
            if self.nibbles[i] != other.nibbles[i] {
                return false;
            }
            i += 1;
        }
        assert(self@ =~= other@);
        true
    }

    /// The number of nibbles on the path.
    pub fn num_nibbles(&self) -> (r: usize)
        ensures
            r == self@.len(),
    {
        self.nibbles.len()
    }

    /// Extends the path by one step.
    pub fn push(&mut self, nibble: Nibble)
        requires
            old(self)@.len() < 64,
        ensures
            final(self)@ == old(self)@.push(nibble.value),
    {
        self.nibbles.push(nibble.value);
    }
}

} // verus!

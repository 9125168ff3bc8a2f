use vstd::prelude::*;

verus! {

/// An index into the syntax-tree arena.
pub type AstIndex = u32;

/// An index into the constant pool.
pub type ConstantIndex = u32;

/// A lookup step that indexes into a value.
#[derive(Clone, Copy, Debug, PartialEq, Eq, Structural)]
pub struct Index(pub AstIndex);

/// A dotted access path: identifier, index and call steps applied from a
/// root value, in order. It always holds at least one step where the
/// operations below are used.
#[derive(Debug)]
pub struct Lookup(pub Vec<LookupNode>);

/// One step of a lookup path.
#[derive(Debug)]
pub enum LookupNode {
    Id(ConstantIndex),
    Index(Index),
    Call(Vec<AstIndex>),
}

impl Lookup {
    /// The whole path as a borrowed slice.
    pub fn as_slice(&self) -> (r: LookupSlice<'_>)
        ensures
            r.0@ == self.0@,
    {
        LookupSlice(self.0.as_slice())
    }

    /// The slice holding only the final step, the one that produces the
    /// path's value.
    pub fn value_slice(&self) -> (r: LookupSlice<'_>)
        requires
            self.0@.len() >= 1,
        ensures
            r.0@ == self.0@.subrange(self.0@.len() - 1, self.0@.len() as int),
            r.0@.len() == 1,
    {
        let n = self.0.len();
        LookupSlice(vstd::slice::slice_subrange(self.0.as_slice(), n - 1, n))
    }

    /// The final step of the path.
    pub fn value_node(&self) -> (r: &LookupNode)
        requires
            self.0@.len() >= 1,
        ensures
            r == self.0@.last(),
    {
        &self.0[self.0.len() - 1]
    }
}

/// A borrowed view over part of a lookup path.
#[derive(Clone, Copy, Debug)]
pub struct LookupSlice<'a>(pub &'a [LookupNode]);

impl<'a> LookupSlice<'a> {
    /// The slice holding only the final step.
    pub fn value_slice(&self) -> (r: LookupSlice<'_>)
        requires
            self.0@.len() >= 1,
        ensures
            r.0@ == self.0@.subrange(self.0@.len() - 1, self.0@.len() as int),
            r.0@.len() == 1,
    {
        let n = self.0.len();
        LookupSlice(vstd::slice::slice_subrange(self.0, n - 1, n))
    }

    /// The final step of the path.
    pub fn value_node(&self) -> (r: &LookupNode)
        requires
            self.0@.len() >= 1,
        ensures
            r == self.0@.last(),
    {
        let n = self.0.len();
        &self.0[n - 1]
    }

    /// The first steps of the path, up to and including position `n`.
    pub fn first_n(&self, n: usize) -> (r: LookupSlice<'_>)
        requires
            n < self.0@.len(),
        ensures
            r.0@ == self.0@.subrange(0, n + 1),
    {
        let total = self.0.len();
        LookupSlice(vstd::slice::slice_subrange(self.0, 0, n + 1))
    }
}

} // verus!

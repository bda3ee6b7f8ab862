//! Provenance of an edge: the lower-level edges that it stands for.

use vstd::prelude::*;

verus! {

/// Either one underlying edge, or the ordered chain of edges that a shortcut
/// replaces.
#[derive(Debug, PartialEq, Eq, Clone)]
pub enum ShortcutState<T> {
    Single(T),
    Shortcut(Vec<T>),
}

/// The mathematical value of a provenance: one item, or a chain of items.
pub enum Provenance<T> {
    Single(T),
    Chain(Seq<T>),
}

impl<T> Provenance<T> {
    /// The chain of underlying items, in order.
    pub open spec fn chain(self) -> Seq<T> {
        match self {
            Provenance::Single(a) => seq![a],
            Provenance::Chain(a) => a,
        }
    }
}

impl<T> View for ShortcutState<T> {
    type V = Provenance<T>;

    open spec fn view(&self) -> Provenance<T> {
        match *self {
            ShortcutState::Single(a) => Provenance::Single(a),
            ShortcutState::Shortcut(a) => Provenance::Chain(a@),
        }
    }
}

impl<T> ShortcutState<T> {
    /// The chain of underlying items, in order.
    pub open spec fn chain(self) -> Seq<T> {
        match self {
            ShortcutState::Single(a) => seq![a],
            ShortcutState::Shortcut(a) => a@,
        }
    }

    /// The chain of underlying items, in order.
    pub fn into_vec(self) -> (r: Vec<T>)
        ensures
            r@ == self.chain(),
    {
        match self {
            ShortcutState::Single(a) => {
                let mut v = Vec::new();
                v.push(a);
                assert(v@ =~= seq![a]);
                v
            },
            ShortcutState::Shortcut(a) => a,
        }
    }
}

impl<T: Copy> ShortcutState<T> {
    /// A copy of the chain of underlying items, in order.
    pub fn to_vec(&self) -> (r: Vec<T>)
        ensures
            r@ == self.chain(),
    {
        match self {
            ShortcutState::Single(a) => {
                let mut v = Vec::new();
                v.push(*a);
                assert(v@ =~= seq![*a]);
                v
            },
            ShortcutState::Shortcut(a) => {
                let mut v: Vec<T> = Vec::new();
                let mut i: usize = 0;
                while i < a.len()
                    invariant
                        i <= a.len(),
                        v@ == a@.subrange(0, i as int),
                    decreases a.len() - i,
                {
                    v.push(a[i]);
                    i += 1;
                    assert(v@ =~= a@.subrange(0, i as int));
                }
                assert(a@.subrange(0, a.len() as int) =~= a@);
                v
            },
        }
    }

    /// A copy of this provenance.
    pub fn duplicate(&self) -> (r: Self)
        ensures
            r@ == self@,
    {
        match self {
            ShortcutState::Single(a) => ShortcutState::Single(*a),
            ShortcutState::Shortcut(_) => ShortcutState::Shortcut(self.to_vec()),
        }
    }
}

impl<T> From<ShortcutState<T>> for Vec<T> {
    /// The chain of underlying items, in order.
    fn from(s: ShortcutState<T>) -> (r: Self)
        ensures
            r@ == s.chain(),
    {
        s.into_vec()
    }
}

impl<T> vstd::std_specs::convert::FromSpecImpl<ShortcutState<T>> for Vec<T> {
    open spec fn obeys_from_spec() -> bool {
        false
    }

    open spec fn from_spec(s: ShortcutState<T>) -> Self {
        arbitrary()
    }
}

} // verus!

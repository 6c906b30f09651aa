//! Node keys: caller-supplied opaque values reduced to the data the
//! scheduler reads of them.
//!
//! The scheduler never inspects a caller's node value itself.  At
//! registration time the embedding wraps each value into a [`NodeKey`]
//! holding: an identity token (distinct values get distinct tokens), the
//! value's hash code computed once and cached for the key's lifetime, and a
//! flag recording once whether the value compared equal to itself.  Equality
//! between two keys is layered: an identity shortcut first, then a shortcut
//! for values that are not reflexively equal, and only then one delegated
//! comparison performed by the embedding; [`NodeKey::eq_probe`] decides which
//! layer applies without ever calling back into the embedding.

use vstd::prelude::*;

verus! {

/// A registered node value: its identity token, its hash code as computed
/// once at registration, and whether it compared equal to itself then.
///
/// The hash code must be stable for the key's lifetime; that is the
/// embedding's contract with whoever produced the value.
#[derive(Clone, Copy, PartialEq, Eq, Structural, Debug, Hash)]
pub struct NodeKey {
    /// Identity token: two wrappings of the very same value carry the same
    /// token, wrappings of distinct values carry distinct tokens.
    pub ident: u64,
    /// The value's hash code, computed once at registration.
    pub hash_code: i64,
    /// Whether the value compared equal to itself at registration.
    pub self_eq: bool,
}

/// What the two cached layers of key equality decide on their own.
#[derive(Clone, Copy, PartialEq, Eq, Structural, Debug)]
pub enum EqVerdict {
    /// The keys carry the same identity token: equal, no comparison needed.
    Equal,
    /// At least one value is not reflexively equal, and the keys are not
    /// identical: treated as unequal, the comparison is never invoked.
    Unequal,
    /// The cached layers cannot decide: one delegated comparison is owed.
    Delegate,
}

/// Which verdict the cached layers reach for `a` and `b`.
pub open spec fn eq_verdict(a: NodeKey, b: NodeKey) -> EqVerdict {
    if a.ident == b.ident {
        EqVerdict::Equal
    } else if !a.self_eq || !b.self_eq {
        EqVerdict::Unequal
    } else {
        EqVerdict::Delegate
    }
}

/// Key equality once the delegated comparison, where one is owed at all,
/// has answered `delegated`.
pub open spec fn eq_resolved(a: NodeKey, b: NodeKey, delegated: bool) -> bool {
    match eq_verdict(a, b) {
        EqVerdict::Equal => true,
        EqVerdict::Unequal => false,
        EqVerdict::Delegate => delegated,
    }
}

impl NodeKey {
    /// Wraps a value's registration data into a key.
    pub fn new(ident: u64, hash_code: i64, self_eq: bool) -> (k: NodeKey)
        ensures
            k == (NodeKey { ident, hash_code, self_eq }),
    {
        NodeKey { ident, hash_code, self_eq }
    }

    /// The hash code cached at registration; never recomputed.
    pub fn hash_code(&self) -> (h: i64)
        ensures
            h == self.hash_code,
    {
        self.hash_code
    }

    /// Runs the two cached layers of the equality procedure: the identity
    /// shortcut, then the reflexivity shortcut.  Returns
    /// `Delegate` exactly when the embedding owes one delegated
    /// comparison of the two underlying values.
    pub fn eq_probe(&self, other: &NodeKey) -> (v: EqVerdict)
        ensures
            v == eq_verdict(*self, *other),
    {
        if self.ident == other.ident {
            EqVerdict::Equal
        } else if !self.self_eq || !other.self_eq {
            EqVerdict::Unequal
        } else {
            EqVerdict::Delegate
        }
    }

    /// The full equality procedure, with the delegated comparison's answer
    /// supplied by the embedding.  `delegated` is consulted only when
    /// [`NodeKey::eq_probe`] answers `Delegate`; the shortcuts
    /// win otherwise, exactly as [`eq_resolved`] states.
    pub fn equals_with(&self, other: &NodeKey, delegated: bool) -> (r: bool)
        ensures
            r == eq_resolved(*self, *other, delegated),
    {
        match self.eq_probe(other) {
            EqVerdict::Equal => true,
            EqVerdict::Unequal => false,
            EqVerdict::Delegate => delegated,
        }
    }
}

} // verus!

//! What the type lattice answers about types.

use vstd::prelude::*;

use crate::names::Symbol;
use crate::ty::Type;

verus! {

/// The lattice's answers for the types of one program, as tables.
#[derive(Debug)]
pub struct Lattice {
    /// The pairs `(actual, expected)` where a value of the first may be used as
    /// the second.
    pub assignable: Vec<(Type, Type)>,
    /// The types whose values have to be wrapped to become an `Any`.
    pub erasable: Vec<Type>,
    /// The types whose values run a user `Drop` body.
    pub user_drop: Vec<Type>,
    /// The types that cannot be copied, each with the reason.
    pub not_copyable: Vec<(Type, Symbol)>,
}

/// The first reason `ty` cannot be copied, if there is one.
pub open spec fn refusal_in(rows: Seq<(Type, Symbol)>, ty: Type) -> Option<Symbol>
    decreases rows.len(),
{
    if rows.len() == 0 {
        None
    } else if rows[0].0 == ty {
        Some(rows[0].1)
    } else {
        refusal_in(rows.drop_first(), ty)
    }
}

fn listed(rows: &Vec<Type>, ty: Type) -> (res: bool)
    ensures
        res == rows@.contains(ty),
{
    let mut i: usize = 0;
    while i < rows.len()
        invariant
            i <= rows@.len(),
            forall|k: int| 0 <= k < i ==> rows@[k] != ty,
        decreases rows@.len() - i,
    {
        if rows[i] == ty {
            return true;
        }
        i += 1;
    }
    false
}

impl Lattice {
    /// Whether a value of `actual` may be used where `expected` is declared.
    pub open spec fn admits(&self, actual: Type, expected: Type) -> bool {
        self.assignable@.contains((actual, expected))
    }

    /// Whether a value of `actual` may be used where `expected` is declared.
    pub fn assignable_to(&self, actual: Type, expected: Type) -> (res: bool)
        ensures
            res == self.admits(actual, expected),
    {
        let mut i: usize = 0;
        while i < self.assignable.len()
            invariant
                i <= self.assignable@.len(),
                forall|k: int| 0 <= k < i ==> self.assignable@[k] != (actual, expected),
            decreases self.assignable@.len() - i,
        {
            let (from, to) = self.assignable[i];
            if from == actual && to == expected {
                return true;
            }
            i += 1;
        }
        false
    }

    /// Whether a value of `ty` has to be wrapped to become an `Any`.
    pub fn erases_into_any(&self, ty: Type) -> (res: bool)
        ensures
            res == self.erasable@.contains(ty),
    {
        listed(&self.erasable, ty)
    }

    /// Whether dropping a value of `ty` runs a user `Drop` body.
    pub fn runs_user_drop(&self, ty: Type) -> (res: bool)
        ensures
            res == self.user_drop@.contains(ty),
    {
        listed(&self.user_drop, ty)
    }

    /// Why a value of `ty` cannot be copied, or `None` where it can.
    pub fn copy_refusal(&self, ty: Type) -> (reason: Option<Symbol>)
        ensures
            reason == refusal_in(self.not_copyable@, ty),
    {
        let mut i: usize = 0;
        assert(self.not_copyable@.skip(0) =~= self.not_copyable@);
        while i < self.not_copyable.len()
            invariant
                i <= self.not_copyable@.len(),
                refusal_in(self.not_copyable@, ty) == refusal_in(
                    self.not_copyable@.skip(i as int),
                    ty,
                ),
            decreases self.not_copyable@.len() - i,
        {
            let (refused, reason) = self.not_copyable[i];
            assert(self.not_copyable@.skip(i as int).drop_first() =~= self.not_copyable@.skip(
                i + 1,
            ));
            if refused == ty {
                return Some(reason);
            }
            i += 1;
        }
        None
    }
}

/// A type cannot be copied exactly if some row says so, and the reason given is the first
/// such row's.
pub proof fn a_refused_copy_has_its_first_reason(rows: Seq<(Type, Symbol)>, ty: Type)
    ensures
        match refusal_in(rows, ty) {
            Some(reason) => exists|k: int|
                0 <= k < rows.len() && #[trigger] rows[k] == (ty, reason) && forall|j: int|
                    0 <= j < k ==> (#[trigger] rows[j]).0 != ty,
            None => forall|k: int| 0 <= k < rows.len() ==> (#[trigger] rows[k]).0 != ty,
        },
    decreases rows.len(),
{
    if rows.len() > 0 {
        if rows[0].0 == ty {
            assert(rows[0] == (ty, rows[0].1));
        } else {
            let rest = rows.drop_first();
            a_refused_copy_has_its_first_reason(rest, ty);
            match refusal_in(rest, ty) {
                Some(reason) => {
                    let k = choose|k: int|
                        0 <= k < rest.len() && #[trigger] rest[k] == (ty, reason) && forall|j: int|
                            0 <= j < k ==> (#[trigger] rest[j]).0 != ty;
                    assert(rows[k + 1] == (ty, reason));
                    assert forall|j: int| 0 <= j < k + 1 implies (#[trigger] rows[j]).0 != ty by {
                        if j > 0 {
                            assert(rows[j] == rest[j - 1]);
                        }
                    }
                },
                None => {
                    assert forall|k: int| 0 <= k < rows.len() implies (#[trigger] rows[k]).0
                        != ty by {
                        if k > 0 {
                            assert(rows[k] == rest[k - 1]);
                        }
                    }
                },
            }
        }
    }
}

} // verus!

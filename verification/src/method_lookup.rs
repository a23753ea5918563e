//! Finding a method by the type that owns it and its name.

use vstd::prelude::*;

use crate::callables::NameForm;
use crate::hir::FuncId;
use crate::names::Symbol;
use crate::signatures::{FuncSig, SigTable};
use crate::ty::Type;

verus! {

/// Whether `sig` answers to `owner.method` on a value of type `receiver`.
///
/// Two packages may each declare a type of one name; the receiver tells their methods
/// apart.
pub open spec fn names_method(
    sig: FuncSig,
    receiver: Type,
    owner: Symbol,
    method: Symbol,
) -> bool {
    &&& sig.params@.len() > 0
    &&& sig.params@[0] == receiver
    &&& sig.indexed
    &&& sig.name@.0 == (NameForm::Method { owner, name: method })
    &&& sig.name@.1.len() == 0
}

/// The first signature from `from` on that answers to `owner.method`.
pub open spec fn method_from(
    sigs: Seq<FuncSig>,
    receiver: Type,
    owner: Symbol,
    method: Symbol,
    from: int,
) -> Option<FuncId>
    decreases sigs.len() - from,
{
    if from < 0 || from >= sigs.len() {
        None
    } else if names_method(sigs[from], receiver, owner, method) {
        Some(FuncId(from as u32))
    } else {
        method_from(sigs, receiver, owner, method, from + 1)
    }
}

/// The function that `owner.method` reaches on a value of type `receiver`.
pub open spec fn method_of(
    sigs: Seq<FuncSig>,
    receiver: Type,
    owner: Symbol,
    method: Symbol,
) -> Option<FuncId> {
    method_from(sigs, receiver, owner, method, 0)
}

/// The function that `owner.method` reaches on a value of type `receiver`, if one does.
pub fn find_method(table: &SigTable, receiver: Type, owner: Symbol, method: Symbol) -> (found:
    Option<FuncId>)
    requires
        table.sigs@.len() <= u32::MAX,
    ensures
        found == method_of(table.sigs@, receiver, owner, method),
        found matches Some(id) ==> id.0 < table.sigs@.len() && names_method(
            table.sigs@[id.0 as int],
            receiver,
            owner,
            method,
        ),
{
    let mut i: usize = 0;
    while i < table.sigs.len()
        invariant
            i <= table.sigs@.len() <= u32::MAX,
            method_of(table.sigs@, receiver, owner, method) == method_from(
                table.sigs@,
                receiver,
                owner,
                method,
                i as int,
            ),
        decreases table.sigs@.len() - i,
    {
        let sig = &table.sigs[i];
        let form = NameForm::Method { owner, name: method };
        if sig.params.len() > 0 && sig.params[0] == receiver && sig.indexed && sig.name.form == form
            && sig.name.copies.len() == 0 {
            return Some(FuncId(i as u32));
        }
        i += 1;
    }
    None
}

/// Whether function `id` mutates its receiver.
pub fn mutates_self(table: &SigTable, id: FuncId) -> (res: bool)
    requires
        id.0 < table.sigs@.len(),
    ensures
        res == table.sigs@[id.0 as int].mutates_self,
{
    table.sigs[id.0 as usize].mutates_self
}

proof fn lemma_first_method(
    sigs: Seq<FuncSig>,
    receiver: Type,
    owner: Symbol,
    method: Symbol,
    from: int,
)
    requires
        0 <= from <= sigs.len() <= u32::MAX,
    ensures
        match method_from(sigs, receiver, owner, method, from) {
            Some(id) => from <= id.0 < sigs.len() && names_method(
                sigs[id.0 as int],
                receiver,
                owner,
                method,
            ) && forall|k: int|
                from <= k < id.0 ==> !names_method(#[trigger] sigs[k], receiver, owner, method),
            None => forall|k: int|
                from <= k < sigs.len() ==> !names_method(
                    #[trigger] sigs[k],
                    receiver,
                    owner,
                    method,
                ),
        },
    decreases sigs.len() - from,
{
    if from < sigs.len() && !names_method(sigs[from], receiver, owner, method) {
        lemma_first_method(sigs, receiver, owner, method, from + 1);
    }
}

/// A method call reaches the first indexed function registered as a method of the type's
/// name under the method's, with nothing appended, whose receiver is the value's type; it
/// reaches none only where there is no such function.
pub proof fn a_method_is_found_by_name_and_receiver(
    sigs: Seq<FuncSig>,
    receiver: Type,
    owner: Symbol,
    method: Symbol,
    k: int,
)
    requires
        sigs.len() <= u32::MAX,
    ensures
        method_of(sigs, receiver, owner, method) matches Some(id) ==> id.0 < sigs.len()
            && sigs[id.0 as int].indexed && sigs[id.0 as int].params@.len() > 0
            && sigs[id.0 as int].params@[0] == receiver && sigs[id.0 as int].name@.0 == (
        NameForm::Method { owner, name: method }) && sigs[id.0 as int].name@.1.len() == 0,
        0 <= k < sigs.len() && sigs[k].indexed && sigs[k].params@.len() > 0 && sigs[k].params@[0]
            == receiver && sigs[k].name@.0 == (NameForm::Method { owner, name: method })
            && sigs[k].name@.1.len() == 0 ==> (method_of(
            sigs,
            receiver,
            owner,
            method,
        ) matches Some(id) && id.0 <= k),
{
    lemma_first_method(sigs, receiver, owner, method, 0);
    if 0 <= k < sigs.len() && names_method(sigs[k], receiver, owner, method) {
        if let Some(id) = method_of(sigs, receiver, owner, method) {
            if k < id.0 {
                assert(!names_method(sigs[k], receiver, owner, method));
            }
        }
    }
}

} // verus!

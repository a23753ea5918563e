//! Function types, and the struct each became.
//!
//! A function type is a synthesized representation struct: field 0 is the tag
//! saying which literal or named function a value is, and the remaining fields
//! are the concatenation of every literal's captures. Calling a value is a branch
//! over the tags, so the feature needs nothing of a backend.

use vstd::prelude::*;

use crate::hir::FuncId;
use crate::signatures::same_types;
use crate::syntax::FieldDefault;
use crate::ty::{FieldDef, FieldName, OwnershipMode, StructDef, StructId, StructName, Type, TypeTable};

verus! {

/// One closure literal or named function, lifted to a top-level function.
#[derive(Clone, Copy, PartialEq, Eq, Structural, Debug)]
pub struct ClosureImpl {
    /// The tag a value of it carries.
    pub tag: u32,
    /// The lifted function.
    pub function: FuncId,
}

/// One function type, and everything synthesized for it.
#[derive(Debug)]
pub struct FnTypeInfo {
    /// The representation struct, which is what a type carries.
    pub repr: StructId,
    pub params: Vec<Type>,
    /// How each parameter takes its argument, in step with `params`.
    pub modes: Vec<OwnershipMode>,
    pub result: Type,
    /// The dispatcher's id, minted on the first call through a value of this
    /// type.
    pub dispatcher: Option<FuncId>,
    /// One entry per closure literal or named function of this type.
    pub impls: Vec<ClosureImpl>,
    /// The tag already assigned to each named function of this type.
    pub named: Vec<(FuncId, u32)>,
}

/// Every function type a program mentions.
#[derive(Debug)]
pub struct FnTypeTable {
    pub rows: Vec<FnTypeInfo>,
}

/// What two spellings of one function type share: parameters, how each takes its
/// argument, and the result.
pub open spec fn shaped(
    info: FnTypeInfo,
    params: Seq<Type>,
    modes: Seq<OwnershipMode>,
    result: Type,
) -> bool {
    info.params@ == params && info.modes@ == modes && info.result == result
}

/// The first row whose struct is `repr`.
pub open spec fn row_for(rows: Seq<FnTypeInfo>, repr: StructId) -> Option<int>
    decreases rows.len(),
{
    if rows.len() == 0 {
        None
    } else if rows[0].repr == repr {
        Some(0)
    } else {
        match row_for(rows.drop_first(), repr) {
            Some(i) => Some(i + 1),
            None => None,
        }
    }
}

/// The struct already minted for a shape.
pub open spec fn repr_for(
    rows: Seq<FnTypeInfo>,
    params: Seq<Type>,
    modes: Seq<OwnershipMode>,
    result: Type,
) -> Option<StructId>
    decreases rows.len(),
{
    if rows.len() == 0 {
        None
    } else if shaped(rows[0], params, modes, result) {
        Some(rows[0].repr)
    } else {
        repr_for(rows.drop_first(), params, modes, result)
    }
}

/// Whether some implementation already carries `tag`.
pub open spec fn tag_used(impls: Seq<ClosureImpl>, tag: u32) -> bool {
    exists|i: int| 0 <= i < impls.len() && (#[trigger] impls[i]).tag == tag
}

/// No two implementations of one type carry the same tag.
pub open spec fn tags_differ(impls: Seq<ClosureImpl>) -> bool {
    forall|i: int, j: int|
        0 <= i < j < impls.len() ==> (#[trigger] impls[i]).tag != (#[trigger] impls[j]).tag
}

/// The tag a named function was given, if it has one.
pub open spec fn named_tag(named: Seq<(FuncId, u32)>, target: FuncId) -> Option<u32>
    decreases named.len(),
{
    if named.len() == 0 {
        None
    } else if named[0].0 == target {
        Some(named[0].1)
    } else {
        named_tag(named.drop_first(), target)
    }
}

pub proof fn lemma_row_for(rows: Seq<FnTypeInfo>, repr: StructId)
    ensures
        match row_for(rows, repr) {
            Some(i) => 0 <= i < rows.len() && rows[i].repr == repr && forall|k: int|
                0 <= k < i ==> (#[trigger] rows[k]).repr != repr,
            None => forall|k: int| 0 <= k < rows.len() ==> (#[trigger] rows[k]).repr != repr,
        },
    decreases rows.len(),
{
    if rows.len() > 0 && rows[0].repr != repr {
        let rest = rows.drop_first();
        lemma_row_for(rest, repr);
        assert forall|k: int|
            0 <= k < rows.len() && (row_for(rest, repr) is None || k <= row_for(
                rest,
                repr,
            )->0) implies (#[trigger] rows[k]).repr != repr by {
            if k > 0 {
                assert(rows[k] == rest[k - 1]);
            }
        }
    }
}

pub proof fn lemma_repr_for(
    rows: Seq<FnTypeInfo>,
    params: Seq<Type>,
    modes: Seq<OwnershipMode>,
    result: Type,
)
    ensures
        match repr_for(rows, params, modes, result) {
            Some(repr) => exists|i: int|
                0 <= i < rows.len() && #[trigger] rows[i].repr == repr && shaped(
                    rows[i],
                    params,
                    modes,
                    result,
                ),
            None => forall|k: int|
                0 <= k < rows.len() ==> !shaped(#[trigger] rows[k], params, modes, result),
        },
    decreases rows.len(),
{
    if rows.len() > 0 && !shaped(rows[0], params, modes, result) {
        let rest = rows.drop_first();
        lemma_repr_for(rest, params, modes, result);
        match repr_for(rest, params, modes, result) {
            Some(repr) => {
                let i = choose|i: int|
                    0 <= i < rest.len() && #[trigger] rest[i].repr == repr && shaped(
                        rest[i],
                        params,
                        modes,
                        result,
                    );
                assert(rows[i + 1] == rest[i]);
                assert(rows[i + 1].repr == repr);
            },
            None => {
                assert forall|k: int| 0 <= k < rows.len() implies !shaped(
                    #[trigger] rows[k],
                    params,
                    modes,
                    result,
                ) by {
                    if k > 0 {
                        assert(rows[k] == rest[k - 1]);
                    }
                }
            },
        }
    }
}

pub fn same_modes(a: &Vec<OwnershipMode>, b: &Vec<OwnershipMode>) -> (res: bool)
    ensures
        res == (a@ == b@),
{
    if a.len() != b.len() {
        return false;
    }
    let mut i: usize = 0;
    while i < a.len()
        invariant
            i <= a@.len(),
            a@.len() == b@.len(),
            forall|k: int| 0 <= k < i ==> a@[k] == b@[k],
        decreases a@.len() - i,
    {
        if a[i] != b[i] {
            return false;
        }
        i += 1;
    }
    assert(a@ =~= b@);
    true
}

/// The mode of parameter `index`; owned where none was declared.
pub open spec fn mode_of(modes: Seq<OwnershipMode>, index: int) -> OwnershipMode {
    if 0 <= index < modes.len() {
        modes[index]
    } else {
        OwnershipMode::Owned
    }
}

/// The mode of parameter `index`; owned where none was declared.
pub fn mode_at(modes: &Vec<OwnershipMode>, index: usize) -> (mode: OwnershipMode)
    ensures
        mode == mode_of(modes@, index as int),
{
    if index < modes.len() {
        modes[index]
    } else {
        OwnershipMode::Owned
    }
}

impl FnTypeTable {
    /// Every struct stands for one type and every shape for one struct, every
    /// parameter has its mode, and every implementation has a tag of its own.
    pub open spec fn wf(&self) -> bool {
        &&& forall|i: int, j: int|
            0 <= i < j < self.rows@.len() ==> (#[trigger] self.rows@[i]).repr != (
            #[trigger] self.rows@[j]).repr
        &&& forall|i: int, j: int|
            0 <= i < j < self.rows@.len() ==> !shaped(
                #[trigger] self.rows@[i],
                (#[trigger] self.rows@[j]).params@,
                self.rows@[j].modes@,
                self.rows@[j].result,
            )
        &&& forall|i: int|
            0 <= i < self.rows@.len() ==> tags_differ((#[trigger] self.rows@[i]).impls@)
    }

    /// The function type behind a struct id, if the struct is one.
    pub open spec fn info(&self, repr: StructId) -> Option<FnTypeInfo> {
        match row_for(self.rows@, repr) {
            Some(i) => Some(self.rows@[i]),
            None => None,
        }
    }

    /// The representation struct of a function type.
    pub open spec fn function_repr(&self, ty: Type) -> Option<StructId> {
        match ty {
            Type::Struct(id) if self.info(id) is Some => Some(id),
            _ => None,
        }
    }

    /// A table with no function type in it.
    pub fn new() -> (table: FnTypeTable)
        ensures
            table.wf(),
            table.rows@.len() == 0,
    {
        FnTypeTable { rows: Vec::new() }
    }

    /// The row of the function type behind a struct id.
    pub fn find(&self, repr: StructId) -> (row: Option<usize>)
        ensures
            match row {
                Some(i) => row_for(self.rows@, repr) == Some(i as int) && i < self.rows@.len()
                    && self.rows@[i as int].repr == repr,
                None => row_for(self.rows@, repr) is None,
            },
    {
        let mut i: usize = 0;
        proof {
            lemma_row_for(self.rows@, repr);
        }
        while i < self.rows.len()
            invariant
                i <= self.rows@.len(),
                forall|k: int| 0 <= k < i ==> (#[trigger] self.rows@[k]).repr != repr,
            decreases self.rows@.len() - i,
        {
            if self.rows[i].repr == repr {
                proof {
                    lemma_row_for(self.rows@, repr);
                }
                return Some(i);
            }
            i += 1;
        }
        None
    }

    /// The function type behind a struct id, or `None` when the struct is an
    /// ordinary one.
    pub fn get(&self, repr: StructId) -> (info: Option<&FnTypeInfo>)
        ensures
            match info {
                Some(info) => self.info(repr) == Some(*info),
                None => self.info(repr) is None,
            },
    {
        match self.find(repr) {
            Some(i) => Some(&self.rows[i]),
            None => None,
        }
    }

    /// The struct already minted for a shape, if any.
    pub fn lookup(&self, params: &Vec<Type>, modes: &Vec<OwnershipMode>, result: Type) -> (repr:
        Option<StructId>)
        ensures
            repr == repr_for(self.rows@, params@, modes@, result),
    {
        let mut i: usize = 0;
        assert(self.rows@.skip(0) =~= self.rows@);
        while i < self.rows.len()
            invariant
                i <= self.rows@.len(),
                repr_for(self.rows@, params@, modes@, result) == repr_for(
                    self.rows@.skip(i as int),
                    params@,
                    modes@,
                    result,
                ),
            decreases self.rows@.len() - i,
        {
            assert(self.rows@.skip(i as int).drop_first() =~= self.rows@.skip(i + 1));
            let row = &self.rows[i];
            if same_types(&row.params, params) && same_modes(&row.modes, modes) && row.result
                == result {
                return Some(row.repr);
            }
            i += 1;
        }
        None
    }

    /// Whether `ty` is a function type, and its representation struct.
    pub fn as_function_type(&self, ty: Type) -> (repr: Option<StructId>)
        ensures
            repr == self.function_repr(ty),
    {
        match ty {
            Type::Struct(id) => match self.find(id) {
                Some(_) => Some(id),
                None => None,
            },
            _ => None,
        }
    }
}

/// Whether `(params) -> result` mentions something unresolvable.
pub open spec fn unresolvable(params: Seq<Type>, result: Type) -> bool {
    params.contains(Type::Error) || result == Type::Error
}

/// The field every representation struct begins with.
pub open spec fn tag_field() -> FieldDef {
    FieldDef { name: FieldName::Tag, ty: Type::spec_plain_int(), mutable: false }
}

fn mentions_error(params: &Vec<Type>) -> (res: bool)
    ensures
        res == params@.contains(Type::Error),
{
    let mut i: usize = 0;
    while i < params.len()
        invariant
            i <= params@.len(),
            forall|k: int| 0 <= k < i ==> params@[k] != Type::Error,
        decreases params@.len() - i,
    {
        if params[i] == Type::Error {
            return true;
        }
        i += 1;
    }
    false
}

/// The type of `(params) -> result`, minting its representation struct on first
/// mention.
///
/// Idempotent by shape, and the parameter modes are part of the shape: a call
/// through `(borrow Event) -> Void` leaves the caller its value and a call
/// through `(Event) -> Void` takes it. An unresolvable part makes the whole type
/// unresolvable.
pub fn function_type(
    types: &mut TypeTable,
    fn_types: &mut FnTypeTable,
    defaults: &mut Vec<Vec<Option<FieldDefault>>>,
    params: Vec<Type>,
    modes: Vec<OwnershipMode>,
    result: Type,
) -> (ty: Type)
    requires
        old(fn_types).wf(),
        old(types).structs@.len() < u32::MAX,
        old(defaults)@.len() == old(types).structs@.len(),
        forall|i: int|
            0 <= i < old(fn_types).rows@.len() ==> (#[trigger] old(fn_types).rows@[i]).repr.0
                < old(types).structs@.len(),
    ensures
        final(fn_types).wf(),
        ty == if unresolvable(params@, result) {
            Type::Error
        } else {
            match repr_for(old(fn_types).rows@, params@, modes@, result) {
                Some(repr) => Type::Struct(repr),
                None => Type::Struct(StructId(old(types).structs@.len() as u32)),
            }
        },
        if unresolvable(params@, result) || repr_for(
            old(fn_types).rows@,
            params@,
            modes@,
            result,
        ) is Some {
            *final(types) == *old(types) && *final(fn_types) == *old(fn_types) && *final(defaults)
                == *old(defaults)
        } else {
            let id = StructId(old(types).structs@.len() as u32);
            let structs = final(types).structs@;
            let rows = final(fn_types).rows@;
            &&& structs.len() == old(types).structs@.len() + 1
            &&& structs.drop_last() == old(types).structs@
            &&& structs.last().name == StructName::FunctionType
            &&& structs.last().owner is None
            &&& structs.last().module is None
            &&& structs.last().fields@ == seq![tag_field()]
            &&& *final(types) == (TypeTable { structs: final(types).structs, ..*old(types) })
            &&& rows.len() == old(fn_types).rows@.len() + 1
            &&& rows.drop_last() == old(fn_types).rows@
            &&& rows.last().repr == id
            &&& shaped(rows.last(), params@, modes@, result)
            &&& rows.last().dispatcher is None
            &&& rows.last().impls@.len() == 0
            &&& rows.last().named@.len() == 0
            &&& final(defaults)@.len() == old(defaults)@.len() + 1
            &&& final(defaults)@.drop_last() == old(defaults)@
            &&& final(defaults)@.last()@ == seq![None::<FieldDefault>]
        },
        final(defaults)@.len() == final(types).structs@.len(),
        ty != Type::Error ==> final(fn_types).function_repr(ty) is Some,
{
    if mentions_error(&params) || result == Type::Error {
        return Type::Error;
    }
    proof {
        lemma_repr_for(fn_types.rows@, params@, modes@, result);
    }
    if let Some(id) = fn_types.lookup(&params, &modes, result) {
        proof {
            lemma_row_for(fn_types.rows@, id);
        }
        return Type::Struct(id);
    }
    let id = StructId(types.structs.len() as u32);
    let mut fields: Vec<FieldDef> = Vec::new();
    fields.push(FieldDef { name: FieldName::Tag, ty: Type::plain_int(), mutable: false });
    types.structs.push(StructDef { name: StructName::FunctionType, owner: None, module: None, fields });
    let mut row: Vec<Option<FieldDefault>> = Vec::new();
    row.push(None);
    defaults.push(row);
    fn_types.rows.push(
        FnTypeInfo {
            repr: id,
            params,
            modes,
            result,
            dispatcher: None,
            impls: Vec::new(),
            named: Vec::new(),
        },
    );
    proof {
        let rows = fn_types.rows@;
        assert(rows.drop_last() =~= old(fn_types).rows@);
        assert(types.structs@.drop_last() =~= old(types).structs@);
        assert(defaults@.drop_last() =~= old(defaults)@);
        lemma_row_for(rows, id);
        assert(rows[rows.len() - 1].repr == id);
    }
    Type::Struct(id)
}

/// `(params) -> result` written twice is one type: asking again mints nothing
/// and answers the same.
pub proof fn one_type_per_shape(
    before: Seq<FnTypeInfo>,
    after: Seq<FnTypeInfo>,
    params: Seq<Type>,
    modes: Seq<OwnershipMode>,
    result: Type,
)
    requires
        repr_for(before, params, modes, result) is None,
        after.len() == before.len() + 1,
        after.drop_last() == before,
        shaped(after.last(), params, modes, result),
    ensures
        repr_for(after, params, modes, result) == Some(after.last().repr),
    decreases before.len(),
{
    if before.len() > 0 {
        assert(after[0] == before[0]);
        assert(after.drop_first().drop_last() =~= before.drop_first());
        assert(after.drop_first().last() == after.last());
        one_type_per_shape(before.drop_first(), after.drop_first(), params, modes, result);
    } else {
        assert(after[0] == after.last());
    }
}

/// Two shapes that differ, even in one parameter's mode, are two types.
pub proof fn shapes_do_not_share_a_struct(table: &FnTypeTable, i: int, j: int)
    requires
        table.wf(),
        0 <= i < table.rows@.len(),
        0 <= j < table.rows@.len(),
        table.rows@[i].params@ != table.rows@[j].params@ || table.rows@[i].modes@
            != table.rows@[j].modes@ || table.rows@[i].result != table.rows@[j].result,
    ensures
        table.rows@[i].repr != table.rows@[j].repr,
{
}

/// `candidate` where no implementation carries it, and otherwise a tag none
/// carries.
pub fn unique_impl_tag(impls: &Vec<ClosureImpl>, candidate: u32) -> (tag: u32)
    requires
        impls@.len() <= u32::MAX,
    ensures
        probed(impls@, candidate, tag),
        !tag_used(impls@, candidate) ==> tag == candidate,
{
    let mut tag: u32 = candidate;
    let mut tried: u32 = 0;
    let ghost mut carriers: Seq<int> = Seq::empty();
    loop
        invariant
            impls@.len() <= u32::MAX,
            carriers.len() == tried,
            carriers.no_duplicates(),
            tag == tag_after(candidate, tried as int),
            tried > 0 ==> tag_used(impls@, candidate),
            forall|k: int|
                0 <= k < tried ==> tag_used(impls@, #[trigger] tag_after(candidate, k) as u32),
            forall|k: int|
                0 <= k < carriers.len() ==> 0 <= #[trigger] carriers[k] < impls@.len()
                    && impls@[carriers[k]].tag == tag_after(candidate, k),
        decreases u32::MAX - tried,
    {
        match carrier(impls, tag) {
            None => {
                return tag;
            },
            Some(found) => {
                proof {
                    assert(tag_used(impls@, tag));
                    if carriers.contains(found as int) {
                        let k = choose|k: int|
                            0 <= k < carriers.len() && carriers[k] == found as int;
                        lemma_tags_after_differ(candidate, k, tried as int);
                    }
                    carriers = carriers.push(found as int);
                    crate::graph::lemma_distinct_below(carriers, impls@.len() as int);
                }
                tag = if tag == u32::MAX {
                    0
                } else {
                    tag + 1
                };
                tried += 1;
            },
        }
    }
}

/// `tag` is the first unused one from `candidate` on, counting up and round.
pub open spec fn probed(impls: Seq<ClosureImpl>, candidate: u32, tag: u32) -> bool {
    &&& !tag_used(impls, tag)
    &&& exists|steps: int|
        steps >= 0 && tag == #[trigger] tag_after(candidate, steps) && forall|k: int|
            0 <= k < steps ==> tag_used(impls, #[trigger] tag_after(candidate, k) as u32)
}

/// The tag tried after `steps` others, counting up from `candidate` and round.
pub open spec fn tag_after(candidate: u32, steps: int) -> int {
    if candidate + steps <= u32::MAX {
        candidate + steps
    } else {
        candidate + steps - u32::MAX - 1
    }
}

proof fn lemma_tags_after_differ(candidate: u32, a: int, b: int)
    requires
        0 <= a < b <= u32::MAX,
    ensures
        tag_after(candidate, a) != tag_after(candidate, b),
{
}

fn carrier(impls: &Vec<ClosureImpl>, tag: u32) -> (found: Option<usize>)
    ensures
        match found {
            Some(i) => i < impls@.len() && impls@[i as int].tag == tag,
            None => !tag_used(impls@, tag),
        },
{
    let mut i: usize = 0;
    while i < impls.len()
        invariant
            i <= impls@.len(),
            forall|k: int| 0 <= k < i ==> (#[trigger] impls@[k]).tag != tag,
        decreases impls@.len() - i,
    {
        if impls[i].tag == tag {
            return Some(i);
        }
        i += 1;
    }
    None
}

/// Whether a value of `ty` copies without owning anything: the scalars and a raw
/// pointer, whose copy frees nothing.
pub open spec fn trivially_copyable(ty: Type) -> bool {
    ty is Int || ty is Float || ty == Type::Bool || ty == Type::Void || ty == Type::Error || ty
        == Type::RawPtr
}

/// Whether a value of `ty` copies without owning anything.
pub fn is_trivially_copyable(ty: Type) -> (res: bool)
    ensures
        res == trivially_copyable(ty),
{
    matches!(
        ty,
        Type::Int(_) | Type::Float(_) | Type::Bool | Type::Void | Type::Error | Type::RawPtr
    )
}

/// Whether a capture of `ty` travels as it is: a scalar, a share of a capture
/// cell, or a function value, whose own captures all had to pass this test.
pub open spec fn capturable(fn_types: &FnTypeTable, ty: Type) -> bool {
    trivially_copyable(ty) || ty is Cell || fn_types.function_repr(ty) is Some
}

/// Whether a capture of `ty` travels as it is.
pub fn capture_is_trivially_copyable(fn_types: &FnTypeTable, ty: Type) -> (res: bool)
    ensures
        res == capturable(fn_types, ty),
{
    is_trivially_copyable(ty) || matches!(ty, Type::Cell(_)) || fn_types.as_function_type(
        ty,
    ).is_some()
}

/// `a` has a field that is a `b`, by value.
pub open spec fn holds_struct(types: &TypeTable, a: int, b: int) -> bool {
    0 <= a < types.structs@.len() && exists|i: int|
        0 <= i < types.structs@[a].fields@.len() && (#[trigger] types.structs@[a].fields@[i]).ty
            == Type::Struct(StructId(b as u32)) && 0 <= b <= u32::MAX
}

/// Struct nesting, as a relation between rows.
pub open spec fn nesting_edges(types: &TypeTable) -> crate::graph::Edges {
    |a: int, b: int| holds_struct(types, a, b)
}

/// Whether `ty` holds a `target` by value, at any depth.
pub open spec fn reaches_struct(types: &TypeTable, ty: Type, target: StructId) -> bool {
    ty matches Type::Struct(id) && crate::graph::reaches(
        nesting_edges(types),
        id.0 as int,
        target.0 as int,
    )
}

/// Whether storing a value of `ty` in `repr` would let `repr` reach itself.
pub fn capture_would_be_cyclic(types: &TypeTable, repr: StructId, ty: Type) -> (res: bool)
    ensures
        res == reaches_struct(types, ty, repr),
{
    match ty {
        Type::Struct(id) => {
            let mut seen = crate::graph::flags_down(types.structs.len());
            let ghost edge = nesting_edges(types);
            let found = struct_reaches(types, id, repr, &mut seen);
            proof {
                if !found && crate::graph::reaches(edge, id.0 as int, repr.0 as int) {
                    let flags = seen@;
                    let inside = |x: int| visited(flags, x) && x != repr.0;
                    assert forall|x: int, y: int| inside(x) && #[trigger] edge(
                        x,
                        y,
                    ) implies inside(y) by {
                        assert(left_behind(types, flags, repr, x));
                    }
                    crate::graph::lemma_closed(edge, inside, id.0 as int, repr.0 as int);
                }
            }
            found
        },
        _ => false,
    }
}

/// Row `x` was visited; a row the table lacks counts as visited.
pub open spec fn visited(flags: Seq<bool>, x: int) -> bool {
    x >= flags.len() || (x >= 0 && flags[x])
}

/// Everything row `x` holds was visited, and is not `target`.
pub open spec fn left_behind(types: &TypeTable, flags: Seq<bool>, target: StructId, x: int) -> bool {
    forall|y: int| #[trigger]
        holds_struct(types, x, y) ==> visited(flags, y) && y != target.0
}

fn struct_reaches(types: &TypeTable, id: StructId, target: StructId, seen: &mut Vec<bool>) -> (res:
    bool)
    requires
        old(seen)@.len() == types.structs@.len(),
    ensures
        final(seen)@.len() == old(seen)@.len(),
        forall|x: int| 0 <= x < old(seen)@.len() && old(seen)@[x] ==> #[trigger] final(seen)@[x],
        res ==> crate::graph::reaches(nesting_edges(types), id.0 as int, target.0 as int),
        !res ==> id != target && visited(final(seen)@, id.0 as int),
        !res ==> forall|x: int|
            0 <= x < old(seen)@.len() && !old(seen)@[x] && final(seen)@[x] ==> #[trigger] left_behind(
                types,
                final(seen)@,
                target,
                x,
            ),
    decreases crate::graph::unset(old(seen)@),
{
    let ghost edge = nesting_edges(types);
    if id == target {
        proof {
            crate::graph::lemma_reaches_self(edge, id.0 as int);
        }
        return true;
    }
    if (id.0 as usize) >= types.structs.len() {
        return false;
    }
    if seen[id.0 as usize] {
        return false;
    }
    proof {
        crate::graph::lemma_unset_raise(seen@, id.0 as int);
    }
    seen[id.0 as usize] = true;
    let ghost entered = seen@;
    let count: usize = types.structs[id.0 as usize].fields.len();
    let mut i: usize = 0;
    while i < count
        invariant
            i <= count,
            id.0 < types.structs@.len(),
            id != target,
            edge == nesting_edges(types),
            count == types.structs@[id.0 as int].fields@.len(),
            old(seen)@.len() == types.structs@.len(),
            entered == old(seen)@.update(id.0 as int, true),
            !old(seen)@[id.0 as int],
            crate::graph::unset(entered) < crate::graph::unset(old(seen)@),
            seen@.len() == entered.len(),
            crate::graph::unset(seen@) <= crate::graph::unset(entered),
            forall|x: int| 0 <= x < entered.len() && entered[x] ==> #[trigger] seen@[x],
            forall|k: int|
                0 <= k < i ==> ((#[trigger] types.structs@[id.0 as int].fields@[k]).ty matches
                    Type::Struct(held) ==> held != target && visited(seen@, held.0 as int)),
            forall|x: int|
                0 <= x < entered.len() && !entered[x] && seen@[x] ==> #[trigger] left_behind(
                    types,
                    seen@,
                    target,
                    x,
                ),
        decreases count - i,
    {
        let ty = types.structs[id.0 as usize].fields[i].ty;
        if let Type::Struct(held) = ty {
            let ghost before = seen@;
            if struct_reaches(types, held, target, seen) {
                proof {
                    assert(types.structs@[id.0 as int].fields@[i as int].ty == Type::Struct(held));
                    assert(holds_struct(types, id.0 as int, held.0 as int));
                    crate::graph::lemma_reaches_from(
                        edge,
                        id.0 as int,
                        held.0 as int,
                        target.0 as int,
                    );
                }
                return true;
            }
            proof {
                lemma_fewer_unset(before, seen@);
                assert forall|x: int|
                    0 <= x < entered.len() && !entered[x] && seen@[x] implies #[trigger] left_behind(
                    types,
                    seen@,
                    target,
                    x,
                ) by {
                    if before[x] {
                        assert(left_behind(types, before, target, x));
                    }
                }
            }
        }
        i += 1;
    }
    proof {
        assert(left_behind(types, seen@, target, id.0 as int)) by {
            assert forall|y: int| #[trigger] holds_struct(types, id.0 as int, y) implies visited(
                seen@,
                y,
            ) && y != target.0 by {
                let k = choose|k: int|
                    0 <= k < types.structs@[id.0 as int].fields@.len() && (
                    #[trigger] types.structs@[id.0 as int].fields@[k]).ty == Type::Struct(
                        StructId(y as u32),
                    );
            }
        }
        assert(seen@[id.0 as int]);
        assert forall|x: int|
            0 <= x < old(seen)@.len() && !old(seen)@[x] && seen@[x] implies #[trigger] left_behind(
            types,
            seen@,
            target,
            x,
        ) by {
            if x != id.0 {
                assert(!entered[x]);
            }
        }
    }
    false
}

/// Raising flags leaves no more down.
proof fn lemma_fewer_unset(before: Seq<bool>, after: Seq<bool>)
    requires
        before.len() == after.len(),
        forall|x: int| 0 <= x < before.len() && before[x] ==> #[trigger] after[x],
    ensures
        crate::graph::unset(after) <= crate::graph::unset(before),
    decreases before.len(),
{
    if before.len() > 0 {
        let n = before.len() - 1;
        assert forall|x: int|
            0 <= x < before.drop_last().len() && before.drop_last()[x] implies #[trigger] after.drop_last()[x] by {
            assert(before[x]);
            assert(after[x]);
        }
        lemma_fewer_unset(before.drop_last(), after.drop_last());
        assert(before[n] ==> after[n]);
    }
}

/// A struct is a function type exactly if some row is its, and what is known of it is what
/// the first such row says; a type that is no struct is none.
pub proof fn a_function_type_is_known_by_its_struct(table: &FnTypeTable, ty: Type)
    ensures
        ty matches Type::Struct(repr) ==> (table.function_repr(ty) == Some(repr) <==> exists|i: int|
            0 <= i < table.rows@.len() && (#[trigger] table.rows@[i]).repr == repr),
        ty matches Type::Struct(repr) ==> (table.function_repr(ty) is Some ==> table.function_repr(
            ty,
        ) == Some(repr)),
        !(ty is Struct) ==> table.function_repr(ty) is None,
        ty matches Type::Struct(repr) ==> (table.info(repr) matches Some(info) ==> info.repr == repr
            && table.rows@.contains(info)),
{
    if let Type::Struct(repr) = ty {
        lemma_row_for(table.rows@, repr);
        if let Some(i) = row_for(table.rows@, repr) {
            assert(table.rows@[i].repr == repr);
        }
    }
}

/// A capture travels as it is exactly if its type is a scalar, a raw pointer, a cell or a
/// function type: text, arrays and every other struct do not.
pub proof fn what_a_capture_may_be(fn_types: &FnTypeTable, ty: Type)
    ensures
        capturable(fn_types, ty) <==> {
            ||| ty is Int
            ||| ty is Float
            ||| ty == Type::Bool
            ||| ty == Type::Void
            ||| ty == Type::Error
            ||| ty == Type::RawPtr
            ||| ty is Cell
            ||| ty matches Type::Struct(repr) && fn_types.info(repr) is Some
        },
{
}

/// A struct holds another by value where one of its fields is of that type, and whatever
/// that one holds in turn.
pub proof fn nesting_follows_fields(types: &TypeTable, outer: StructId, field: int, inner: StructId)
    requires
        outer.0 < types.structs@.len(),
        0 <= field < types.structs@[outer.0 as int].fields@.len(),
        types.structs@[outer.0 as int].fields@[field].ty == Type::Struct(inner),
    ensures
        reaches_struct(types, Type::Struct(outer), inner),
        forall|target: StructId|
            reaches_struct(types, Type::Struct(inner), target) ==> #[trigger] reaches_struct(
                types,
                Type::Struct(outer),
                target,
            ),
{
    let edge = nesting_edges(types);
    assert(holds_struct(types, outer.0 as int, inner.0 as int));
    assert(edge(outer.0 as int, inner.0 as int));
    crate::graph::lemma_reaches_self(edge, outer.0 as int);
    crate::graph::lemma_reaches_step(edge, outer.0 as int, outer.0 as int, inner.0 as int);
    assert forall|target: StructId|
        reaches_struct(types, Type::Struct(inner), target) implies #[trigger] reaches_struct(
        types,
        Type::Struct(outer),
        target,
    ) by {
        crate::graph::lemma_reaches_trans(
            edge,
            outer.0 as int,
            inner.0 as int,
            target.0 as int,
        );
    }
}

/// A new implementation's tag is one that no implementation of the type has, and the one
/// asked for where that is free.
pub proof fn a_probed_tag_is_free(impls: Seq<ClosureImpl>, candidate: u32, tag: u32, i: int)
    requires
        probed(impls, candidate, tag),
    ensures
        0 <= i < impls.len() ==> impls[i].tag != tag,
        (forall|k: int| 0 <= k < impls.len() ==> (#[trigger] impls[k]).tag != candidate) ==> tag
            == candidate,
{
    if 0 <= i < impls.len() && impls[i].tag == tag {
        assert(tag_used(impls, tag));
    }
    if forall|k: int| 0 <= k < impls.len() ==> (#[trigger] impls[k]).tag != candidate {
        let steps = choose|steps: int|
            steps >= 0 && tag == #[trigger] tag_after(candidate, steps) && forall|k: int|
                0 <= k < steps ==> tag_used(impls, #[trigger] tag_after(candidate, k) as u32);
        if steps > 0 {
            assert(tag_after(candidate, 0) == candidate);
            assert(tag_used(impls, tag_after(candidate, 0) as u32));
        }
    }
}

/// A function type is left unresolved exactly if something in it failed to resolve, and
/// the struct of one begins with the tag, an integer nothing may write.
pub proof fn a_function_type_with_an_error_is_one(params: Seq<Type>, result: Type)
    ensures
        unresolvable(params, result) <==> result == Type::Error || exists|k: int|
            0 <= k < params.len() && #[trigger] params[k] == Type::Error,
        tag_field().name == FieldName::Tag,
        tag_field().ty == Type::Int(crate::ty::IntSpelling::Int),
        !tag_field().mutable,
{
    if params.contains(Type::Error) {
        let k = choose|k: int| 0 <= k < params.len() && params[k] == Type::Error;
        assert(params[k] == Type::Error);
    }
}

/// A parameter is taken in the mode recorded for its place, and owned where none is.
pub proof fn a_parameter_without_a_mode_is_owned(modes: Seq<OwnershipMode>, index: int)
    ensures
        0 <= index < modes.len() ==> mode_of(modes, index) == modes[index],
        !(0 <= index < modes.len()) ==> mode_of(modes, index) == OwnershipMode::Owned,
{
}

/// A named function used as a value before has the tag it was given then: the first one
/// recorded for it.
pub proof fn a_named_function_keeps_its_tag(named: Seq<(FuncId, u32)>, target: FuncId)
    ensures
        match named_tag(named, target) {
            Some(tag) => exists|i: int|
                0 <= i < named.len() && #[trigger] named[i] == (target, tag) && forall|j: int|
                    0 <= j < i ==> (#[trigger] named[j]).0 != target,
            None => forall|i: int| 0 <= i < named.len() ==> (#[trigger] named[i]).0 != target,
        },
    decreases named.len(),
{
    if named.len() > 0 {
        if named[0].0 == target {
            assert(named[0] == (target, named[0].1));
        } else {
            let rest = named.drop_first();
            a_named_function_keeps_its_tag(rest, target);
            match named_tag(rest, target) {
                Some(tag) => {
                    let i = choose|i: int|
                        0 <= i < rest.len() && #[trigger] rest[i] == (target, tag) && forall|j: int|
                            0 <= j < i ==> (#[trigger] rest[j]).0 != target;
                    assert(named[i + 1] == (target, tag));
                    assert forall|j: int| 0 <= j < i + 1 implies (#[trigger] named[j]).0
                        != target by {
                        if j > 0 {
                            assert(named[j] == rest[j - 1]);
                        }
                    }
                },
                None => {
                    assert forall|i: int| 0 <= i < named.len() implies (#[trigger] named[i]).0
                        != target by {
                        if i > 0 {
                            assert(named[i] == rest[i - 1]);
                        }
                    }
                },
            }
        }
    }
}

} // verus!

//! Calls on construct-family values, and the wrapping that makes one.

use vstd::prelude::*;

use crate::arguments::{all_carried, carry_arguments, mismatches};
use crate::diagnostics::{blamed, noted, CalleeName, Log, Problem};
use crate::families::{
    find_tag, tag_in, ConstructTable, FamilyInfo, FamilyMethod, FamilyTable, MethodEntry,
};
use crate::family_inherit::lemma_replaced;
use crate::hir::{
    whole, Callee, FuncId, HirExpr, HirExprId, HirPlace, HirProgram, HirWriteback, LocalId,
};
use crate::lattice::Lattice;
use crate::lists::copied;
use crate::names::Symbol;
use crate::source::Span;
use crate::symbol_map::{lemma_row, ordered};
use crate::syntax::TypeRefs;
use crate::synth::SynthTable;
use crate::ty::{EnumId, OwnershipMode, Type};

verus! {

/// The node that makes `value`, which is `node`, a value of the family the
/// position expects, where it is a declaration that family can hold.
///
/// A declaration backed by a family that extends others is a variant of each, so
/// the tag is chosen by which family the position asked for.
pub open spec fn family_crossing(
    families: &FamilyTable,
    constructs: &ConstructTable,
    value: HirExprId,
    node: HirExpr,
    expected: Option<Type>,
) -> Option<HirExpr> {
    match (expected, node.ty()) {
        (Some(Type::Enum(family)), Type::Struct(id)) => if families.key_of(family) is Some {
            match constructs.info(id) {
                Some(info) => match tag_in(info.families@, family) {
                    Some(tag) => Some(
                        HirExpr::EnumNew { enum_id: family, tag, payload: Some(value) },
                    ),
                    None => None,
                },
                None => None,
            }
        } else {
            None
        },
        _ => None,
    }
}

/// `result` is `value` as the position expects it: wrapped by the one added node
/// where it has to be, and itself otherwise.
pub open spec fn family_crossed(
    before: &HirProgram,
    after: &HirProgram,
    families: &FamilyTable,
    constructs: &ConstructTable,
    value: HirExprId,
    expected: Option<Type>,
    result: HirExprId,
) -> bool {
    match family_crossing(families, constructs, value, before.at(value), expected) {
        Some(node) => {
            &&& result.0 == before.exprs@.len()
            &&& after.exprs@ == before.exprs@.push(node)
            &&& *after == (HirProgram { exprs: after.exprs, ..*before })
        },
        None => result == value && *after == *before,
    }
}

/// Wraps a concrete construct-backed value where its position expects the
/// heterogeneous type of a family it belongs to.
pub fn coerce_construct_value(
    program: &mut HirProgram,
    families: &FamilyTable,
    constructs: &ConstructTable,
    value: HirExprId,
    expected: Option<Type>,
) -> (result: HirExprId)
    requires
        old(program).has_expr(value),
        old(program).exprs@.len() < u32::MAX,
    ensures
        family_crossed(
            old(program),
            final(program),
            families,
            constructs,
            value,
            expected,
            result,
        ),
        final(program).built_on(old(program)),
        final(program).has_expr(result),
{
    if let (Some(Type::Enum(family)), Type::Struct(id)) = (expected, program.type_of(value)) {
        if families.is_construct_family_type(family) {
            if let Some(at) = constructs.find(id) {
                if let Some(tag) = find_tag(&constructs.rows[at].1.families, family) {
                    return program.add_expr(
                        HirExpr::EnumNew { enum_id: family, tag, payload: Some(value) },
                    );
                }
            }
        }
    }
    value
}

/// Only one method entry of one family changed.
pub open spec fn entry_replaced(
    before: &FamilyTable,
    after: &FamilyTable,
    key: Symbol,
    name: Symbol,
    entry: MethodEntry,
) -> bool {
    &&& after.families@.dom() == before.families@.dom()
    &&& forall|k: Symbol|
        before.families@.contains_key(k) && k != key ==> #[trigger] after.families@[k]
            == before.families@[k]
    &&& after.families@[key] == (FamilyInfo {
        methods: after.families@[key].methods,
        ..before.families@[key]
    })
    &&& after.families@[key].methods@ == before.families@[key].methods@.insert(name, entry)
    &&& *after == (FamilyTable { families: after.families, ..*before })
}

/// Replacing one entry's row replaces one entry.
pub proof fn lemma_entry_replaced(
    before: &FamilyTable,
    after: &FamilyTable,
    at: int,
    k: int,
    entry: MethodEntry,
)
    requires
        before.wf(),
        0 <= at < before.families.rows@.len(),
        after.families.rows@.len() == before.families.rows@.len(),
        forall|i: int|
            0 <= i < before.families.rows@.len() && i != at ==> #[trigger] after.families.rows@[i]
                == before.families.rows@[i],
        after.families.rows@[at].0 == before.families.rows@[at].0,
        ({
            let old_info = before.families.rows@[at].1;
            let info = after.families.rows@[at].1;
            &&& info == (FamilyInfo { methods: info.methods, ..old_info })
            &&& 0 <= k < old_info.methods.rows@.len()
            &&& info.methods.rows@ == old_info.methods.rows@.update(
                k,
                (old_info.methods.rows@[k].0, entry),
            )
        }),
        entry.method < before.methods@.len(),
        *after == (FamilyTable { families: after.families, ..*before }),
    ensures
        after.wf(),
        entry_replaced(
            before,
            after,
            before.families.rows@[at].0,
            before.families.rows@[at].1.methods.rows@[k].0,
            entry,
        ),
{
    let rows = before.families.rows@;
    let changed = after.families.rows@;
    let key = rows[at].0;
    assert(ordered(changed)) by {
        assert forall|i: int, j: int| 0 <= i < j < changed.len() implies (
        #[trigger] changed[i]).0.0 < (#[trigger] changed[j]).0.0 by {
            assert(rows[i].0.0 < rows[j].0.0);
        }
    }
    lemma_replaced(rows, changed, at);
    lemma_row(rows, at);
    lemma_row(changed, at);
    assert(after.families@.dom() =~= before.families@.dom());
    let old_info = rows[at].1;
    let info = changed[at].1;
    assert(before.families@[key].wf());
    let inner = old_info.methods.rows@;
    let replaced = info.methods.rows@;
    assert(ordered(replaced)) by {
        assert forall|i: int, j: int| 0 <= i < j < replaced.len() implies (
        #[trigger] replaced[i]).0.0 < (#[trigger] replaced[j]).0.0 by {
            assert(inner[i].0.0 < inner[j].0.0);
        }
    }
    lemma_replaced(inner, replaced, k);
    lemma_row(inner, k);
    lemma_row(replaced, k);
    let name = inner[k].0;
    assert(info.methods@ =~= old_info.methods@.insert(name, entry));
    assert forall|f: Symbol, n: Symbol|
        after.families@.contains_key(f) && after.families@[f].methods@.contains_key(n) implies (
    #[trigger] after.families@[f].methods@[n]).method < after.methods@.len() by {
        if f == key && n == name {
        } else {
            assert(before.families@[f].methods@[n].method < before.methods@.len());
        }
    }
    assert forall|f: Symbol| after.families@.contains_key(f) implies (
    #[trigger] after.families@[f]).wf() by {
        assert(before.families@[f].wf());
    }
}

/// The tables after the dispatcher of a family's method was asked for: its id,
/// reserved on first need.
pub open spec fn family_dispatcher_known(
    table: &FamilyTable,
    table_after: &FamilyTable,
    synth: &SynthTable,
    synth_after: &SynthTable,
    family: EnumId,
    method: Symbol,
    id: FuncId,
) -> bool {
    let entry = table.entry(family, method)->0;
    match entry.dispatcher {
        Some(known) => id == known && *table_after == *table && *synth_after == *synth,
        None => {
            &&& id.0 == synth.base + synth.rows@.len()
            &&& synth_after.base == synth.base
            &&& synth_after.rows@ == synth.rows@.push(None)
            &&& entry_replaced(
                table,
                table_after,
                table.key_of(family)->0,
                method,
                MethodEntry { dispatcher: Some(id), ..entry },
            )
        },
    }
}

/// The dispatcher of a family's per-variant method, reserving its id on first
/// need.
pub fn construct_dispatcher_for(
    table: &mut FamilyTable,
    synth: &mut SynthTable,
    family: EnumId,
    method: Symbol,
) -> (id: FuncId)
    requires
        old(table).wf(),
        old(synth).wf(),
        old(synth).base + old(synth).rows@.len() < u32::MAX,
        old(table).entry(family, method) is Some,
    ensures
        final(table).wf(),
        final(synth).wf(),
        family_dispatcher_known(
            old(table),
            final(table),
            old(synth),
            final(synth),
            family,
            method,
            id,
        ),
        final(table).entry(family, method) == Some(
            (MethodEntry { dispatcher: Some(id), ..old(table).entry(family, method)->0 }),
        ),
{
    let at: usize = match table.find_family(family) {
        Some(at) => at,
        None => 0,
    };
    proof {
        lemma_row(table.families.rows@, at as int);
        assert(table.families@[table.families.rows@[at as int].0].wf());
    }
    let k: usize = match table.families.rows[at].1.methods.find(method) {
        Some(k) => k,
        None => 0,
    };
    proof {
        lemma_row(table.families.rows@[at as int].1.methods.rows@, k as int);
    }
    let entry: MethodEntry = table.families.rows[at].1.methods.rows[k].1;
    if let Some(known) = entry.dispatcher {
        return known;
    }
    let ghost before = *table;
    let id = synth.reserve_synth();
    let replaced = MethodEntry { dispatcher: Some(id), ..entry };
    proof {
        let key = table.families.rows@[at as int].0;
        assert(table.families@[key].methods@[method].method < table.methods@.len());
    }
    table.families.rows[at].1.methods.rows[k] = (method, replaced);
    proof {
        lemma_entry_replaced(&before, table, at as int, k as int, replaced);
    }
    id
}

/// The parameter trailing children fill: the last one, where it is written
/// `some X` or `[some X]`.
#[derive(Clone, Copy, PartialEq, Eq, Structural, Debug)]
pub struct InitContent {
    /// Which parameter it is.
    pub slot: usize,
    /// Whether it holds an ordered list rather than exactly one child.
    pub list: bool,
    /// The type each child must satisfy.
    pub element: Type,
}

/// The content parameter among parameters written as `written`.
pub open spec fn content_of(refs: &TypeRefs, written: Seq<crate::families::MethodParam>) -> Option<
    InitContent,
> {
    if written.len() == 0 {
        None
    } else {
        let meaning = refs.meaning(written.last().ty);
        if meaning.some {
            Some(
                InitContent {
                    slot: (written.len() - 1) as usize,
                    list: meaning.list_of is Some,
                    element: match meaning.list_of {
                        Some(element) => element,
                        None => meaning.ty,
                    },
                },
            )
        } else {
            None
        }
    }
}

/// The content parameter of a family method, when its last parameter is one.
///
/// It is read off what was written, because `some X` and `Any X` resolve to the
/// same type.
pub fn family_method_content(refs: &TypeRefs, method: &FamilyMethod) -> (content: Option<
    InitContent,
>)
    ensures
        content == content_of(refs, method.written@),
{
    let count: usize = method.written.len();
    if count == 0 {
        return None;
    }
    let meaning = refs.resolve(method.written[count - 1].ty);
    if !meaning.some {
        return None;
    }
    let (element, list): (Type, bool) = match meaning.list_of {
        Some(element) => (element, true),
        None => (meaning.ty, false),
    };
    Some(InitContent { slot: count - 1, list, element })
}

/// Everything a call on a family value needs of the method it reaches.
#[derive(Debug)]
pub struct FamilyCallee {
    pub function: FuncId,
    pub family: EnumId,
    pub method: Symbol,
    pub params: Vec<Type>,
    pub ownership: Vec<OwnershipMode>,
    pub defaults: Vec<Option<HirExprId>>,
    pub result: Type,
    pub mutates: bool,
    pub content: Option<InitContent>,
}

/// How a call on a family value goes on.
#[derive(Debug)]
pub enum FamilyCall {
    /// It was refused; its arguments are still looked at, and its value is the
    /// error node.
    Refused,
    /// The method is a modifier whose body was never reserved; its value is the
    /// error node.
    Unbuilt,
    /// The arguments are analyzed against the parameters.
    Calls(FamilyCallee),
}

/// The call goes on as `callee` says it does, for a method held as `entry`.
pub open spec fn calls_method(
    callee: FamilyCallee,
    refs: &TypeRefs,
    family: EnumId,
    name: Symbol,
    method: FamilyMethod,
    result: Type,
) -> bool {
    &&& callee.family == family
    &&& callee.method == name
    &&& callee.params@ == method.params@
    &&& callee.ownership@ == method.ownership@
    &&& callee.defaults@ == method.defaults@
    &&& callee.result == result
    &&& callee.mutates == method.mutates_self
    &&& callee.content == content_of(refs, method.written@)
}

/// Decides a method call on a family value.
///
/// A requirement written without a result type says nothing about what an
/// implementation gives back, so there is no one type such a call could have. A
/// modifier has one body called directly; a per-variant method is reached
/// through a synthesized tag dispatcher.
pub fn begin_family_call(
    table: &mut FamilyTable,
    synth: &mut SynthTable,
    refs: &TypeRefs,
    family: EnumId,
    name: Symbol,
    span: Span,
    log: &mut Log,
) -> (call: FamilyCall)
    requires
        old(table).wf(),
        old(synth).wf(),
        old(synth).base + old(synth).rows@.len() < u32::MAX,
    ensures
        final(table).wf(),
        final(synth).wf(),
        final(log).source == old(log).source,
        match old(table).entry(family, name) {
            None => call is Refused && *final(table) == *old(table) && *final(synth) == *old(synth)
                && final(log).reported(
                old(log),
                old(log).source,
                span,
                (Problem::NoFamilyMethod { family: Type::Enum(family), method: name }),
            ),
            Some(entry) => {
                let method = old(table).methods@[entry.method as int];
                match method.promised_result() {
                    None => call is Refused && *final(table) == *old(table) && *final(synth)
                        == *old(synth) && final(log).reported(
                        old(log),
                        old(log).source,
                        span,
                        (Problem::FamilyCallHasNoType {
                            family: Type::Enum(family),
                            method: name,
                        }),
                    ),
                    Some(result) => final(log).quiet(old(log)) && if entry.uniform {
                        *final(table) == *old(table) && *final(synth) == *old(synth)
                            && match entry.dispatcher {
                            Some(body) => (call matches FamilyCall::Calls(callee)
                                && callee.function == body && calls_method(
                                callee,
                                refs,
                                family,
                                name,
                                method,
                                result,
                            )),
                            None => call is Unbuilt,
                        }
                    } else {
                        (call matches FamilyCall::Calls(callee) && family_dispatcher_known(
                            old(table),
                            final(table),
                            old(synth),
                            final(synth),
                            family,
                            name,
                            callee.function,
                        ) && calls_method(callee, refs, family, name, method, result))
                    },
                }
            },
        },
{
    let entry = match table.find_entry(family, name) {
        Some(entry) => entry,
        None => {
            log.emit(
                span,
                Problem::NoFamilyMethod { family: Type::Enum(family), method: name },
            );
            return FamilyCall::Refused;
        },
    };
    let result = match table.methods[entry.method as usize].constrained_result() {
        Some(result) => result,
        None => {
            log.emit(
                span,
                Problem::FamilyCallHasNoType { family: Type::Enum(family), method: name },
            );
            return FamilyCall::Refused;
        },
    };
    let function: FuncId = if entry.uniform {
        match entry.dispatcher {
            Some(body) => body,
            None => {
                return FamilyCall::Unbuilt;
            },
        }
    } else {
        construct_dispatcher_for(table, synth, family, name)
    };
    let method = &table.methods[entry.method as usize];
    FamilyCall::Calls(
        FamilyCallee {
            function,
            family,
            method: name,
            params: copied(&method.params),
            ownership: copied(&method.ownership),
            defaults: copied(&method.defaults),
            result,
            mutates: method.mutates_self,
            content: family_method_content(refs, method),
        },
    )
}

/// How the call's callee is named in what is reported.
pub open spec fn callee_name(callee: &FamilyCallee) -> CalleeName {
    CalleeName::Method { owner: Type::Enum(callee.family), method: callee.method }
}

/// The default of parameter `index`, if it has one.
pub open spec fn default_of(defaults: Seq<Option<HirExprId>>, index: int) -> Option<HirExprId> {
    if 0 <= index < defaults.len() {
        defaults[index]
    } else {
        None
    }
}

fn default_at(defaults: &Vec<Option<HirExprId>>, index: usize) -> (default: Option<HirExprId>)
    ensures
        default == default_of(defaults@, index as int),
{
    if index < defaults.len() {
        defaults[index]
    } else {
        None
    }
}

/// `value` stands for argument `index`: what was written, the parameter's default
/// where nothing was, or the error node where there is neither.
pub open spec fn argument_filled(
    program: &HirProgram,
    slots: Seq<Option<HirExprId>>,
    defaults: Seq<Option<HirExprId>>,
    index: int,
    value: HirExprId,
) -> bool {
    match slots[index] {
        Some(written) => value == written,
        None => match default_of(defaults, index) {
            Some(default) => value == default,
            None => program.has_expr(value) && program.at(value) == HirExpr::Error,
        },
    }
}

/// `values` with trailing defaults added, left to right, up to the first
/// parameter with none.
pub open spec fn defaults_added(
    values: Seq<HirExprId>,
    defaults: Seq<Option<HirExprId>>,
    arity: int,
) -> Seq<HirExprId>
    decreases arity + 1 - values.len(),
{
    if values.len() - 1 < arity {
        match default_of(defaults, values.len() - 1) {
            Some(default) => defaults_added(values.push(default), defaults, arity),
            None => values,
        }
    } else {
        values
    }
}

/// What was written: the receiver, an entry for each parenthesized argument, and
/// the value the trailing children come to.
pub open spec fn written_arguments(
    program: &HirProgram,
    receiver: HirExprId,
    slots: Seq<Option<HirExprId>>,
    defaults: Seq<Option<HirExprId>>,
    content: Option<HirExprId>,
    values: Seq<HirExprId>,
) -> bool {
    &&& values.len() == 1 + slots.len() + (if content is Some {
        1int
    } else {
        0int
    })
    &&& values[0] == receiver
    &&& forall|k: int|
        0 <= k < slots.len() ==> argument_filled(
            program,
            slots,
            defaults,
            k,
            #[trigger] values[k + 1],
        )
    &&& content matches Some(value) ==> values.last() == value
}

/// Every default names an expression of the program.
pub open spec fn defaults_exist(program: &HirProgram, defaults: Seq<Option<HirExprId>>) -> bool {
    forall|k: int|
        0 <= k < defaults.len() ==> ((#[trigger] defaults[k]) matches Some(id)
            ==> program.has_expr(id))
}

/// Lists the arguments of a call on a family value: the receiver, what was
/// written, the trailing content, and the defaults of what was left out.
///
/// `slots` holds one entry for each parenthesized argument, none where it was
/// skipped. `content` is what the trailing children come to, `children` whether
/// there are any.
pub fn gather_arguments(
    program: &mut HirProgram,
    callee: &FamilyCallee,
    receiver: HirExprId,
    slots: &Vec<Option<HirExprId>>,
    children: bool,
    content: Option<HirExprId>,
    span: Span,
    log: &mut Log,
) -> (values: Vec<HirExprId>)
    requires
        content is Some ==> children && callee.content is Some,
        children && callee.content is Some ==> content is Some,
        old(program).exprs@.len() + slots@.len() <= u32::MAX,
        old(program).has_expr(receiver),
        defaults_exist(old(program), slots@),
        defaults_exist(old(program), callee.defaults@),
        content matches Some(value) ==> old(program).has_expr(value),
        callee.params@.len() < usize::MAX,
        slots@.len() < usize::MAX - 2,
    ensures
        exists|written: Seq<HirExprId>| #[trigger]
            written_arguments(
                final(program),
                receiver,
                slots@,
                callee.defaults@,
                content,
                written,
            ) && values@ == defaults_added(
                written,
                callee.defaults@,
                callee.params@.len() as int,
            ),
        final(program).built_on(old(program)),
        final(program).stmts == old(program).stmts,
        final(program).exprs@.len() <= old(program).exprs@.len() + slots@.len(),
        values@.len() > 0,
        values@[0] == receiver,
        forall|k: int| 0 <= k < values@.len() ==> final(program).has_expr(#[trigger] values@[k]),
        final(log).source == old(log).source,
        if children && callee.content is None {
            final(log).reported(
                old(log),
                old(log).source,
                span,
                (Problem::TakesNoContent { callee: callee_name(callee) }),
            )
        } else {
            final(log).quiet(old(log))
        },
{
    let ghost start = *program;
    let mut values: Vec<HirExprId> = Vec::new();
    values.push(receiver);
    let mut i: usize = 0;
    while i < slots.len()
        invariant
            i <= slots@.len(),
            start == *old(program),
            slots@.len() < usize::MAX - 2,
            start.exprs@.len() + slots@.len() <= u32::MAX,
            program.built_on(&start),
            program.stmts == start.stmts,
            program.exprs@.len() <= start.exprs@.len() + i,
            defaults_exist(&start, slots@),
            defaults_exist(&start, callee.defaults@),
            values@.len() == 1 + i,
            values@[0] == receiver,
            start.has_expr(receiver),
            forall|k: int| 0 <= k < values@.len() ==> program.has_expr(#[trigger] values@[k]),
            forall|k: int|
                0 <= k < i ==> argument_filled(
                    program,
                    slots@,
                    callee.defaults@,
                    k,
                    #[trigger] values@[k + 1],
                ),
        decreases slots@.len() - i,
    {
        let ghost before = *program;
        let ghost held = values@;
        let value = match slots[i] {
            Some(written) => written,
            None => match default_at(&callee.defaults, i) {
                Some(default) => default,
                None => program.add_expr(HirExpr::Error),
            },
        };
        values.push(value);
        proof {
            assert forall|k: int| 0 <= k < values@.len() implies program.has_expr(
                #[trigger] values@[k],
            ) by {
                if k < held.len() {
                    assert(values@[k] == held[k]);
                    assert(before.has_expr(held[k]));
                } else if let Some(written) = slots@[i as int] {
                    assert(start.has_expr(written));
                } else if let Some(default) = default_of(callee.defaults@, i as int) {
                    assert(callee.defaults@[i as int] == Some(default));
                    assert(start.has_expr(default));
                }
            }
            assert forall|k: int| 0 <= k < i + 1 implies argument_filled(
                program,
                slots@,
                callee.defaults@,
                k,
                #[trigger] values@[k + 1],
            ) by {
                if k < i {
                    assert(values@[k + 1] == held[k + 1]);
                    assert(before.has_expr(held[k + 1]));
                }
            }
        }
        i += 1;
    }
    if let Some(value) = content {
        values.push(value);
    }
    if children && callee.content.is_none() {
        log.emit(
            span,
            Problem::TakesNoContent {
                callee: CalleeName::Method {
                    owner: Type::Enum(callee.family),
                    method: callee.method,
                },
            },
        );
    }
    let ghost written = values@;
    assert(written_arguments(program, receiver, slots@, callee.defaults@, content, written));
    let mut open = true;
    while open && values.len() - 1 < callee.params.len()
        invariant
            program.built_on(&start),
            defaults_exist(&start, callee.defaults@),
            callee.params@.len() < usize::MAX,
            values@.len() > 0,
            values@[0] == receiver,
            forall|k: int| 0 <= k < values@.len() ==> program.has_expr(#[trigger] values@[k]),
            open ==> defaults_added(written, callee.defaults@, callee.params@.len() as int)
                == defaults_added(values@, callee.defaults@, callee.params@.len() as int),
            !open ==> defaults_added(written, callee.defaults@, callee.params@.len() as int)
                == values@,
        decreases (if open {
            1int
        } else {
            0int
        }), callee.params@.len() + 1 - values@.len(),
    {
        match default_at(&callee.defaults, values.len() - 1) {
            Some(default) => {
                assert(callee.defaults@[values@.len() - 1] == Some(default));
                values.push(default);
            },
            None => {
                open = false;
            },
        }
    }
    values
}

/// Where a mutating call carries its receiver back to.
#[derive(Debug)]
pub enum ReceiverPlace {
    /// The receiver was written, and is this storage, or none that can be
    /// written.
    Written(Option<HirPlace>),
    /// Nothing was written: the receiver is the declaration's own.
    Own,
}

/// What the call gives back, after its arguments `args` were settled.
pub open spec fn family_call_node(
    before: &HirProgram,
    callee: &FamilyCallee,
    receiver: HirExprId,
    place: ReceiverPlace,
    args: Seq<HirExprId>,
    node: HirExpr,
) -> bool {
    let calls = (node matches HirExpr::Call { callee: called, args: given, ty, .. } && called
        == Callee::User(callee.function) && given@ == args && ty == callee.result);
    if !callee.mutates {
        calls && node->Call_writebacks@.len() == 0
    } else {
        match place {
            ReceiverPlace::Written(None) => node == HirExpr::Error,
            ReceiverPlace::Written(Some(place)) => calls && node->Call_writebacks@.len() == 1
                && node->Call_writebacks@[0] == (HirWriteback { param: 0, place }),
            ReceiverPlace::Own => match before.at(receiver) {
                HirExpr::Local { local, .. } => calls && node->Call_writebacks@.len() == 1
                    && node->Call_writebacks@[0].param == 0 && whole(
                    node->Call_writebacks@[0].place,
                    local,
                ),
                _ => node == HirExpr::Error,
            },
        }
    }
}

/// The arguments as the callee takes them: each carried into its parameter where
/// there is one for every parameter, and as they are otherwise.
pub open spec fn family_args_settled(
    before: &HirProgram,
    after: &HirProgram,
    lattice: &Lattice,
    callee: &FamilyCallee,
    values: Seq<HirExprId>,
    args: Seq<HirExprId>,
) -> bool {
    if values.len() != callee.params@.len() + 1 {
        args == values
    } else {
        &&& args.len() == values.len()
        &&& args[0] == values[0]
        &&& all_carried(before, after, lattice, values.skip(1), callee.params@, args.skip(1))
    }
}

/// Settles the listed arguments of a call on a family value: checks how many there are
/// and what each is, and carries each into its parameter.
pub fn settle_family_arguments(
    program: &mut HirProgram,
    lattice: &Lattice,
    callee: &FamilyCallee,
    values: Vec<HirExprId>,
    span: Span,
    log: &mut Log,
) -> (args: Vec<HirExprId>)
    requires
        values@.len() > 0,
        forall|k: int| 0 <= k < values@.len() ==> old(program).has_expr(#[trigger] values@[k]),
        old(program).exprs@.len() + values@.len() <= u32::MAX,
        callee.params@.len() < usize::MAX,
    ensures
        final(program).built_on(old(program)),
        final(program).stmts == old(program).stmts,
        final(program).exprs@.len() <= old(program).exprs@.len() + values@.len() - 1,
        args@.len() == values@.len(),
        args@[0] == values@[0],
        forall|k: int| 0 <= k < args@.len() ==> final(program).has_expr(#[trigger] args@[k]),
        family_args_settled(old(program), final(program), lattice, callee, values@, args@),
        final(log).source == old(log).source,
        final(log).diagnostics@ == if values@.len() != callee.params@.len() + 1 {
            old(log).diagnostics@.push(
                blamed(
                    old(log).source,
                    span,
                    Problem::CallArity {
                        callee: callee_name(callee),
                        takes: callee.params@.len() as usize,
                        found: (values@.len() - 1) as usize,
                    },
                ),
            )
        } else {
            old(log).diagnostics@ + noted(
                old(log).source,
                mismatches(
                    old(program),
                    lattice,
                    values@.skip(1),
                    callee.params@,
                    callee_name(callee),
                    span,
                    callee.params@.len() as int,
                ),
            )
        },
{
    let name = CalleeName::Method { owner: Type::Enum(callee.family), method: callee.method };
    if values.len() != callee.params.len() + 1 {
        log.emit(
            span,
            Problem::CallArity {
                callee: name,
                takes: callee.params.len(),
                found: values.len() - 1,
            },
        );
        return values;
    }
    let mut tail: Vec<HirExprId> = Vec::new();
    let mut i: usize = 1;
    while i < values.len()
        invariant
            1 <= i <= values@.len(),
            tail@ == values@.subrange(1, i as int),
        decreases values@.len() - i,
    {
        tail.push(values[i]);
        i += 1;
        assert(tail@ =~= values@.subrange(1, i as int));
    }
    assert(tail@ =~= values@.skip(1));
    let results = carry_arguments(program, lattice, &tail, &callee.params, name, span, log);
    let mut args: Vec<HirExprId> = Vec::new();
    args.push(values[0]);
    crate::lists::extend(&mut args, &results);
    proof {
        assert(args@.skip(1) =~= results@);
        assert forall|k: int| 0 <= k < args@.len() implies program.has_expr(
            #[trigger] args@[k],
        ) by {
            if k > 0 {
                assert(args@[k] == results@[k - 1]);
            } else {
                assert(old(program).has_expr(values@[0]));
            }
        }
    }
    args
}

/// Completes a call on a family value from its settled arguments, the first of which is
/// the receiver, recording where a mutating method's receiver is carried back to. The
/// receiver's place is resolved once the arguments are settled.
pub fn complete_family_call(
    program: &mut HirProgram,
    callee: &FamilyCallee,
    args: Vec<HirExprId>,
    place: ReceiverPlace,
) -> (id: HirExprId)
    requires
        args@.len() > 0,
        old(program).has_expr(args@[0]),
        old(program).exprs@.len() < u32::MAX,
    ensures
        id.0 == old(program).exprs@.len(),
        final(program).built_on(old(program)),
        final(program).stmts == old(program).stmts,
        final(program).has_expr(id),
        family_call_node(old(program), callee, args@[0], place, args@, final(program).at(id)),
{
    let mut writebacks: Vec<HirWriteback> = Vec::new();
    if callee.mutates {
        match place {
            ReceiverPlace::Written(Some(place)) => {
                writebacks.push(HirWriteback { param: 0, place });
            },
            ReceiverPlace::Written(None) => {
                return program.add_expr(HirExpr::Error);
            },
            ReceiverPlace::Own => {
                let own: Option<LocalId> = match &program.exprs[args[0].0 as usize] {
                    HirExpr::Local { local, .. } => Some(*local),
                    _ => None,
                };
                match own {
                    Some(local) => {
                        writebacks.push(
                            HirWriteback {
                                param: 0,
                                place: HirPlace { local, path: Vec::new() },
                            },
                        );
                    },
                    None => {
                        return program.add_expr(HirExpr::Error);
                    },
                }
            },
        }
    }
    program.add_expr(
        HirExpr::Call {
            callee: Callee::User(callee.function),
            args,
            ty: callee.result,
            writebacks,
        },
    )
}

/// Every call of one family method reaches one dispatcher: asking again reserves
/// nothing and gives the same id.
pub proof fn one_dispatcher_per_method(
    before: &FamilyTable,
    asked: &FamilyTable,
    again: &FamilyTable,
    synth: &SynthTable,
    synth_asked: &SynthTable,
    synth_again: &SynthTable,
    family: EnumId,
    method: Symbol,
    first: FuncId,
    second: FuncId,
)
    requires
        before.wf(),
        before.entry(family, method) is Some,
        family_dispatcher_known(before, asked, synth, synth_asked, family, method, first),
        family_dispatcher_known(asked, again, synth_asked, synth_again, family, method, second),
    ensures
        first == second,
        *again == *asked,
        *synth_again == *synth_asked,
{
}

proof fn lemma_defaults_extend(
    values: Seq<HirExprId>,
    defaults: Seq<Option<HirExprId>>,
    arity: int,
)
    requires
        values.len() > 0,
    ensures
        ({
            let all = defaults_added(values, defaults, arity);
            &&& all.len() >= values.len()
            &&& forall|k: int| 0 <= k < values.len() ==> #[trigger] all[k] == values[k]
            &&& forall|k: int|
                values.len() <= k < all.len() ==> default_of(defaults, k - 1) == Some(
                    #[trigger] all[k],
                )
            &&& all.len() == values.len() || all.len() <= arity + 1
            &&& all.len() - 1 < arity ==> all.len() - 1 >= defaults.len() || defaults[all.len() - 1]
                is None
        }),
    decreases arity + 1 - values.len(),
{
    if values.len() - 1 < arity {
        if let Some(default) = default_of(defaults, values.len() - 1) {
            let longer = values.push(default);
            lemma_defaults_extend(longer, defaults, arity);
            let all = defaults_added(longer, defaults, arity);
            assert forall|k: int| 0 <= k < values.len() implies #[trigger] all[k] == values[k] by {
                assert(longer[k] == values[k]);
            }
            assert forall|k: int| values.len() <= k < all.len() implies default_of(defaults, k - 1)
                == Some(#[trigger] all[k]) by {
                if k == values.len() {
                    assert(all[k] == longer[k]);
                }
            }
            assert(all == defaults_added(values, defaults, arity));
        }
    }
}

/// What is passed to a family method is what was written. The receiver comes first. An
/// argument that was written is passed, whether or not its parameter has a default; one
/// that was skipped is its parameter's default, or the error node where it has none. The
/// trailing content follows, and after it only defaults of the parameters not reached
/// yet, up to the first that has none.
pub proof fn a_written_argument_is_passed(
    program: &HirProgram,
    receiver: HirExprId,
    slots: Seq<Option<HirExprId>>,
    defaults: Seq<Option<HirExprId>>,
    arity: int,
    content: Option<HirExprId>,
    written: Seq<HirExprId>,
    values: Seq<HirExprId>,
)
    requires
        written_arguments(program, receiver, slots, defaults, content, written),
        values == defaults_added(written, defaults, arity),
    ensures
        values[0] == receiver,
        values.len() >= 1 + slots.len(),
        forall|k: int|
            #![trigger slots[k]]
            0 <= k < slots.len() && slots[k] is Some ==> slots[k] == Some(values[k + 1]),
        forall|k: int|
            #![trigger slots[k]]
            0 <= k < slots.len() && slots[k] is None && k < defaults.len() && defaults[k] is Some
                ==> defaults[k] == Some(values[k + 1]),
        forall|k: int|
            #![trigger slots[k]]
            0 <= k < slots.len() && slots[k] is None && (k >= defaults.len() || defaults[k] is None)
                ==> program.at(values[k + 1]) == HirExpr::Error,
        content is Some ==> values.len() > slots.len() + 1 && content == Some(
            values[slots.len() as int + 1],
        ),
        forall|k: int|
            #![trigger values[k]]
            written.len() <= k < values.len() ==> defaults[k - 1] == Some(values[k]),
        values.len() == written.len() || values.len() - 1 <= defaults.len(),
        content is None ==> written.len() == 1 + slots.len(),
        content is Some ==> written.len() == 2 + slots.len(),
        values.len() == written.len() || values.len() <= arity + 1,
        values.len() - 1 < arity ==> values.len() - 1 >= defaults.len() || defaults[values.len()
            - 1] is None,
{
    lemma_defaults_extend(written, defaults, arity);
    if values.len() > written.len() {
        assert(default_of(defaults, values.len() - 2) == Some(values[values.len() - 1]));
    }
    assert forall|k: int| #![trigger slots[k]] 0 <= k < slots.len() implies argument_filled(
        program,
        slots,
        defaults,
        k,
        values[k + 1],
    ) by {
        assert(argument_filled(program, slots, defaults, k, written[k + 1]));
    }
    if content is Some {
        assert(values[slots.len() as int + 1] == written[slots.len() as int + 1]);
    }
}

/// A declaration's value reaching a position of a family type is wrapped as the variant it
/// is of that very family, under its tag there; a value of anything else, a declaration
/// that is no variant of the family, and a position of any other type, leave it as it is.
pub proof fn a_declaration_is_wrapped_as_its_variant(
    before: &HirProgram,
    after: &HirProgram,
    families: &FamilyTable,
    constructs: &ConstructTable,
    value: HirExprId,
    family: EnumId,
    id: crate::ty::StructId,
    result: HirExprId,
    i: int,
)
    requires
        family_crossed(
            before,
            after,
            families,
            constructs,
            value,
            Some(Type::Enum(family)),
            result,
        ),
        before.at(value).ty() == Type::Struct(id),
        families.key_of(family) is Some,
        constructs.info(id) is Some,
    ensures
        ({
            let listed = constructs.info(id)->0.families@;
            &&& 0 <= i < listed.len() && listed[i].0 == family && (forall|k: int|
                0 <= k < i ==> (#[trigger] listed[k]).0 != family) ==> after.exprs@
                == before.exprs@.push(
                HirExpr::EnumNew { enum_id: family, tag: listed[i].1, payload: Some(value) },
            ) && result.0 == before.exprs@.len()
            &&& (forall|k: int| 0 <= k < listed.len() ==> (#[trigger] listed[k]).0 != family)
                ==> result == value && *after == *before
        }),
{
    let listed = constructs.info(id)->0.families@;
    crate::families::a_variant_has_its_recorded_tag(listed, family);
    if 0 <= i < listed.len() && listed[i].0 == family && (forall|k: int|
        0 <= k < i ==> (#[trigger] listed[k]).0 != family) {
        if let Some(tag) = tag_in(listed, family) {
            let j = choose|j: int|
                0 <= j < listed.len() && #[trigger] listed[j] == (family, tag) && forall|k: int|
                    0 <= k < j ==> (#[trigger] listed[k]).0 != family;
            if j < i {
                assert(listed[j].0 != family);
            }
            if i < j {
                assert(listed[i].0 != family);
            }
        }
    }
}

/// Nothing but a declaration's value in a family's position is wrapped.
pub proof fn only_a_declaration_is_wrapped(
    before: &HirProgram,
    after: &HirProgram,
    families: &FamilyTable,
    constructs: &ConstructTable,
    value: HirExprId,
    expected: Option<Type>,
    result: HirExprId,
)
    requires
        family_crossed(before, after, families, constructs, value, expected, result),
        !(before.at(value).ty() is Struct) || !(expected matches Some(Type::Enum(family))
            && families.key_of(family) is Some),
    ensures
        result == value,
        *after == *before,
{
}

/// A completed call on a family value calls the method's function with the arguments as
/// settled. A method that mutates its receiver carries it back to the receiver's storage,
/// written or its own, and is an error where there is none; any other carries nothing
/// back.
pub proof fn a_mutating_call_carries_its_receiver_back(
    before: &HirProgram,
    callee: &FamilyCallee,
    receiver: HirExprId,
    place: ReceiverPlace,
    args: Seq<HirExprId>,
    node: HirExpr,
)
    requires
        family_call_node(before, callee, receiver, place, args, node),
    ensures
        node is Error || (node matches HirExpr::Call { callee: called, args: given, ty, writebacks }
            && called == Callee::User(callee.function) && given@ == args && ty == callee.result && (
        !callee.mutates ==> writebacks@.len() == 0) && (callee.mutates ==> writebacks@.len() == 1
            && writebacks@[0].param == 0)),
        node is Error ==> callee.mutates && (place is Own && !(before.at(receiver) is Local)
            || place == ReceiverPlace::Written(None)),
        callee.mutates ==> (place matches ReceiverPlace::Written(Some(at)) ==> (
        node matches HirExpr::Call { writebacks, .. } && writebacks@[0].place == at)),
        callee.mutates && place is Own ==> (before.at(receiver) matches HirExpr::Local {
            local,
            ..
        } ==> (node matches HirExpr::Call { writebacks, .. } && writebacks@[0].place.local == local
            && writebacks@[0].place.path@.len() == 0)),
        callee.mutates && place == ReceiverPlace::Written(None) ==> node is Error,
{
}

/// The settled arguments of a call on a family value keep their places: the receiver is
/// passed as it is, and every other argument is what was listed, carried into its own
/// parameter's type where as many were listed as the method takes.
pub proof fn settled_arguments_keep_their_places(
    before: &HirProgram,
    after: &HirProgram,
    lattice: &Lattice,
    callee: &FamilyCallee,
    values: Seq<HirExprId>,
    args: Seq<HirExprId>,
    k: int,
)
    requires
        family_args_settled(before, after, lattice, callee, values, args),
        values.len() > 0,
    ensures
        args.len() == values.len(),
        args[0] == values[0],
        values.len() != callee.params@.len() + 1 ==> args == values,
        values.len() == callee.params@.len() + 1 && 0 <= k < callee.params@.len()
            ==> crate::arguments::carried(
            before,
            after,
            lattice,
            values[k + 1],
            callee.params@[k],
            args[k + 1],
        ),
{
    if values.len() == callee.params@.len() + 1 && 0 <= k < callee.params@.len() {
        assert(args.skip(1)[k] == args[k + 1]);
        assert(values.skip(1)[k] == values[k + 1]);
    }
}

/// What a call on a family value goes by is the family's own method: its parameters with
/// their modes and defaults, whether it mutates its receiver, and what it promises.
pub proof fn a_family_callee_is_its_method(
    callee: FamilyCallee,
    refs: &TypeRefs,
    family: EnumId,
    name: Symbol,
    method: FamilyMethod,
    result: Type,
    k: int,
)
    requires
        calls_method(callee, refs, family, name, method, result),
    ensures
        callee.family == family,
        callee.method == name,
        callee.result == result,
        callee.mutates == method.mutates_self,
        callee.params@.len() == method.params@.len(),
        0 <= k < method.params@.len() ==> callee.params@[k] == method.params@[k],
        0 <= k < method.ownership@.len() ==> callee.ownership@[k] == method.ownership@[k],
        0 <= k < method.defaults@.len() ==> callee.defaults@[k] == method.defaults@[k],
        callee_name(&callee) == (CalleeName::Method { owner: Type::Enum(family), method: name }),
{
}

/// A family's method takes trailing content exactly if its last parameter is written as
/// content, and then in that parameter: a list of what a list type lists, and otherwise
/// one value of the type.
pub proof fn content_is_the_last_parameter(
    refs: &TypeRefs,
    written: Seq<crate::families::MethodParam>,
)
    requires
        written.len() <= usize::MAX,
    ensures
        content_of(refs, written) is Some <==> written.len() > 0 && refs.meaning(
            written[written.len() - 1].ty,
        ).some,
        content_of(refs, written) matches Some(content) ==> {
            let meaning = refs.meaning(written[written.len() - 1].ty);
            &&& content.slot == written.len() - 1
            &&& content.list <==> meaning.list_of is Some
            &&& meaning.list_of matches Some(element) ==> content.element == element
            &&& meaning.list_of is None ==> content.element == meaning.ty
        },
{
}

/// Asking for a family method's dispatcher gives one and the same function however often
/// it is asked for, and changes no other method.
pub proof fn a_dispatcher_is_reserved_once(
    table: &FamilyTable,
    first: &FamilyTable,
    second: &FamilyTable,
    synth: &SynthTable,
    synth_first: &SynthTable,
    synth_second: &SynthTable,
    family: EnumId,
    method: Symbol,
    other: Symbol,
    id: FuncId,
    again: FuncId,
)
    requires
        family_dispatcher_known(table, first, synth, synth_first, family, method, id),
        family_dispatcher_known(first, second, synth_first, synth_second, family, method, again),
        table.key_of(family) is Some,
        table.families@.contains_key(table.key_of(family)->0),
        table.families@[table.key_of(family)->0].methods@.contains_key(method),
    ensures
        again == id,
        *second == *first,
        *synth_second == *synth_first,
        first.entry(family, method) matches Some(entry) && entry.dispatcher == Some(id)
            && entry.method == table.entry(family, method)->0.method && entry.uniform
            == table.entry(family, method)->0.uniform,
        other != method ==> first.entry(family, other) == table.entry(family, other),
        synth_first.rows@.len() <= synth.rows@.len() + 1,
{
    let key = table.key_of(family)->0;
    assert(first.names == table.names);
    assert(first.key_of(family) == table.key_of(family));
    assert(first.families@.contains_key(key));
}

} // verus!

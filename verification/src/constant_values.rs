//! Collecting module constants, and analyzing each on first demand.
//!
//! Reading a constant whose initializer has not been analyzed analyzes it first,
//! wherever the read sits. A constant met again while its own initializer is still
//! being analyzed has no value to start from, and that cycle is refused.

use vstd::prelude::*;

use crate::callables::NameForm;
use crate::coercion::{admits, coerce_into, coerced};
use crate::constants::{ConstantEntry, ConstantTable};
use crate::diagnostics::{blamed, read_last, Diagnostic, Log, Problem};
use crate::families::names_list;
use crate::fn_types::FnTypeTable;
use crate::hir::{
    FuncId, FunctionName, HirConstant, HirExpr, HirExprId, HirFunction, HirProgram, HirStmt,
    HirStmtId, LocalId,
};
use crate::imports::ImportTable;
use crate::lattice::Lattice;
use crate::names::Symbol;
use crate::scope::{declared_local, FnCtx};
use crate::sig_lookup::DefinitionLink;
use crate::signatures::{CallableSignature, FuncSig, SigTable};
use crate::source::{FileSpan, SourceId, Span};
use crate::symbol_map::{lemma_row, SymbolMap};
use crate::synth::SynthTable;
use crate::ty::{Execution, OwnershipMode, StructId, Type};

verus! {

/// One module constant as written.
#[derive(Clone, Copy, PartialEq, Eq, Structural, Debug)]
pub struct ConstantDecl {
    pub source: SourceId,
    pub name: Symbol,
    pub name_span: Span,
}

/// Whether `sig` is reached by the bare name `name`.
pub open spec fn named_bare(sig: FuncSig, name: Symbol) -> bool {
    sig.indexed && sig.name@.0 == (NameForm::Free { name }) && sig.name@.1.len() == 0
}

/// Whether a function or a foreign callable has `name` in the value namespace.
pub open spec fn function_has(sigs: Seq<FuncSig>, foreign: Seq<Symbol>, name: Symbol) -> bool {
    foreign.contains(name) || exists|i: int| 0 <= i < sigs.len() && named_bare(#[trigger] sigs[i], name)
}

fn is_function_name(sigs: &SigTable, foreign: &Vec<Symbol>, name: Symbol) -> (res: bool)
    ensures
        res == function_has(sigs.sigs@, foreign@, name),
{
    if names_list(foreign, name) {
        return true;
    }
    let wanted = NameForm::Free { name };
    let mut i: usize = 0;
    while i < sigs.sigs.len()
        invariant
            i <= sigs.sigs@.len(),
            wanted == (NameForm::Free { name }),
            forall|k: int| 0 <= k < i ==> !named_bare(#[trigger] sigs.sigs@[k], name),
        decreases sigs.sigs@.len() - i,
    {
        let sig = &sigs.sigs[i];
        if sig.indexed && sig.name.form == wanted && sig.name.copies.len() == 0 {
            assert(named_bare(sigs.sigs@[i as int], name));
            return true;
        }
        i += 1;
    }
    false
}

/// Whether one of `kept` is called `name`.
pub open spec fn constant_has(kept: Seq<ConstantDecl>, name: Symbol) -> bool {
    exists|i: int| 0 <= i < kept.len() && (#[trigger] kept[i]).name == name
}

/// The declarations among the first `count` whose name is free, in order: no
/// function's and no earlier constant's.
pub open spec fn kept_constants(
    sigs: Seq<FuncSig>,
    foreign: Seq<Symbol>,
    decls: Seq<ConstantDecl>,
    count: int,
) -> Seq<ConstantDecl>
    decreases count,
{
    if count <= 0 {
        Seq::empty()
    } else {
        let before = kept_constants(sigs, foreign, decls, count - 1);
        let decl = decls[count - 1];
        if function_has(sigs, foreign, decl.name) || constant_has(before, decl.name) {
            before
        } else {
            before.push(decl)
        }
    }
}

/// What the declarations among the first `count` are refused for.
pub open spec fn clashes(
    sigs: Seq<FuncSig>,
    foreign: Seq<Symbol>,
    decls: Seq<ConstantDecl>,
    count: int,
) -> Seq<Diagnostic>
    decreases count,
{
    if count <= 0 {
        Seq::empty()
    } else {
        let before = clashes(sigs, foreign, decls, count - 1);
        let decl = decls[count - 1];
        if function_has(sigs, foreign, decl.name) {
            before.push(
                blamed(
                    decl.source,
                    decl.name_span,
                    Problem::ConstantIsFunction { constant: decl.name },
                ),
            )
        } else if constant_has(kept_constants(sigs, foreign, decls, count - 1), decl.name) {
            before.push(
                blamed(
                    decl.source,
                    decl.name_span,
                    Problem::ConstantAlreadyDefined { constant: decl.name },
                ),
            )
        } else {
            before
        }
    }
}

fn has_constant(kept: &Vec<ConstantDecl>, name: Symbol) -> (res: bool)
    ensures
        res == constant_has(kept@, name),
{
    let mut i: usize = 0;
    while i < kept.len()
        invariant
            i <= kept@.len(),
            forall|k: int| 0 <= k < i ==> (#[trigger] kept@[k]).name != name,
        decreases kept@.len() - i,
    {
        if kept[i].name == name {
            return true;
        }
        i += 1;
    }
    false
}

/// Drops every declaration whose name is already taken in the value namespace,
/// reporting each, and keeps the others in declaration order.
pub fn refuse_constant_name_clashes(
    sigs: &SigTable,
    foreign: &Vec<Symbol>,
    decls: &Vec<ConstantDecl>,
    log: &mut Log,
) -> (kept: Vec<ConstantDecl>)
    ensures
        kept@ == kept_constants(sigs.sigs@, foreign@, decls@, decls@.len() as int),
        final(log).diagnostics@ == old(log).diagnostics@ + clashes(
            sigs.sigs@,
            foreign@,
            decls@,
            decls@.len() as int,
        ),
        final(log).source == read_last(
            old(log).source,
            clashes(sigs.sigs@, foreign@, decls@, decls@.len() as int),
        ),
{
    let ghost said = log.diagnostics@;
    let mut kept: Vec<ConstantDecl> = Vec::new();
    let mut i: usize = 0;
    assert(said + Seq::<Diagnostic>::empty() =~= said);
    while i < decls.len()
        invariant
            i <= decls@.len(),
            kept@ == kept_constants(sigs.sigs@, foreign@, decls@, i as int),
            log.diagnostics@ == said + clashes(sigs.sigs@, foreign@, decls@, i as int),
            log.source == read_last(
                old(log).source,
                clashes(sigs.sigs@, foreign@, decls@, i as int),
            ),
        decreases decls@.len() - i,
    {
        let decl = decls[i];
        if is_function_name(sigs, foreign, decl.name) {
            log.source = decl.source;
            log.emit(decl.name_span, Problem::ConstantIsFunction { constant: decl.name });
        } else if has_constant(&kept, decl.name) {
            log.source = decl.source;
            log.emit(decl.name_span, Problem::ConstantAlreadyDefined { constant: decl.name });
        } else {
            kept.push(decl);
        }
        i += 1;
        assert(log.diagnostics@ =~= said + clashes(sigs.sigs@, foreign@, decls@, i as int));
    }
    kept
}

/// How far one constant's analysis has gone.
#[derive(Clone, Copy, PartialEq, Eq, Structural, Debug)]
pub enum ConstantProgress {
    /// Registered; the initializer has not been analyzed yet.
    Pending,
    /// The initializer is being analyzed right now. Reading the constant in this
    /// state is a cycle.
    InProgress,
    /// The type and the initializer function are final.
    Done,
}

/// How far every constant has gone, and which are being analyzed, outermost first.
#[derive(Debug)]
pub struct ConstantWork {
    pub progress: Vec<ConstantProgress>,
    pub stack: Vec<u32>,
}

impl ConstantWork {
    /// The constants being analyzed are those in progress, each once.
    pub open spec fn wf(&self) -> bool {
        &&& self.stack@.no_duplicates()
        &&& forall|k: int|
            0 <= k < self.stack@.len() ==> (#[trigger] self.stack@[k]) < self.progress@.len()
                && self.progress@[self.stack@[k] as int] == ConstantProgress::InProgress
        &&& forall|slot: int|
            0 <= slot < self.progress@.len() && #[trigger] self.progress@[slot]
                == ConstantProgress::InProgress ==> self.stack@.contains(slot as u32)
    }
}

/// The entries, rows and progress of constants that were just registered.
pub open spec fn registered(
    before: &ConstantTable,
    after: &ConstantTable,
    rows_before: Seq<HirConstant>,
    rows_after: Seq<HirConstant>,
    kept: Seq<ConstantDecl>,
    first: int,
    count: int,
) -> bool {
    &&& after.entries@ == before.entries@ + Seq::new(
        count as nat,
        |i: int|
            ConstantEntry {
                ty: Type::Error,
                source: kept[i].source,
                name_span: kept[i].name_span,
            },
    )
    &&& rows_after == rows_before + Seq::new(
        count as nat,
        |i: int|
            HirConstant {
                name: kept[i].name,
                ty: Type::Error,
                init: FuncId((first + i) as u32),
            },
    )
    &&& after.index@ == indexed(before.index@, before.entries@.len() as int, kept, count)
}

/// The names after the first `count` of `kept` got the slots from `from` on.
pub open spec fn indexed(
    names: Map<Symbol, u32>,
    from: int,
    kept: Seq<ConstantDecl>,
    count: int,
) -> Map<Symbol, u32>
    decreases count,
{
    if count <= 0 {
        names
    } else {
        indexed(names, from, kept, count - 1).insert(
            kept[count - 1].name,
            (from + count - 1) as u32,
        )
    }
}

/// Registers every kept constant: a slot in declaration order, its name, and a
/// reserved function to compute it.
pub fn register_constants(
    kept: &Vec<ConstantDecl>,
    table: &mut ConstantTable,
    work: &mut ConstantWork,
    program: &mut HirProgram,
    synth: &mut SynthTable,
)
    requires
        old(table).wf(),
        old(work).wf(),
        old(synth).wf(),
        old(work).progress@.len() == old(table).entries@.len(),
        old(table).entries@.len() + kept@.len() <= u32::MAX,
        old(synth).base + old(synth).rows@.len() + kept@.len() <= u32::MAX,
    ensures
        final(table).wf(),
        final(work).wf(),
        final(synth).wf(),
        registered(
            old(table),
            final(table),
            old(program).constants@,
            final(program).constants@,
            kept@,
            old(synth).base + old(synth).rows@.len(),
            kept@.len() as int,
        ),
        *final(program) == (HirProgram { constants: final(program).constants, ..*old(program) }),
        final(work).stack == old(work).stack,
        final(work).progress@ == old(work).progress@ + Seq::new(
            kept@.len(),
            |i: int| ConstantProgress::Pending,
        ),
        final(synth).base == old(synth).base,
        final(synth).rows@ == old(synth).rows@ + Seq::new(kept@.len(), |i: int| None),
{
    let ghost first = synth.base + synth.rows@.len();
    let ghost from = table.entries@.len() as int;
    let ghost names = table.index@;
    let mut i: usize = 0;
    proof {
        assert(table.entries@ =~= old(table).entries@ + Seq::new(
            0,
            |i: int|
                ConstantEntry {
                    ty: Type::Error,
                    source: kept@[i].source,
                    name_span: kept@[i].name_span,
                },
        ));
        assert(program.constants@ =~= old(program).constants@ + Seq::new(
            0,
            |i: int|
                HirConstant {
                    name: kept@[i].name,
                    ty: Type::Error,
                    init: FuncId((first + i) as u32),
                },
        ));
        assert(work.progress@ =~= old(work).progress@ + Seq::new(
            0,
            |i: int| ConstantProgress::Pending,
        ));
        assert(synth.rows@ =~= old(synth).rows@ + Seq::new(0, |i: int| None));
    }
    while i < kept.len()
        invariant
            i <= kept@.len(),
            first == old(synth).base + old(synth).rows@.len(),
            from == old(table).entries@.len(),
            old(table).entries@.len() + kept@.len() <= u32::MAX,
            old(synth).base + old(synth).rows@.len() + kept@.len() <= u32::MAX,
            table.wf(),
            work.wf(),
            synth.wf(),
            work.progress@.len() == table.entries@.len(),
            table.entries@.len() == from + i,
            registered(
                old(table),
                table,
                old(program).constants@,
                program.constants@,
                kept@,
                first,
                i as int,
            ),
            *program == (HirProgram { constants: program.constants, ..*old(program) }),
            work.stack == old(work).stack,
            work.progress@ == old(work).progress@ + Seq::new(
                i as nat,
                |i: int| ConstantProgress::Pending,
            ),
            synth.base == old(synth).base,
            synth.rows@ == old(synth).rows@ + Seq::new(i as nat, |i: int| None),
        decreases kept@.len() - i,
    {
        let decl = kept[i];
        let ghost was = *work;
        let ghost table_was = *table;
        let init = synth.reserve_synth();
        let slot: u32 = table.entries.len() as u32;
        table.index.insert(decl.name, slot);
        table.entries.push(
            ConstantEntry { ty: Type::Error, source: decl.source, name_span: decl.name_span },
        );
        work.progress.push(ConstantProgress::Pending);
        program.constants.push(HirConstant { name: decl.name, ty: Type::Error, init });
        proof {
            lemma_index_rows(&table_was.index, &table.index, decl.name, slot, from + i + 1);
            assert(work.wf()) by {
                assert forall|k: int| 0 <= k < work.stack@.len() implies (
                #[trigger] work.stack@[k]) < work.progress@.len()
                    && work.progress@[work.stack@[k] as int] == ConstantProgress::InProgress by {
                    assert(was.stack@[k] < was.progress@.len());
                }
                assert forall|s: int|
                    0 <= s < work.progress@.len() && #[trigger] work.progress@[s]
                        == ConstantProgress::InProgress implies work.stack@.contains(s as u32) by {
                    assert(was.progress@[s] == ConstantProgress::InProgress);
                }
            }
            assert(table.entries@ =~= old(table).entries@ + Seq::new(
                (i + 1) as nat,
                |i: int|
                    ConstantEntry {
                        ty: Type::Error,
                        source: kept@[i].source,
                        name_span: kept@[i].name_span,
                    },
            ));
            assert(program.constants@ =~= old(program).constants@ + Seq::new(
                (i + 1) as nat,
                |i: int|
                    HirConstant {
                        name: kept@[i].name,
                        ty: Type::Error,
                        init: FuncId((first + i) as u32),
                    },
            ));
            assert(work.progress@ =~= old(work).progress@ + Seq::new(
                (i + 1) as nat,
                |i: int| ConstantProgress::Pending,
            ));
            assert(synth.rows@ =~= old(synth).rows@ + Seq::new((i + 1) as nat, |i: int| None));
        }
        i += 1;
    }
}

/// Giving one name a slot keeps every indexed name on a slot there is.
proof fn lemma_index_rows(
    before: &SymbolMap<u32>,
    after: &SymbolMap<u32>,
    name: Symbol,
    slot: u32,
    count: int,
)
    requires
        before.wf(),
        after.wf(),
        after@ == before@.insert(name, slot),
        slot < count,
        forall|i: int|
            0 <= i < before.rows@.len() ==> (#[trigger] before.rows@[i]).1 < count,
    ensures
        forall|i: int| 0 <= i < after.rows@.len() ==> (#[trigger] after.rows@[i]).1 < count,
{
    assert forall|i: int| 0 <= i < after.rows@.len() implies (#[trigger] after.rows@[i]).1
        < count by {
        lemma_row(after.rows@, i);
        let key = after.rows@[i].0;
        assert(after@[key] == after.rows@[i].1);
        if key != name {
            assert(after@.contains_key(key));
            assert(before@.contains_key(key));
            let j = choose|j: int| 0 <= j < before.rows@.len() && (#[trigger] before.rows@[j]).0
                == key;
            lemma_row(before.rows@, j);
            assert(before@[key] == before.rows@[j].1);
        }
    }
}

/// How the demand for a constant goes on.
#[derive(Clone, Copy, PartialEq, Eq, Structural, Debug)]
pub enum ConstantStep {
    /// Its type is final.
    Ready,
    /// It is being analyzed already: the demand closed a cycle, which was
    /// reported.
    Cycle,
    /// Its initializer is analyzed now.
    Analyze,
}

/// Where `slot` first stands in `stack` from `from` on.
pub open spec fn stack_place(stack: Seq<u32>, slot: u32, from: int) -> int
    decreases stack.len() - from,
{
    if from < 0 || from >= stack.len() || stack[from] == slot {
        from
    } else {
        stack_place(stack, slot, from + 1)
    }
}

proof fn lemma_stack_place(stack: Seq<u32>, slot: u32, from: int, at: int)
    requires
        0 <= from <= at < stack.len(),
        stack[at] == slot,
    ensures
        from <= stack_place(stack, slot, from) <= at,
        stack[stack_place(stack, slot, from)] == slot,
    decreases stack.len() - from,
{
    if stack[from] != slot {
        lemma_stack_place(stack, slot, from + 1, at);
    }
}

/// The constants on the cycle that reading `slot` closes: those being analyzed from
/// it on.
pub open spec fn cycle_slots(stack: Seq<u32>, slot: u32) -> Seq<u32> {
    stack.skip(stack_place(stack, slot, 0))
}

/// The names of the constants in `slots`.
pub open spec fn slot_names(rows: Seq<HirConstant>, slots: Seq<u32>) -> Seq<Symbol> {
    slots.map_values(|slot: u32| rows[slot as int].name)
}

/// Demands a constant: nothing to do where it is final, a reported cycle where it
/// is being analyzed, and otherwise its analysis begins.
pub fn begin_constant(
    work: &mut ConstantWork,
    table: &ConstantTable,
    program: &HirProgram,
    slot: u32,
    log: &mut Log,
) -> (step: ConstantStep)
    requires
        old(work).wf(),
        slot < old(work).progress@.len(),
        table.entries@.len() == old(work).progress@.len(),
        program.constants@.len() == old(work).progress@.len(),
    ensures
        final(work).wf(),
        step == match old(work).progress@[slot as int] {
            ConstantProgress::Done => ConstantStep::Ready,
            ConstantProgress::InProgress => ConstantStep::Cycle,
            ConstantProgress::Pending => ConstantStep::Analyze,
        },
        match step {
            ConstantStep::Analyze => {
                &&& final(work).progress@ == old(work).progress@.update(
                    slot as int,
                    ConstantProgress::InProgress,
                )
                &&& final(work).stack@ == old(work).stack@.push(slot)
            },
            _ => *final(work) == *old(work),
        },
        match step {
            ConstantStep::Cycle => {
                let entry = table.entries@[slot as int];
                &&& final(log).source == entry.source
                &&& final(log).diagnostics@.len() == old(log).diagnostics@.len() + 1
                &&& final(log).diagnostics@.drop_last() == old(log).diagnostics@
                &&& final(log).diagnostics@.last().at == (crate::source::FileSpan {
                    source: entry.source,
                    span: entry.name_span,
                })
                &&& (final(log).diagnostics@.last().problem matches Problem::ConstantCycle { members }
                    && members@ == slot_names(
                    program.constants@,
                    cycle_slots(old(work).stack@, slot),
                ))
            },
            _ => final(log).quiet(old(log)),
        },
{
    match work.progress[slot as usize] {
        ConstantProgress::Done => ConstantStep::Ready,
        ConstantProgress::InProgress => {
            let ghost stack = work.stack@;
            proof {
                assert(stack.contains(slot));
                let at = choose|at: int| 0 <= at < stack.len() && stack[at] == slot;
                lemma_stack_place(stack, slot, 0, at);
            }
            let mut at: usize = 0;
            while at < work.stack.len() && work.stack[at] != slot
                invariant
                    work.stack@ == stack,
                    at <= stack_place(stack, slot, 0) < stack.len(),
                    stack[stack_place(stack, slot, 0)] == slot,
                    stack_place(stack, slot, 0) == stack_place(stack, slot, at as int),
                decreases stack.len() - at,
            {
                at += 1;
                proof {
                    lemma_place_ahead(stack, slot, at as int);
                }
            }
            let mut members: Vec<Symbol> = Vec::new();
            let ghost whole = cycle_slots(stack, slot);
            let mut k: usize = at;
            assert(stack_place(stack, slot, 0) == at);
            while k < work.stack.len()
                invariant
                    work.stack@ == stack,
                    work.wf(),
                    at <= k <= stack.len(),
                    program.constants@.len() == work.progress@.len(),
                    members@ == slot_names(program.constants@, stack.subrange(at as int, k as int)),
                decreases stack.len() - k,
            {
                assert(stack[k as int] < work.progress@.len());
                members.push(program.constants[work.stack[k] as usize].name);
                k += 1;
                assert(members@ =~= slot_names(
                    program.constants@,
                    stack.subrange(at as int, k as int),
                ));
            }
            assert(members@ =~= slot_names(program.constants@, whole));
            let entry = table.entries[slot as usize];
            log.source = entry.source;
            log.emit(entry.name_span, Problem::ConstantCycle { members });
            assert(log.diagnostics@.drop_last() =~= old(log).diagnostics@);
            ConstantStep::Cycle
        },
        ConstantProgress::Pending => {
            let ghost was = *work;
            work.progress[slot as usize] = ConstantProgress::InProgress;
            work.stack.push(slot);
            proof {
                if was.stack@.contains(slot) {
                    let k = choose|k: int| 0 <= k < was.stack@.len() && was.stack@[k] == slot;
                    assert(was.progress@[was.stack@[k] as int] == ConstantProgress::InProgress);
                }
                assert forall|s: int|
                    0 <= s < work.progress@.len() && #[trigger] work.progress@[s]
                        == ConstantProgress::InProgress implies work.stack@.contains(s as u32) by {
                    if s == slot {
                        assert(work.stack@[work.stack@.len() - 1] == slot);
                    } else {
                        assert(was.progress@[s] == ConstantProgress::InProgress);
                        let k = choose|k: int|
                            0 <= k < was.stack@.len() && was.stack@[k] == s as u32;
                        assert(work.stack@[k] == s as u32);
                    }
                }
                assert forall|k: int| 0 <= k < work.stack@.len() implies (
                #[trigger] work.stack@[k]) < work.progress@.len()
                    && work.progress@[work.stack@[k] as int] == ConstantProgress::InProgress by {
                    if k < was.stack@.len() {
                        assert(was.stack@[k] < was.progress@.len());
                    }
                }
            }
            ConstantStep::Analyze
        },
    }
}

proof fn lemma_place_ahead(stack: Seq<u32>, slot: u32, from: int)
    requires
        0 <= from,
    ensures
        from <= stack_place(stack, slot, from),
    decreases stack.len() - from,
{
    if from < stack.len() && stack[from] != slot {
        lemma_place_ahead(stack, slot, from + 1);
    }
}

/// Ends the analysis of the innermost constant, giving it its type.
pub fn finish_constant(
    work: &mut ConstantWork,
    table: &mut ConstantTable,
    program: &mut HirProgram,
    slot: u32,
    ty: Type,
)
    requires
        old(work).wf(),
        old(table).wf(),
        slot < old(work).progress@.len(),
        old(work).stack@.len() > 0,
        old(work).stack@.last() == slot,
        old(table).entries@.len() == old(work).progress@.len(),
        old(program).constants@.len() == old(work).progress@.len(),
    ensures
        final(work).wf(),
        final(table).wf(),
        final(work).progress@ == old(work).progress@.update(slot as int, ConstantProgress::Done),
        final(work).stack@ == old(work).stack@.drop_last(),
        final(table).entries@ == old(table).entries@.update(
            slot as int,
            ConstantEntry { ty, ..old(table).entries@[slot as int] },
        ),
        final(table).index == old(table).index,
        final(program).constants@ == old(program).constants@.update(
            slot as int,
            HirConstant { ty, ..old(program).constants@[slot as int] },
        ),
        *final(program) == (HirProgram { constants: final(program).constants, ..*old(program) }),
{
    let ghost was = *work;
    work.progress[slot as usize] = ConstantProgress::Done;
    let _ = work.stack.pop();
    let entry = table.entries[slot as usize];
    table.entries[slot as usize] = ConstantEntry { ty, ..entry };
    let row = program.constants[slot as usize];
    program.constants[slot as usize] = HirConstant { ty, ..row };
    proof {
        assert(work.stack@ =~= was.stack@.drop_last());
        assert forall|k: int| 0 <= k < work.stack@.len() implies (#[trigger] work.stack@[k])
            < work.progress@.len() && work.progress@[work.stack@[k] as int]
            == ConstantProgress::InProgress by {
            assert(was.stack@[k] < was.progress@.len());
            assert(was.stack@[k] != was.stack@[was.stack@.len() - 1]);
        }
        assert forall|s: int|
            0 <= s < work.progress@.len() && #[trigger] work.progress@[s]
                == ConstantProgress::InProgress implies work.stack@.contains(s as u32) by {
            assert(was.progress@[s] == ConstantProgress::InProgress);
            let k = choose|k: int| 0 <= k < was.stack@.len() && was.stack@[k] == s as u32;
            assert(work.stack@[k] == s as u32);
        }
    }
}

/// What settling a constant's initializer reports: an annotation the value does
/// not fit, and a type whose values have exactly one owner.
pub open spec fn constant_said(
    source: SourceId,
    lattice: &Lattice,
    declared: Option<Type>,
    found: Type,
    span: Span,
) -> Seq<Diagnostic> {
    let ty = match declared {
        Some(annotation) => annotation,
        None => found,
    };
    (match declared {
        Some(annotation) => if lattice.admits(found, annotation) {
            Seq::empty()
        } else {
            seq![blamed(source, span, Problem::BindingMismatch { annotation, found })]
        },
        None => Seq::empty(),
    }) + (if lattice.user_drop@.contains(ty) {
        seq![blamed(source, span, Problem::ConstantRunsDrop { ty })]
    } else {
        Seq::empty()
    })
}

/// Settles a constant from its analyzed initializer: its type is the annotation,
/// or the value's where none was written, and the value is carried into it.
pub fn settle_constant(
    program: &mut HirProgram,
    lattice: &Lattice,
    declared: Option<Type>,
    value: HirExprId,
    name_span: Span,
    log: &mut Log,
) -> (settled: (Type, HirExprId))
    requires
        old(program).has_expr(value),
        old(program).exprs@.len() < u32::MAX,
    ensures
        settled.0 == match declared {
            Some(annotation) => annotation,
            None => old(program).type_at(value),
        },
        coerced(old(program), final(program), lattice, value, settled.0, settled.1),
        final(program).built_on(old(program)),
        final(program).has_expr(settled.1),
        final(log).source == old(log).source,
        final(log).diagnostics@ == old(log).diagnostics@ + constant_said(
            old(log).source,
            lattice,
            declared,
            old(program).type_at(value),
            name_span,
        ),
{
    let ghost said = log.diagnostics@;
    let found = program.type_of(value);
    let ty = match declared {
        Some(annotation) => {
            if !admits(lattice, found, annotation) {
                log.emit(name_span, Problem::BindingMismatch { annotation, found });
            }
            annotation
        },
        None => found,
    };
    let result = coerce_into(program, lattice, value, ty);
    if lattice.runs_user_drop(ty) {
        log.emit(name_span, Problem::ConstantRunsDrop { ty });
    }
    assert(log.diagnostics@ =~= said + constant_said(
        log.source,
        lattice,
        declared,
        found,
        name_span,
    ));
    (ty, result)
}

/// `function` computes one constant: what its initializer queued, the value bound
/// to a hidden slot, what the initializer deferred, and the value given back.
pub open spec fn computes(
    before: &HirProgram,
    after: &HirProgram,
    ctx: &FnCtx,
    function: HirFunction,
    name: Symbol,
    ty: Type,
    value: HirExprId,
    span: Span,
) -> bool {
    let slot = LocalId(ctx.locals@.len() as u32);
    let bind = HirStmtId(before.stmts@.len() as u32);
    let give = HirStmtId((before.stmts@.len() + 1) as u32);
    &&& after.stmts@ == before.stmts@.push(HirStmt::Let { local: slot, init: value }).push(
        HirStmt::Return { value: Some(HirExprId(before.exprs@.len() as u32)) },
    )
    &&& after.exprs@ == before.exprs@.push(HirExpr::Local { local: slot, ty })
    &&& function.name == FunctionName::ConstantInit(name)
    &&& function.param_count == 0
    &&& function.return_type == ty
    &&& function.locals@ == ctx.locals@.push(
        declared_local(None, ty, false, OwnershipMode::Owned),
    )
    &&& function.body@ == ctx.pending_stmts@ + seq![bind] + ctx.deferred_stmts@ + seq![give]
    &&& !function.is_main
    &&& !function.is_main_thread
    &&& !function.is_async
    &&& function.execution == Execution::Inherited
    &&& !function.mutates_self
    &&& function.name_span == span
    &&& function.signature.is_synthesized(function.return_type)
}

/// Builds the function that computes one constant's value.
///
/// The value is bound before it is given back, so that what the initializer
/// deferred runs between the two, exactly as around an ordinary statement.
pub fn constant_init(
    program: &mut HirProgram,
    mut ctx: FnCtx,
    name: Symbol,
    ty: Type,
    value: HirExprId,
    name_span: Span,
) -> (function: HirFunction)
    requires
        ctx.wf(),
        ctx.locals@.len() < u32::MAX,
        old(program).room(2),
    ensures
        computes(old(program), final(program), &ctx, function, name, ty, value, name_span),
        final(program).built_on(old(program)),
{
    let ghost start = ctx;
    let mut body = ctx.take_pending_stmts();
    let deferred = ctx.take_deferred_stmts();
    let slot = ctx.declare_hidden(ty, false);
    let bind = program.add_stmt(HirStmt::Let { local: slot, init: value });
    let read = program.add_expr(HirExpr::Local { local: slot, ty });
    let give = program.add_stmt(HirStmt::Return { value: Some(read) });
    body.push(bind);
    crate::lists::extend(&mut body, &deferred);
    body.push(give);
    assert(body@ =~= start.pending_stmts@ + seq![bind] + start.deferred_stmts@ + seq![give]);
    HirFunction {
        name: FunctionName::ConstantInit(name),
        param_count: 0,
        return_type: ty,
        locals: ctx.locals,
        body,
        is_main: false,
        is_main_thread: false,
        is_async: false,
        execution: Execution::Inherited,
        mutates_self: false,
        name_span,
        signature: CallableSignature::synthesized(ty),
    }
}

/// The slot a constant's name reaches from `source`, where it is visible there: a
/// constant of another package is nameable only from a file that imports it.
pub open spec fn constant_seen(
    table: &ConstantTable,
    imports: &ImportTable,
    source: SourceId,
    name: Symbol,
) -> Option<u32> {
    if table.index@.contains_key(name) && imports.seen(
        source,
        table.entries@[table.index@[name] as int].source,
    ) {
        Some(table.index@[name])
    } else {
        None
    }
}

/// The slot of the constant called `name`, whoever may see it.
pub fn constant_slot(table: &ConstantTable, name: Symbol) -> (slot: Option<u32>)
    requires
        table.wf(),
    ensures
        slot == if table.index@.contains_key(name) {
            Some(table.index@[name])
        } else {
            None
        },
        slot matches Some(at) ==> at < table.entries@.len(),
{
    match table.index.find(name) {
        Some(i) => Some(table.index.rows[i].1),
        None => None,
    }
}

/// The type of the constant called `name`, where it is visible from `source`. Its
/// analysis has been demanded before.
pub fn constant_type(
    table: &ConstantTable,
    imports: &ImportTable,
    source: SourceId,
    name: Symbol,
) -> (ty: Option<Type>)
    requires
        table.wf(),
    ensures
        ty == match constant_seen(table, imports, source, name) {
            Some(slot) => Some(table.entries@[slot as int].ty),
            None => None,
        },
{
    match constant_slot(table, name) {
        Some(slot) => {
            let entry = table.entries[slot as usize];
            if imports.sees(source, entry.source) {
                Some(entry.ty)
            } else {
                None
            }
        },
        None => None,
    }
}

/// The link from a reference at `span` of `source` to the constant it reads.
pub open spec fn constant_link(
    entry: ConstantEntry,
    source: SourceId,
    span: Span,
) -> DefinitionLink {
    DefinitionLink {
        reference: FileSpan { source, span },
        definition: FileSpan { source: entry.source, span: entry.name_span },
    }
}

/// Reads the constant called `name`, where it is visible from `source`.
pub fn constant_read(
    program: &mut HirProgram,
    table: &ConstantTable,
    imports: &ImportTable,
    source: SourceId,
    name: Symbol,
    span: Span,
    definitions: &mut Vec<DefinitionLink>,
) -> (read: Option<HirExprId>)
    requires
        table.wf(),
        old(program).exprs@.len() < u32::MAX,
    ensures
        match constant_seen(table, imports, source, name) {
            Some(slot) => {
                &&& read == Some(HirExprId(old(program).exprs@.len() as u32))
                &&& final(program).exprs@ == old(program).exprs@.push(
                    HirExpr::ConstantGet { constant: slot, ty: table.entries@[slot as int].ty },
                )
                &&& *final(program) == (HirProgram {
                    exprs: final(program).exprs,
                    ..*old(program)
                })
                &&& final(definitions)@ == old(definitions)@.push(
                    constant_link(table.entries@[slot as int], source, span),
                )
            },
            None => read is None && *final(program) == *old(program) && final(definitions)@ == old(
                definitions)@,
        },
{
    match constant_slot(table, name) {
        Some(slot) => {
            let entry = table.entries[slot as usize];
            if !imports.sees(source, entry.source) {
                return None;
            }
            definitions.push(
                DefinitionLink {
                    reference: FileSpan { source, span },
                    definition: FileSpan { source: entry.source, span: entry.name_span },
                },
            );
            Some(program.add_expr(HirExpr::ConstantGet { constant: slot, ty: entry.ty }))
        },
        None => None,
    }
}

/// The value a call of `name` goes through, when it is a visible constant that
/// holds a function value.
pub fn analyze_constant_closure_call(
    program: &mut HirProgram,
    table: &ConstantTable,
    imports: &ImportTable,
    fn_types: &FnTypeTable,
    source: SourceId,
    name: Symbol,
    span: Span,
    definitions: &mut Vec<DefinitionLink>,
) -> (callee: Option<(HirExprId, StructId)>)
    requires
        table.wf(),
        old(program).exprs@.len() < u32::MAX,
    ensures
        ({
            let held = match constant_seen(table, imports, source, name) {
                Some(slot) => fn_types.function_repr(table.entries@[slot as int].ty),
                None => None,
            };
            match held {
                Some(repr) => {
                    let slot = constant_seen(table, imports, source, name)->0;
                    &&& callee == Some((HirExprId(old(program).exprs@.len() as u32), repr))
                    &&& final(program).exprs@ == old(program).exprs@.push(
                        HirExpr::ConstantGet {
                            constant: slot,
                            ty: table.entries@[slot as int].ty,
                        },
                    )
                    &&& *final(program) == (HirProgram {
                        exprs: final(program).exprs,
                        ..*old(program)
                    })
                    &&& final(definitions)@ == old(definitions)@.push(
                        constant_link(table.entries@[slot as int], source, span),
                    )
                },
                None => callee is None && *final(program) == *old(program) && final(definitions)@
                    == old(definitions)@,
            }
        }),
{
    let ty = match constant_type(table, imports, source, name) {
        Some(ty) => ty,
        None => {
            return None;
        },
    };
    let repr = match fn_types.as_function_type(ty) {
        Some(repr) => repr,
        None => {
            return None;
        },
    };
    match constant_read(program, table, imports, source, name, span, definitions) {
        Some(read) => Some((read, repr)),
        None => None,
    }
}

/// Constants and functions share one namespace: no constant that is kept has a
/// function's name, and no two have one name.
pub proof fn kept_names_are_free(
    sigs: Seq<FuncSig>,
    foreign: Seq<Symbol>,
    decls: Seq<ConstantDecl>,
    count: int,
    i: int,
    j: int,
)
    requires
        0 <= count <= decls.len(),
        0 <= i < kept_constants(sigs, foreign, decls, count).len(),
        0 <= j < kept_constants(sigs, foreign, decls, count).len(),
    ensures
        ({
            let kept = kept_constants(sigs, foreign, decls, count);
            &&& !function_has(sigs, foreign, kept[i].name)
            &&& i != j ==> kept[i].name != kept[j].name
        }),
    decreases count,
{
    if count > 0 {
        let before = kept_constants(sigs, foreign, decls, count - 1);
        if i < before.len() && j < before.len() {
            kept_names_are_free(sigs, foreign, decls, count - 1, i, j);
        } else if i < before.len() {
            kept_names_are_free(sigs, foreign, decls, count - 1, i, i);
            assert(before[i].name == kept_constants(sigs, foreign, decls, count)[i].name);
        } else if j < before.len() {
            assert(before[j].name == kept_constants(sigs, foreign, decls, count)[j].name);
        }
    }
}

/// A constant that was finished is never analyzed again: every later demand finds
/// it ready.
pub proof fn a_constant_is_analyzed_once(before: &ConstantWork, after: &ConstantWork, slot: u32)
    requires
        before.wf(),
        slot < before.progress@.len(),
        before.stack@.len() > 0,
        before.stack@.last() == slot,
        after.progress@ == before.progress@.update(slot as int, ConstantProgress::Done),
        after.stack@ == before.stack@.drop_last(),
    ensures
        after.progress@[slot as int] == ConstantProgress::Done,
        !after.stack@.contains(slot),
{
    if after.stack@.contains(slot) {
        let k = choose|k: int| 0 <= k < after.stack@.len() && after.stack@[k] == slot;
        assert(before.stack@[k] == slot);
        assert(before.stack@[before.stack@.len() - 1] == slot);
    }
}

/// `name` is a function's in the value namespace: a foreign callable's, or the bare name
/// of a function that is found by name.
spec fn function_named(sigs: Seq<FuncSig>, foreign: Seq<Symbol>, name: Symbol) -> bool {
    foreign.contains(name) || exists|i: int|
        0 <= i < sigs.len() && (#[trigger] sigs[i]).indexed && sigs[i].name@.0 == (NameForm::Free {
            name,
        }) && sigs[i].name@.1.len() == 0
}

proof fn lemma_function_named(sigs: Seq<FuncSig>, foreign: Seq<Symbol>, name: Symbol)
    ensures
        function_named(sigs, foreign, name) <==> function_has(sigs, foreign, name),
{
    if function_has(sigs, foreign, name) && !foreign.contains(name) {
        let i = choose|i: int| 0 <= i < sigs.len() && named_bare(#[trigger] sigs[i], name);
        assert(sigs[i].indexed);
    }
    if function_named(sigs, foreign, name) && !foreign.contains(name) {
        let i = choose|i: int|
            0 <= i < sigs.len() && (#[trigger] sigs[i]).indexed && sigs[i].name@.0 == (
            NameForm::Free { name }) && sigs[i].name@.1.len() == 0;
        assert(named_bare(sigs[i], name));
    }
}

proof fn lemma_kept_from(
    sigs: Seq<FuncSig>,
    foreign: Seq<Symbol>,
    decls: Seq<ConstantDecl>,
    count: int,
)
    requires
        0 <= count <= decls.len(),
    ensures
        ({
            let kept = kept_constants(sigs, foreign, decls, count);
            &&& forall|k: int|
                #![trigger kept[k]]
                0 <= k < kept.len() ==> exists|i: int|
                    0 <= i < count && kept[k] == #[trigger] decls[i]
            &&& kept.len() + clashes(sigs, foreign, decls, count).len() == count
        }),
    decreases count,
{
    if count > 0 {
        lemma_kept_from(sigs, foreign, decls, count - 1);
        let kept = kept_constants(sigs, foreign, decls, count);
        let before = kept_constants(sigs, foreign, decls, count - 1);
        assert forall|k: int| #![trigger kept[k]] 0 <= k < kept.len() implies exists|i: int|
            0 <= i < count && kept[k] == #[trigger] decls[i] by {
            if k < before.len() {
                assert(kept[k] == before[k]);
                let i = choose|i: int| 0 <= i < count - 1 && before[k] == #[trigger] decls[i];
                assert(kept[k] == decls[i]);
            } else {
                assert(kept[k] == decls[count - 1]);
            }
        }
    }
}

/// A constant is kept exactly if its name is free: it is the first of its name, and no
/// function has that name. Each of the others is refused once.
pub proof fn a_free_name_is_kept(
    sigs: Seq<FuncSig>,
    foreign: Seq<Symbol>,
    decls: Seq<ConstantDecl>,
    count: int,
    i: int,
)
    requires
        0 <= i < count <= decls.len(),
        forall|j: int| 0 <= j < i ==> (#[trigger] decls[j]).name != decls[i].name,
    ensures
        ({
            let kept = kept_constants(sigs, foreign, decls, count);
            &&& !foreign.contains(decls[i].name) && (forall|s: int|
                0 <= s < sigs.len() ==> !((#[trigger] sigs[s]).indexed && sigs[s].name@.0 == (
                NameForm::Free { name: decls[i].name }) && sigs[s].name@.1.len() == 0))
                ==> kept.contains(decls[i])
            &&& foreign.contains(decls[i].name) || (exists|s: int|
                0 <= s < sigs.len() && (#[trigger] sigs[s]).indexed && sigs[s].name@.0 == (
                NameForm::Free { name: decls[i].name }) && sigs[s].name@.1.len() == 0)
                ==> forall|k: int|
                0 <= k < kept.len() ==> (#[trigger] kept[k]).name != decls[i].name
            &&& kept.len() + clashes(sigs, foreign, decls, count).len() == count
        }),
    decreases count,
{
    lemma_kept_from(sigs, foreign, decls, count);
    lemma_function_named(sigs, foreign, decls[i].name);
    let name = decls[i].name;
    let kept = kept_constants(sigs, foreign, decls, count);
    let before = kept_constants(sigs, foreign, decls, count - 1);
    if function_named(sigs, foreign, name) {
        assert forall|k: int| 0 <= k < kept.len() implies (#[trigger] kept[k]).name != name by {
            kept_names_are_free(sigs, foreign, decls, count, k, k);
        }
    } else if i == count - 1 {
        lemma_kept_from(sigs, foreign, decls, count - 1);
        assert(!constant_has(before, name)) by {
            if constant_has(before, name) {
                let k = choose|k: int| 0 <= k < before.len() && (#[trigger] before[k]).name == name;
                let j = choose|j: int| 0 <= j < count - 1 && before[k] == #[trigger] decls[j];
                assert(decls[j].name == name);
            }
        }
        assert(kept[kept.len() - 1] == decls[i]);
    } else {
        a_free_name_is_kept(sigs, foreign, decls, count - 1, i);
        let k = choose|k: int| 0 <= k < before.len() && before[k] == decls[i];
        assert(kept[k] == decls[i]);
    }
}

proof fn lemma_stack_first(stack: Seq<u32>, slot: u32, from: int)
    requires
        0 <= from <= stack.len(),
    ensures
        ({
            let at = stack_place(stack, slot, from);
            &&& from <= at <= stack.len()
            &&& at < stack.len() ==> stack[at] == slot
            &&& forall|k: int| from <= k < at ==> stack[k] != slot
        }),
    decreases stack.len() - from,
{
    if from < stack.len() && stack[from] != slot {
        lemma_stack_first(stack, slot, from + 1);
    }
}

/// The cycle that reading a constant closes is made of the constants being analyzed from
/// that constant on, innermost last: it starts with the one that was read.
pub proof fn a_cycle_starts_with_what_was_read(stack: Seq<u32>, slot: u32)
    requires
        stack.contains(slot),
        stack.no_duplicates(),
    ensures
        cycle_slots(stack, slot).len() > 0,
        cycle_slots(stack, slot)[0] == slot,
        cycle_slots(stack, slot).last() == stack.last(),
        forall|k: int|
            0 <= k < cycle_slots(stack, slot).len() ==> #[trigger] cycle_slots(stack, slot)[k]
                == stack[stack.len() - cycle_slots(stack, slot).len() + k],
{
    lemma_stack_first(stack, slot, 0);
    let k = choose|k: int| 0 <= k < stack.len() && stack[k] == slot;
    assert(stack_place(stack, slot, 0) <= k);
}

/// Settling a constant says nothing exactly if its value fits its annotation, where it
/// has one, and its type is not one whose values run a drop body.
pub proof fn a_settled_constant_fits(
    source: SourceId,
    lattice: &Lattice,
    declared: Option<Type>,
    found: Type,
    span: Span,
)
    ensures
        constant_said(source, lattice, declared, found, span).len() == 0 <==> {
            &&& declared matches Some(annotation) ==> lattice.admits(found, annotation)
                && !lattice.user_drop@.contains(annotation)
            &&& declared is None ==> !lattice.user_drop@.contains(found)
        },
{
}

/// A constant answers to its name only from a file that sees the file declaring it.
pub proof fn a_constant_is_seen_where_its_file_is(
    table: &ConstantTable,
    imports: &ImportTable,
    source: SourceId,
    name: Symbol,
)
    ensures
        constant_seen(table, imports, source, name) matches Some(slot) ==> table.index@.contains_pair(
            name,
            slot,
        ) && imports.visible@.contains((source, table.entries@[slot as int].source)),
        table.index@.contains_key(name) && imports.visible@.contains(
            (source, table.entries@[table.index@[name] as int].source),
        ) ==> constant_seen(table, imports, source, name) is Some,
{
}

/// A constant's initializer function runs what its value queued, then binds the value,
/// then runs what the value deferred, and gives back what was bound.
pub proof fn an_initializer_gives_back_its_value(
    before: &HirProgram,
    after: &HirProgram,
    ctx: &FnCtx,
    function: HirFunction,
    name: Symbol,
    ty: Type,
    value: HirExprId,
    span: Span,
)
    requires
        computes(before, after, ctx, function, name, ty, value, span),
        before.stmts@.len() < u32::MAX - 1,
        before.exprs@.len() < u32::MAX,
        ctx.locals@.len() < u32::MAX,
    ensures
        ({
            let queued = ctx.pending_stmts@.len();
            let body = function.body@;
            let bind = after.stmts@[body[queued as int].0 as int];
            let give = after.stmts@[body.last().0 as int];
            &&& body.len() == queued + ctx.deferred_stmts@.len() + 2
            &&& forall|k: int| 0 <= k < queued ==> #[trigger] body[k] == ctx.pending_stmts@[k]
            &&& forall|k: int|
                0 <= k < ctx.deferred_stmts@.len() ==> body[queued + 1 + k]
                    == #[trigger] ctx.deferred_stmts@[k]
            &&& (bind matches HirStmt::Let { local, init } && init == value && local.0
                == ctx.locals@.len())
            &&& (give matches HirStmt::Return { value: Some(read) } && (
            after.exprs@[read.0 as int] matches HirExpr::Local { local, ty: of } && local.0
                == ctx.locals@.len() && of == ty))
            &&& function.return_type == ty
            &&& function.locals@.len() == ctx.locals@.len() + 1
            &&& function.locals@.last().ty == ty
            &&& function.param_count == 0
        }),
{
    let queued = ctx.pending_stmts@.len();
    let body = function.body@;
    assert(body[queued as int] == HirStmtId(before.stmts@.len() as u32));
    assert(body.last() == HirStmtId((before.stmts@.len() + 1) as u32));
    assert forall|k: int| 0 <= k < ctx.deferred_stmts@.len() implies body[queued + 1 + k]
        == #[trigger] ctx.deferred_stmts@[k] by {}
}

proof fn lemma_indexed(
    names: Map<Symbol, u32>,
    from: int,
    kept: Seq<ConstantDecl>,
    count: int,
    k: int,
    name: Symbol,
)
    requires
        0 <= count <= kept.len(),
    ensures
        0 <= k < count && (forall|j: int|
            k < j < count ==> (#[trigger] kept[j]).name != kept[k].name) ==> indexed(
            names,
            from,
            kept,
            count,
        ).contains_pair(kept[k].name, (from + k) as u32),
        (forall|j: int| 0 <= j < count ==> (#[trigger] kept[j]).name != name) ==> (indexed(
            names,
            from,
            kept,
            count,
        ).contains_key(name) <==> names.contains_key(name)),
    decreases count,
{
    if count > 0 {
        lemma_indexed(names, from, kept, count - 1, k, name);
        if 0 <= k < count - 1 && (forall|j: int|
            k < j < count ==> (#[trigger] kept[j]).name != kept[k].name) {
            assert(kept[count - 1].name != kept[k].name);
        }
        if forall|j: int| 0 <= j < count ==> (#[trigger] kept[j]).name != name {
            assert(kept[count - 1].name != name);
        }
    }
}

/// Registering constants gives each the next slot: an entry in its own file, a row under
/// its own name computed by its own function, and its name then means that slot.
pub proof fn a_registered_constant_is_known_by_its_slot(
    before: &ConstantTable,
    after: &ConstantTable,
    rows_before: Seq<HirConstant>,
    rows_after: Seq<HirConstant>,
    kept: Seq<ConstantDecl>,
    first: int,
    k: int,
)
    requires
        registered(
            before,
            after,
            rows_before,
            rows_after,
            kept,
            first,
            kept.len() as int,
        ),
        0 <= k < kept.len(),
        0 <= first,
        first + kept.len() <= u32::MAX,
    ensures
        after.entries@.len() == before.entries@.len() + kept.len(),
        after.entries@[before.entries@.len() + k].source == kept[k].source,
        after.entries@[before.entries@.len() + k].name_span == kept[k].name_span,
        rows_after[rows_before.len() + k].name == kept[k].name,
        rows_after[rows_before.len() + k].init.0 == first + k,
        (forall|j: int| k < j < kept.len() ==> (#[trigger] kept[j]).name != kept[k].name)
            ==> after.index@.contains_pair(kept[k].name, (before.entries@.len() + k) as u32),
        forall|i: int|
            0 <= i < before.entries@.len() ==> #[trigger] after.entries@[i] == before.entries@[i],
{
    lemma_indexed(
        before.index@,
        before.entries@.len() as int,
        kept,
        kept.len() as int,
        k,
        kept[k].name,
    );
}

/// A cycle of constants is named by the constants in it, in order, and a reference to a
/// constant links to where the constant's name was written.
pub proof fn a_constant_is_named_and_linked(
    rows: Seq<HirConstant>,
    slots: Seq<u32>,
    k: int,
    entry: ConstantEntry,
    source: SourceId,
    span: Span,
)
    ensures
        slot_names(rows, slots).len() == slots.len(),
        0 <= k < slots.len() ==> slot_names(rows, slots)[k] == rows[slots[k] as int].name,
        constant_link(entry, source, span).reference.source == source,
        constant_link(entry, source, span).reference.span == span,
        constant_link(entry, source, span).definition.source == entry.source,
        constant_link(entry, source, span).definition.span == entry.name_span,
{
}

/// What computes a constant takes nothing, gives the constant's type, is known by the
/// constant's name, and has one more slot than its frame had, of that type; it runs what
/// the value needs before binding it, and what it leaves to be done before giving it back.
pub proof fn an_initializer_takes_nothing(
    before: &HirProgram,
    after: &HirProgram,
    ctx: &FnCtx,
    function: HirFunction,
    name: Symbol,
    ty: Type,
    value: HirExprId,
    span: Span,
    k: int,
)
    requires
        computes(before, after, ctx, function, name, ty, value, span),
    ensures
        function.name == FunctionName::ConstantInit(name),
        function.param_count == 0,
        function.return_type == ty,
        function.locals@.len() == ctx.locals@.len() + 1,
        function.locals@.last().ty == ty,
        !function.locals@.last().mutable,
        0 <= k < ctx.locals@.len() ==> function.locals@[k] == ctx.locals@[k],
        !function.is_main,
        function.execution == Execution::Inherited,
        function.body@.len() == ctx.pending_stmts@.len() + ctx.deferred_stmts@.len() + 2,
        0 <= k < ctx.pending_stmts@.len() ==> function.body@[k] == ctx.pending_stmts@[k],
        0 <= k < ctx.deferred_stmts@.len() ==> function.body@[ctx.pending_stmts@.len() + 1 + k]
            == ctx.deferred_stmts@[k],
{
}

} // verus!

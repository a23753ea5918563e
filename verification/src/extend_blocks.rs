//! `extend Family { function … }` modifiers.
//!
//! A modifier is a family-level method with one shared body whose receiver is the
//! family value, distinct from the per-variant methods a family declares. Each
//! becomes one synthesized function called directly.

use vstd::prelude::*;

use crate::diagnostics::{blamed, Diagnostic, Log, Problem};
use crate::families::{FamilyInfo, FamilyMethod, FamilyTable, MethodEntry, MethodParam};
use crate::family_headers::FamilyMethodDecl;
use crate::family_inherit::lemma_replaced;
use crate::hir::{FuncId, FunctionName, HirFunction, HirLocal, HirStmtId};
use crate::jobs::Job;
use crate::lists::copied;
use crate::names::Symbol;
use crate::scope::{declared_local, last_named, lemma_names_its_locals, lookup, names_its_locals, FnCtx};
use crate::signatures::{CallableSignature, ParamSignature, ReceiverSignature, ThreadAffinity};
use crate::source::{SourceId, Span};
use crate::symbol_map::{lemma_row, ordered};
use crate::synth::SynthTable;
use crate::ty::{EnumId, OwnershipMode, Type};

verus! {

/// One modifier as written, with the annotations it has nowhere to carry.
#[derive(Debug)]
pub struct ModifierDecl {
    pub method: FamilyMethodDecl,
    /// Whether an entrypoint annotation decorates it.
    pub entrypoint: bool,
    /// Where it is annotated as exported.
    pub exported: Option<Span>,
    /// Where it is annotated as foreign.
    pub foreign: Option<Span>,
}

/// One `extend` block as written.
#[derive(Debug)]
pub struct ExtendDecl {
    pub source: SourceId,
    pub name: Symbol,
    pub name_span: Span,
    /// Whether the block claims a trait.
    pub conforms: bool,
    /// The key of the family the written name reaches, or the name as written.
    pub key: Symbol,
    /// Whether the program declares a class of that name.
    pub class: bool,
    pub methods: Vec<ModifierDecl>,
}

/// What a modifier's annotations are refused for: an annotation that reaches a
/// body which ignores it is a silent lie about what was compiled.
pub open spec fn annotation_refusals(source: SourceId, modifier: &ModifierDecl) -> Seq<Diagnostic> {
    (if modifier.entrypoint {
        seq![blamed(source, modifier.method.name_span, Problem::ModifierIsEntrypoint)]
    } else {
        Seq::empty()
    }) + (match modifier.exported {
        Some(at) => seq![blamed(source, at, Problem::ModifierIsExported)],
        None => Seq::empty(),
    }) + (match modifier.foreign {
        Some(at) => seq![blamed(source, at, Problem::ModifierIsForeign)],
        None => Seq::empty(),
    })
}

/// `method` is the modifier as written, its types still to be resolved.
pub open spec fn modifier_read(method: FamilyMethod, decl: FamilyMethodDecl, source: SourceId) -> bool {
    &&& method.name_span == decl.name_span
    &&& method.source == source
    &&& !method.computed
    &&& !method.required
    &&& method.written_result == decl.result
    &&& method.mutates_self == decl.mutates_self
    &&& method.execution == decl.execution
    &&& method.written@ == decl.params@
    &&& method.params@.len() == 0
    &&& method.ownership@.len() == 0
    &&& method.result == Type::Error
    &&& method.defaults@.len() == 0
}

/// Whether the family already has a method of the modifier's name.
pub open spec fn modifier_taken(table: &FamilyTable, key: Symbol, name: Symbol) -> bool {
    table.families@[key].methods@.contains_key(name)
}

/// The table after one modifier was registered with a family it has.
pub open spec fn modifier_added(
    before: &FamilyTable,
    after: &FamilyTable,
    key: Symbol,
    decl: FamilyMethodDecl,
    source: SourceId,
) -> bool {
    if modifier_taken(before, key, decl.name) {
        *after == *before
    } else {
        &&& after.families@.dom() == before.families@.dom()
        &&& forall|k: Symbol|
            before.families@.contains_key(k) && k != key ==> #[trigger] after.families@[k]
                == before.families@[k]
        &&& after.families@[key] == (FamilyInfo {
            methods: after.families@[key].methods,
            ..before.families@[key]
        })
        &&& after.families@[key].methods@ == before.families@[key].methods@.insert(
            decl.name,
            MethodEntry {
                method: before.methods@.len() as u32,
                uniform: true,
                dispatcher: None,
            },
        )
        &&& after.methods@.len() == before.methods@.len() + 1
        &&& after.methods@.drop_last() == before.methods@
        &&& modifier_read(after.methods@.last(), decl, source)
        &&& after.names == before.names
    }
}

/// What registering one modifier reports.
pub open spec fn modifier_said(
    table: &FamilyTable,
    key: Symbol,
    modifier: &ModifierDecl,
    source: SourceId,
) -> Seq<Diagnostic> {
    annotation_refusals(source, modifier) + if modifier_taken(table, key, modifier.method.name) {
        seq![
            blamed(
                source,
                modifier.method.name_span,
                Problem::ModifierTaken { family: key, method: modifier.method.name },
            ),
        ]
    } else {
        Seq::empty()
    }
}

/// Registers one modifier, reporting a name the family already gave to a method.
pub fn register_extend_method(
    table: &mut FamilyTable,
    key: Symbol,
    modifier: &ModifierDecl,
    log: &mut Log,
)
    requires
        old(table).wf(),
        old(table).families@.contains_key(key),
        old(table).methods@.len() < u32::MAX,
    ensures
        final(table).wf(),
        modifier_added(old(table), final(table), key, modifier.method, old(log).source),
        final(log).source == old(log).source,
        final(log).diagnostics@ == old(log).diagnostics@ + modifier_said(
            old(table),
            key,
            modifier,
            old(log).source,
        ),
{
    let ghost said = log.diagnostics@;
    let ghost before = *table;
    let decl = &modifier.method;
    if modifier.entrypoint {
        log.emit(decl.name_span, Problem::ModifierIsEntrypoint);
    }
    if let Some(at) = modifier.exported {
        log.emit(at, Problem::ModifierIsExported);
    }
    if let Some(at) = modifier.foreign {
        log.emit(at, Problem::ModifierIsForeign);
    }
    assert(log.diagnostics@ =~= said + annotation_refusals(log.source, modifier));
    let at: usize = match table.families.find(key) {
        Some(at) => at,
        None => 0,
    };
    proof {
        lemma_row(table.families.rows@, at as int);
        assert(table.families@[key].wf());
    }
    if table.families.rows[at].1.methods.contains(decl.name) {
        log.emit(decl.name_span, Problem::ModifierTaken { family: key, method: decl.name });
        assert(log.diagnostics@ =~= said + modifier_said(&before, key, modifier, log.source));
        return ;
    }
    assert(log.diagnostics@ =~= said + modifier_said(&before, key, modifier, log.source));
    let row: u32 = table.methods.len() as u32;
    table.methods.push(
        FamilyMethod {
            name_span: decl.name_span,
            source: log.source,
            computed: false,
            required: false,
            written_result: decl.result,
            mutates_self: decl.mutates_self,
            execution: decl.execution,
            written: copied(&decl.params),
            params: Vec::new(),
            ownership: Vec::new(),
            result: Type::Error,
            defaults: Vec::new(),
        },
    );
    table.families.rows[at].1.methods.insert(
        decl.name,
        MethodEntry { method: row, uniform: true, dispatcher: None },
    );
    proof {
        let rows = before.families.rows@;
        let changed = table.families.rows@;
        assert(ordered(changed)) by {
            assert forall|i: int, j: int| 0 <= i < j < changed.len() implies (
            #[trigger] changed[i]).0.0 < (#[trigger] changed[j]).0.0 by {
                assert(rows[i].0.0 < rows[j].0.0);
            }
        }
        lemma_replaced(rows, changed, at as int);
        lemma_row(rows, at as int);
        lemma_row(changed, at as int);
        assert(table.families@.dom() =~= before.families@.dom());
        assert(table.methods@.drop_last() =~= before.methods@);
        assert forall|f: Symbol, n: Symbol|
            table.families@.contains_key(f) && table.families@[f].methods@.contains_key(
                n,
            ) implies (#[trigger] table.families@[f].methods@[n]).method < table.methods@.len() by {
            if f == key && n == decl.name {
            } else {
                assert(before.families@[f].methods@[n].method < before.methods@.len());
            }
        }
        assert forall|f: Symbol| table.families@.contains_key(f) implies (
        #[trigger] table.families@[f]).wf() by {
            assert(before.families@[f].wf());
        }
    }
}

/// The family table and the log at one point of reading `extend` blocks.
pub struct ExtendState {
    pub table: FamilyTable,
    pub said: Seq<Diagnostic>,
}

/// One modifier was registered between two points.
pub open spec fn modifier_step(
    before: ExtendState,
    after: ExtendState,
    key: Symbol,
    modifier: &ModifierDecl,
    source: SourceId,
) -> bool {
    &&& modifier_added(&before.table, &after.table, key, modifier.method, source)
    &&& after.said == before.said + modifier_said(&before.table, key, modifier, source)
}

/// The first `count` modifiers of a block were registered, in order.
pub open spec fn block_steps(
    trace: Seq<ExtendState>,
    block: ExtendDecl,
    count: int,
) -> bool {
    &&& trace.len() == count + 1
    &&& forall|i: int|
        0 <= i < count ==> modifier_step(
            #[trigger] trace[i],
            trace[i + 1],
            block.key,
            &block.methods@[i],
            block.source,
        )
}

/// Whether a block writes modifiers at all. One that claims a trait gives a type its
/// members instead, unless the name it writes is a family's: a family answers a trait
/// by carrying the member for every declaration backed by it.
pub open spec fn writes_modifiers(table: &FamilyTable, block: ExtendDecl) -> bool {
    !block.conforms || table.families@.contains_key(block.name)
}

/// The file being read once the first `count` blocks were: that of the last one that
/// writes modifiers.
pub open spec fn blocks_source(
    table: &FamilyTable,
    blocks: Seq<ExtendDecl>,
    count: int,
    source: SourceId,
) -> SourceId
    decreases count,
{
    if count <= 0 {
        source
    } else if writes_modifiers(table, blocks[count - 1]) {
        blocks[count - 1].source
    } else {
        blocks_source(table, blocks, count - 1, source)
    }
}

/// One block was read between two points: its modifiers registered in order where
/// it names a family, passed over where it names a class or writes none, and reported
/// otherwise.
pub open spec fn block_read(before: ExtendState, after: ExtendState, block: ExtendDecl) -> bool {
    if !writes_modifiers(&before.table, block) {
        after == before
    } else if before.table.families@.contains_key(block.key) {
        exists|trace: Seq<ExtendState>| #[trigger]
            block_steps(trace, block, block.methods@.len() as int) && trace[0] == before
                && trace.last() == after
    } else {
        &&& after.table == before.table
        &&& after.said == if block.class {
            before.said
        } else {
            before.said.push(
                blamed(
                    block.source,
                    block.name_span,
                    Problem::ExtendsNothing { name: block.key },
                ),
            )
        }
    }
}

/// The first `count` blocks were read, in order.
pub open spec fn blocks_read(
    trace: Seq<ExtendState>,
    blocks: Seq<ExtendDecl>,
    count: int,
) -> bool {
    &&& trace.len() == count + 1
    &&& forall|i: int|
        0 <= i < count ==> block_read(#[trigger] trace[i], trace[i + 1], blocks[i])
}

/// How many modifiers the first `count` blocks write.
pub open spec fn modifiers_written(blocks: Seq<ExtendDecl>, count: int) -> nat
    decreases count,
{
    if count <= 0 {
        0
    } else {
        modifiers_written(blocks, count - 1) + blocks[count - 1].methods@.len()
    }
}

proof fn lemma_written_grows(blocks: Seq<ExtendDecl>, some: int, all: int)
    requires
        some <= all,
    ensures
        modifiers_written(blocks, some) <= modifiers_written(blocks, all),
    decreases all - some,
{
    if some < all {
        lemma_written_grows(blocks, some, all - 1);
    }
}

fn read_block(table: &mut FamilyTable, block: &ExtendDecl, log: &mut Log)
    requires
        old(table).wf(),
        old(table).methods@.len() + block.methods@.len() <= u32::MAX,
    ensures
        final(table).wf(),
        final(table).families@.dom() == old(table).families@.dom(),
        final(table).methods@.len() <= old(table).methods@.len() + block.methods@.len(),
        block_read(
            (ExtendState { table: *old(table), said: old(log).diagnostics@ }),
            (ExtendState { table: *final(table), said: final(log).diagnostics@ }),
            *block,
        ),
        final(log).source == if writes_modifiers(old(table), *block) {
            block.source
        } else {
            old(log).source
        },
{
    let ghost start = ExtendState { table: *table, said: log.diagnostics@ };
    if block.conforms && !table.families.contains(block.name) {
        return ;
    }
    log.source = block.source;
    if !table.families.contains(block.key) {
        if !block.class {
            log.emit(block.name_span, Problem::ExtendsNothing { name: block.key });
        }
        return ;
    }
    let ghost mut trace = seq![start];
    let mut i: usize = 0;
    while i < block.methods.len()
        invariant
            i <= block.methods@.len(),
            table.wf(),
            table.families@.contains_key(block.key),
            table.families@.dom() == start.table.families@.dom(),
            log.source == block.source,
            table.methods@.len() <= start.table.methods@.len() + i,
            start == (ExtendState { table: *old(table), said: old(log).diagnostics@ }),
            writes_modifiers(old(table), *block),
            old(table).families@.contains_key(block.key),
            start.table.methods@.len() + block.methods@.len() <= u32::MAX,
            block_steps(trace, *block, i as int),
            trace[0] == start,
            trace.last() == (ExtendState { table: *table, said: log.diagnostics@ }),
        decreases block.methods@.len() - i,
    {
        let ghost before = trace;
        register_extend_method(table, block.key, &block.methods[i], log);
        proof {
            let now = ExtendState { table: *table, said: log.diagnostics@ };
            trace = before.push(now);
            assert forall|k: int| 0 <= k < i + 1 implies modifier_step(
                #[trigger] trace[k],
                trace[k + 1],
                block.key,
                &block.methods@[k],
                block.source,
            ) by {
                if k < i {
                    assert(modifier_step(
                        before[k],
                        before[k + 1],
                        block.key,
                        &block.methods@[k],
                        block.source,
                    ));
                }
            }
        }
        i += 1;
    }
}

/// Registers every `extend Family { … }` modifier against its family.
///
/// A class is the other thing a block may name; its methods are collected where
/// a class's are.
pub fn collect_extend_blocks(table: &mut FamilyTable, blocks: &Vec<ExtendDecl>, log: &mut Log)
    requires
        old(table).wf(),
        old(table).methods@.len() + modifiers_written(blocks@, blocks@.len() as int) <= u32::MAX,
    ensures
        final(table).wf(),
        exists|trace: Seq<ExtendState>| #[trigger]
            blocks_read(trace, blocks@, blocks@.len() as int) && trace[0] == (ExtendState {
                table: *old(table),
                said: old(log).diagnostics@,
            }) && trace.last() == (ExtendState {
                table: *final(table),
                said: final(log).diagnostics@,
            }),
        final(log).source == blocks_source(
            old(table),
            blocks@,
            blocks@.len() as int,
            old(log).source,
        ),
{
    let ghost start = ExtendState { table: *table, said: log.diagnostics@ };
    let ghost mut trace = seq![start];
    let mut i: usize = 0;
    while i < blocks.len()
        invariant
            i <= blocks@.len(),
            log.source == blocks_source(old(table), blocks@, i as int, old(log).source),
            table.families@.dom() == old(table).families@.dom(),
            table.wf(),
            table.methods@.len() <= start.table.methods@.len() + modifiers_written(
                blocks@,
                i as int,
            ),
            start.table.methods@.len() + modifiers_written(blocks@, blocks@.len() as int)
                <= u32::MAX,
            blocks_read(trace, blocks@, i as int),
            trace[0] == start,
            trace.last() == (ExtendState { table: *table, said: log.diagnostics@ }),
        decreases blocks@.len() - i,
    {
        let ghost before = trace;
        proof {
            lemma_written_grows(blocks@, i + 1, blocks@.len() as int);
        }
        read_block(table, &blocks[i], log);
        proof {
            let now = ExtendState { table: *table, said: log.diagnostics@ };
            trace = before.push(now);
            assert forall|k: int| 0 <= k < i + 1 implies block_read(
                #[trigger] trace[k],
                trace[k + 1],
                blocks@[k],
            ) by {
                if k < i {
                    assert(block_read(before[k], before[k + 1], blocks@[k]));
                }
            }
        }
        i += 1;
    }
}

/// How many modifiers the first `count` methods of a family are.
pub open spec fn modifiers_in(rows: Seq<(Symbol, MethodEntry)>, count: int) -> nat
    decreases count,
{
    if count <= 0 {
        0
    } else {
        modifiers_in(rows, count - 1) + if rows[count - 1].1.uniform {
            1nat
        } else {
            0nat
        }
    }
}

/// How many modifiers the first `count` families have.
pub open spec fn modifiers_of(families: Seq<(Symbol, FamilyInfo)>, count: int) -> nat
    decreases count,
{
    if count <= 0 {
        0
    } else {
        let rows = families[count - 1].1.methods.rows@;
        modifiers_of(families, count - 1) + modifiers_in(rows, rows.len() as int)
    }
}

/// The entries of a family after its modifiers were given bodies from `from` on.
pub open spec fn bodies_given(
    before: Seq<(Symbol, MethodEntry)>,
    after: Seq<(Symbol, MethodEntry)>,
    from: int,
    count: int,
) -> bool {
    &&& after.len() == before.len()
    &&& forall|m: int|
        0 <= m < before.len() ==> (#[trigger] after[m]).0 == before[m].0 && after[m].1 == if m
            < count && before[m].1.uniform {
            MethodEntry {
                dispatcher: Some(FuncId((from + modifiers_in(before, m)) as u32)),
                ..before[m].1
            }
        } else {
            before[m].1
        }
}

/// The families after every modifier of the first `count` of them was given a
/// body, in order, from `from` on.
pub open spec fn families_given(
    before: Seq<(Symbol, FamilyInfo)>,
    after: Seq<(Symbol, FamilyInfo)>,
    from: int,
    count: int,
) -> bool {
    &&& after.len() == before.len()
    &&& forall|f: int|
        0 <= f < before.len() ==> {
            &&& (#[trigger] after[f]).0 == before[f].0
            &&& after[f].1 == (FamilyInfo { methods: after[f].1.methods, ..before[f].1 })
            &&& bodies_given(
                before[f].1.methods.rows@,
                after[f].1.methods.rows@,
                from + modifiers_of(before, f),
                if f < count {
                    before[f].1.methods.rows@.len() as int
                } else {
                    0
                },
            )
        }
}

proof fn lemma_modifiers_grow(families: Seq<(Symbol, FamilyInfo)>, some: int, all: int)
    requires
        some <= all,
    ensures
        modifiers_of(families, some) <= modifiers_of(families, all),
    decreases all - some,
{
    if some < all {
        lemma_modifiers_grow(families, some, all - 1);
    }
}

proof fn lemma_in_grow(rows: Seq<(Symbol, MethodEntry)>, some: int, all: int)
    requires
        some <= all,
    ensures
        modifiers_in(rows, some) <= modifiers_in(rows, all),
    decreases all - some,
{
    if some < all {
        lemma_in_grow(rows, some, all - 1);
    }
}

/// The body of method `m` of family `f`, where it is a modifier whose reserved body is
/// still to be built.
pub open spec fn modifier_waits(
    table: &FamilyTable,
    synth: &SynthTable,
    f: int,
    m: int,
) -> Option<FuncId> {
    let entry = table.families.rows@[f].1.methods.rows@[m].1;
    match entry.dispatcher {
        Some(id) => if entry.uniform && synth.reserved(id) && synth.row(id) is None {
            Some(id)
        } else {
            None
        },
        None => None,
    }
}

/// The modifiers of family `f` waiting for a body, among its first `count` methods, in
/// the order of their names.
pub open spec fn family_modifiers(
    table: &FamilyTable,
    synth: &SynthTable,
    f: int,
    count: int,
) -> Seq<Job>
    decreases count,
{
    if count <= 0 {
        Seq::empty()
    } else {
        let before = family_modifiers(table, synth, f, count - 1);
        match modifier_waits(table, synth, f, count - 1) {
            Some(id) => before.push(
                Job { id, family: f as usize, member: (count - 1) as usize },
            ),
            None => before,
        }
    }
}

/// The modifiers waiting for a body among the first `count` families, in the order of
/// the families' keys.
pub open spec fn waiting_modifiers(
    table: &FamilyTable,
    synth: &SynthTable,
    count: int,
) -> Seq<Job>
    decreases count,
{
    if count <= 0 {
        Seq::empty()
    } else {
        waiting_modifiers(table, synth, count - 1) + family_modifiers(
            table,
            synth,
            count - 1,
            table.families.rows@[count - 1].1.methods.rows@.len() as int,
        )
    }
}

/// Lists the modifiers waiting for a body, by family and then by name, which is the
/// order they are built in.
pub fn modifier_jobs(table: &FamilyTable, synth: &SynthTable) -> (jobs: Vec<Job>)
    requires
        forall|f: int, m: int|
            0 <= f < table.families.rows@.len() && 0 <= m
                < table.families.rows@[f].1.methods.rows@.len() ==> ((
            #[trigger] table.families.rows@[f].1.methods.rows@[m]).1.dispatcher matches Some(id)
                ==> synth.base <= id.0),
    ensures
        jobs@ == waiting_modifiers(table, synth, table.families.rows@.len() as int),
{
    let mut jobs: Vec<Job> = Vec::new();
    let mut f: usize = 0;
    while f < table.families.rows.len()
        invariant
            f <= table.families.rows@.len(),
            forall|f: int, m: int|
                0 <= f < table.families.rows@.len() && 0 <= m
                    < table.families.rows@[f].1.methods.rows@.len() ==> ((
                #[trigger] table.families.rows@[f].1.methods.rows@[m]).1.dispatcher matches Some(
                    id,
                ) ==> synth.base <= id.0),
            jobs@ == waiting_modifiers(table, synth, f as int),
        decreases table.families.rows@.len() - f,
    {
        let ghost before = jobs@;
        let rows = &table.families.rows[f].1.methods.rows;
        let mut m: usize = 0;
        assert(jobs@ =~= before + family_modifiers(table, synth, f as int, 0));
        while m < rows.len()
            invariant
                f < table.families.rows@.len(),
                *rows == table.families.rows@[f as int].1.methods.rows,
                m <= rows@.len(),
                forall|f: int, m: int|
                    0 <= f < table.families.rows@.len() && 0 <= m
                        < table.families.rows@[f].1.methods.rows@.len() ==> ((
                    #[trigger] table.families.rows@[f].1.methods.rows@[m]).1.dispatcher matches Some(
                        id,
                    ) ==> synth.base <= id.0),
                jobs@ == before + family_modifiers(table, synth, f as int, m as int),
            decreases rows@.len() - m,
        {
            let entry: MethodEntry = rows[m].1;
            assert(table.families.rows@[f as int].1.methods.rows@[m as int].1 == entry);
            if let Some(id) = entry.dispatcher {
                if entry.uniform && synth.synth_needs_body(id) {
                    jobs.push(Job { id, family: f, member: m });
                }
            }
            m += 1;
            assert(jobs@ =~= before + family_modifiers(table, synth, f as int, m as int));
        }
        f += 1;
    }
    jobs
}

/// A modifier is listed exactly where its body is reserved and not built.
pub proof fn waiting_modifiers_are_all(table: &FamilyTable, synth: &SynthTable, f: int, m: int)
    requires
        0 <= f < table.families.rows@.len() <= usize::MAX,
        0 <= m < table.families.rows@[f].1.methods.rows@.len() <= usize::MAX,
    ensures
        modifier_waits(table, synth, f, m) matches Some(id) ==> waiting_modifiers(
            table,
            synth,
            table.families.rows@.len() as int,
        ).contains(Job { id, family: f as usize, member: m as usize }),
{
    if let Some(id) = modifier_waits(table, synth, f, m) {
        let job = Job { id, family: f as usize, member: m as usize };
        lemma_family_lists(
            table,
            synth,
            f,
            m,
            table.families.rows@[f].1.methods.rows@.len() as int,
            job,
        );
        lemma_families_list(table, synth, f, table.families.rows@.len() as int, job);
    }
}

proof fn lemma_family_lists(
    table: &FamilyTable,
    synth: &SynthTable,
    f: int,
    m: int,
    count: int,
    job: Job,
)
    requires
        0 <= m < count,
        modifier_waits(table, synth, f, m) == Some(job.id),
        job.family == f as usize,
        job.member == m as usize,
    ensures
        family_modifiers(table, synth, f, count).contains(job),
    decreases count,
{
    let now = family_modifiers(table, synth, f, count);
    if m == count - 1 {
        assert(now[now.len() - 1] == job);
    } else {
        lemma_family_lists(table, synth, f, m, count - 1, job);
        let before = family_modifiers(table, synth, f, count - 1);
        let k = choose|k: int| 0 <= k < before.len() && before[k] == job;
        assert(now[k] == job);
    }
}

proof fn lemma_families_list(
    table: &FamilyTable,
    synth: &SynthTable,
    f: int,
    count: int,
    job: Job,
)
    requires
        0 <= f < count,
        family_modifiers(
            table,
            synth,
            f,
            table.families.rows@[f].1.methods.rows@.len() as int,
        ).contains(job),
    ensures
        waiting_modifiers(table, synth, count).contains(job),
    decreases count,
{
    let before = waiting_modifiers(table, synth, count - 1);
    let last = family_modifiers(
        table,
        synth,
        count - 1,
        table.families.rows@[count - 1].1.methods.rows@.len() as int,
    );
    let now = waiting_modifiers(table, synth, count);
    if f == count - 1 {
        let k = choose|k: int| 0 <= k < last.len() && last[k] == job;
        assert(now[before.len() + k] == job);
    } else {
        lemma_families_list(table, synth, f, count - 1, job);
        let k = choose|k: int| 0 <= k < before.len() && before[k] == job;
        assert(now[k] == job);
    }
}

/// Reserves the id every modifier's body is built under, up front rather than at
/// a call, so that a modifier nobody calls is still checked and built.
pub fn reserve_extend_bodies(table: &mut FamilyTable, synth: &mut SynthTable)
    requires
        old(table).wf(),
        old(synth).wf(),
        old(synth).base + old(synth).rows@.len() + modifiers_of(
            old(table).families.rows@,
            old(table).families.rows@.len() as int,
        ) <= u32::MAX,
    ensures
        final(table).wf(),
        final(synth).wf(),
        final(synth).base == old(synth).base,
        final(synth).rows@ == old(synth).rows@ + Seq::new(
            modifiers_of(old(table).families.rows@, old(table).families.rows@.len() as int),
            |i: int| None,
        ),
        families_given(
            old(table).families.rows@,
            final(table).families.rows@,
            old(synth).base + old(synth).rows@.len(),
            old(table).families.rows@.len() as int,
        ),
        *final(table) == (FamilyTable { families: final(table).families, ..*old(table) }),
{
    let ghost start = table.families.rows@;
    let ghost from = synth.base + synth.rows@.len();
    let ghost count = start.len() as int;
    let mut f: usize = 0;
    assert(synth.rows@ =~= old(synth).rows@ + Seq::new(0, |i: int| None));
    while f < table.families.rows.len()
        invariant
            f <= start.len(),
            count == start.len(),
            start == old(table).families.rows@,
            from == old(synth).base + old(synth).rows@.len(),
            from + modifiers_of(start, count) <= u32::MAX,
            table.families.rows@.len() == start.len(),
            synth.wf(),
            synth.base == old(synth).base,
            synth.rows@ == old(synth).rows@ + Seq::new(
                modifiers_of(start, f as int),
                |i: int| None,
            ),
            families_given(start, table.families.rows@, from, f as int),
            *table == (FamilyTable { families: table.families, ..*old(table) }),
        decreases start.len() - f,
    {
        let ghost rows = start[f as int].1.methods.rows@;
        let ghost base = from + modifiers_of(start, f as int);
        let ghost held = table.families.rows@;
        let ghost filled = synth.rows@;
        let mut m: usize = 0;
        proof {
            lemma_modifiers_grow(start, f + 1, count);
            assert(bodies_given(
                rows,
                held[f as int].1.methods.rows@,
                base,
                0,
            ));
            assert(synth.rows@ =~= filled + Seq::new(0, |i: int| None));
        }
        while m < table.families.rows[f].1.methods.rows.len()
            invariant
                f < start.len(),
                m <= rows.len(),
                rows == start[f as int].1.methods.rows@,
                base == from + modifiers_of(start, f as int),
                from == old(synth).base + old(synth).rows@.len(),
                from + modifiers_of(start, f as int) + modifiers_in(rows, rows.len() as int)
                    <= u32::MAX,
                filled.len() == old(synth).rows@.len() + modifiers_of(start, f as int),
                table.families.rows@.len() == start.len(),
                forall|k: int|
                    0 <= k < start.len() && k != f ==> #[trigger] table.families.rows@[k]
                        == held[k],
                table.families.rows@[f as int].0 == held[f as int].0,
                held.len() == start.len(),
                held[f as int].0 == start[f as int].0,
                table.families.rows@[f as int].1 == (FamilyInfo {
                    methods: table.families.rows@[f as int].1.methods,
                    ..start[f as int].1
                }),
                bodies_given(rows, table.families.rows@[f as int].1.methods.rows@, base, m as int),
                synth.wf(),
                synth.base == old(synth).base,
                synth.rows@ == filled + Seq::new(modifiers_in(rows, m as int), |i: int| None),
                *table == (FamilyTable { families: table.families, ..*old(table) }),
            decreases rows.len() - m,
        {
            let (name, entry): (Symbol, MethodEntry) = table.families.rows[f].1.methods.rows[m];
            proof {
                assert(table.families.rows@[f as int].1.methods.rows@[m as int].1 == rows[m as int].1);
                lemma_in_grow(rows, m + 1, rows.len() as int);
            }
            if entry.uniform {
                let ghost was = table.families.rows@[f as int].1.methods.rows@;
                let id = synth.reserve_synth();
                table.families.rows[f].1.methods.rows[m] = (
                    name,
                    MethodEntry { dispatcher: Some(id), ..entry },
                );
                proof {
                    let now = table.families.rows@[f as int].1.methods.rows@;
                    assert(now == was.update(
                        m as int,
                        (name, MethodEntry { dispatcher: Some(id), ..entry }),
                    ));
                    assert forall|k: int| 0 <= k < rows.len() implies (#[trigger] now[k]).0
                        == rows[k].0 && now[k].1 == if k < m + 1 && rows[k].1.uniform {
                        MethodEntry {
                            dispatcher: Some(FuncId((base + modifiers_in(rows, k)) as u32)),
                            ..rows[k].1
                        }
                    } else {
                        rows[k].1
                    } by {
                        assert(was[k].0 == rows[k].0);
                    }
                    assert(synth.rows@ =~= filled + Seq::new(
                        modifiers_in(rows, m + 1),
                        |i: int| None,
                    ));
                }
            } else {
                proof {
                    let now = table.families.rows@[f as int].1.methods.rows@;
                    assert forall|k: int| 0 <= k < rows.len() implies (#[trigger] now[k]).0
                        == rows[k].0 && now[k].1 == if k < m + 1 && rows[k].1.uniform {
                        MethodEntry {
                            dispatcher: Some(FuncId((base + modifiers_in(rows, k)) as u32)),
                            ..rows[k].1
                        }
                    } else {
                        rows[k].1
                    } by {}
                }
            }
            m += 1;
        }
        proof {
            assert forall|k: int| 0 <= k < start.len() implies {
                &&& (#[trigger] table.families.rows@[k]).0 == start[k].0
                &&& table.families.rows@[k].1 == (FamilyInfo {
                    methods: table.families.rows@[k].1.methods,
                    ..start[k].1
                })
                &&& bodies_given(
                    start[k].1.methods.rows@,
                    table.families.rows@[k].1.methods.rows@,
                    from + modifiers_of(start, k),
                    if k < f + 1 {
                        start[k].1.methods.rows@.len() as int
                    } else {
                        0
                    },
                )
            } by {
                if k != f {
                    assert(table.families.rows@[k] == held[k]);
                }
            }
            assert(synth.rows@ =~= old(synth).rows@ + Seq::new(
                modifiers_of(start, f + 1),
                |i: int| None,
            ));
        }
        f += 1;
    }
    proof {
        lemma_given_wf(old(table), table, from);
    }
}

/// Giving modifiers bodies keeps the table in order.
proof fn lemma_given_wf(before: &FamilyTable, after: &FamilyTable, from: int)
    requires
        before.wf(),
        families_given(
            before.families.rows@,
            after.families.rows@,
            from,
            before.families.rows@.len() as int,
        ),
        *after == (FamilyTable { families: after.families, ..*before }),
    ensures
        after.wf(),
{
    let rows = before.families.rows@;
    let changed = after.families.rows@;
    assert(ordered(changed)) by {
        assert forall|i: int, j: int| 0 <= i < j < changed.len() implies (
        #[trigger] changed[i]).0.0 < (#[trigger] changed[j]).0.0 by {
            assert(rows[i].0.0 < rows[j].0.0);
        }
    }
    assert forall|key: Symbol| after.families@.contains_key(key) implies (
    #[trigger] after.families@[key]).wf() && (forall|name: Symbol|
        after.families@[key].methods@.contains_key(name) ==> (
        #[trigger] after.families@[key].methods@[name]).method < after.methods@.len()) by {
        let f = choose|f: int| 0 <= f < changed.len() && (#[trigger] changed[f]).0 == key;
        lemma_row(changed, f);
        lemma_row(rows, f);
        let old_info = rows[f].1;
        let info = changed[f].1;
        assert(before.families@[key].wf());
        let inner = old_info.methods.rows@;
        let now = info.methods.rows@;
        assert(bodies_given(
            inner,
            now,
            from + modifiers_of(rows, f),
            inner.len() as int,
        ));
        assert(ordered(now)) by {
            assert forall|i: int, j: int| 0 <= i < j < now.len() implies (#[trigger] now[i]).0.0 < (
            #[trigger] now[j]).0.0 by {
                assert(now[i].0 == inner[i].0 && now[j].0 == inner[j].0);
                assert(inner[i].0.0 < inner[j].0.0);
            }
        }
        assert forall|name: Symbol| info.methods@.contains_key(name) implies (
        #[trigger] info.methods@[name]).method < after.methods@.len() by {
            let m = choose|m: int| 0 <= m < now.len() && (#[trigger] now[m]).0 == name;
            lemma_row(now, m);
            lemma_row(inner, m);
            assert(inner[m].0 == name);
            assert(before.families@[key].methods@[name].method < before.methods@.len());
        }
    }
}

/// The parameter type of a modifier, or the error type where it has none yet.
pub open spec fn modifier_param(method: FamilyMethod, index: int) -> Type {
    if index < method.params@.len() {
        method.params@[index]
    } else {
        Type::Error
    }
}

/// How a modifier takes a parameter.
pub open spec fn modifier_mode(method: FamilyMethod, index: int) -> OwnershipMode {
    if index < method.ownership@.len() {
        method.ownership@[index]
    } else {
        OwnershipMode::Owned
    }
}

/// The slots a modifier's body starts with: the receiver, lent, and every
/// parameter by its name.
pub open spec fn modifier_locals(
    family: EnumId,
    method: FamilyMethod,
    receiver: Symbol,
    count: int,
) -> Seq<HirLocal> {
    seq![
        declared_local(
            Some(receiver),
            Type::Enum(family),
            method.mutates_self,
            if method.mutates_self {
                OwnershipMode::BorrowMut
            } else {
                OwnershipMode::BorrowRead
            },
        ),
    ] + Seq::new(
        count as nat,
        |i: int|
            declared_local(
                Some(method.written@[i].name),
                modifier_param(method, i),
                modifier_mode(method, i) == OwnershipMode::BorrowMut,
                modifier_mode(method, i),
            ),
    )
}

/// Prepares the frame a modifier's body is analyzed in, in the file it was written in.
/// `receiver` is the name `self`.
pub fn begin_extend_body(
    family: EnumId,
    method: &FamilyMethod,
    receiver: Symbol,
    log: &mut Log,
) -> (ctx: FnCtx)
    requires
        method.written@.len() < u32::MAX - 1,
    ensures
        ctx.wf(),
        ctx.locals@ == modifier_locals(family, *method, receiver, method.written@.len() as int),
        ctx.return_type == method.result,
        ctx.scopes@.len() == 1,
        forall|i: int|
            0 <= i < method.written@.len() ==> #[trigger] ctx.binding_spans@[i + 1] == Some(
                method.written@[i].name_span,
            ),
        names_its_locals(&ctx),
        final(log).source == method.source,
        final(log).diagnostics == old(log).diagnostics,
{
    log.source = method.source;
    let mut ctx = FnCtx::new(method.result);
    assert(names_its_locals(&ctx)) by {
        reveal_with_fuel(crate::scope::lookup, 2);
    }
    let mode = if method.mutates_self {
        OwnershipMode::BorrowMut
    } else {
        OwnershipMode::BorrowRead
    };
    let ghost empty = ctx;
    let this = ctx.declare_param(receiver, Type::Enum(family), method.mutates_self, mode);
    proof {
        assert(ctx.locals@.drop_last() =~= empty.locals@);
        lemma_names_its_locals(&empty, &ctx, receiver, this);
    }
    let mut i: usize = 0;
    assert(ctx.locals@ =~= modifier_locals(family, *method, receiver, 0));
    while i < method.written.len()
        invariant
            i <= method.written@.len(),
            method.written@.len() < u32::MAX - 1,
            ctx.wf(),
            ctx.return_type == method.result,
            ctx.scopes@.len() == 1,
            ctx.scope_floor == 0,
            names_its_locals(&ctx),
            ctx.locals@ == modifier_locals(family, *method, receiver, i as int),
            forall|k: int|
                0 <= k < i ==> #[trigger] ctx.binding_spans@[k + 1] == Some(
                    method.written@[k].name_span,
                ),
        decreases method.written@.len() - i,
    {
        let ty: Type = if i < method.params.len() {
            method.params[i]
        } else {
            Type::Error
        };
        let mode: OwnershipMode = if i < method.ownership.len() {
            method.ownership[i]
        } else {
            OwnershipMode::Owned
        };
        let param: MethodParam = method.written[i];
        let ghost spans = ctx.binding_spans@;
        let ghost before = ctx;
        let local = ctx.declare_param(param.name, ty, mode == OwnershipMode::BorrowMut, mode);
        proof {
            assert(ctx.locals@.drop_last() =~= before.locals@);
            lemma_names_its_locals(&before, &ctx, param.name, local);
        }
        let ghost middle = ctx;
        ctx.note_binding_span(local, param.name_span);
        proof {
            assert forall|name: Symbol| #[trigger]
                lookup(ctx.scopes@, 0, name) == last_named(ctx.locals@, name) by {
                assert(lookup(middle.scopes@, 0, name) == last_named(middle.locals@, name));
            }
            assert(ctx.locals@ =~= modifier_locals(family, *method, receiver, i + 1));
            assert forall|k: int| 0 <= k < i + 1 implies #[trigger] ctx.binding_spans@[k + 1]
                == Some(method.written@[k].name_span) by {
                if k < i {
                    assert(ctx.binding_spans@[k + 1] == spans[k + 1]);
                }
            }
        }
        i += 1;
    }
    ctx
}

/// What a modifier is called with, its receiver left out: every parameter that was
/// written and resolved.
pub open spec fn modifier_params(method: &FamilyMethod) -> Seq<ParamSignature> {
    let typed = if method.written@.len() < method.params@.len() {
        method.written@.len()
    } else {
        method.params@.len()
    };
    let count = if typed < method.ownership@.len() {
        typed
    } else {
        method.ownership@.len()
    };
    Seq::new(
        count,
        |i: int|
            ParamSignature {
                label: method.written@[i].name,
                ty: method.params@[i],
                ownership: method.ownership@[i],
                has_default: method.written@[i].default is Some,
            },
    )
}

/// Completes a modifier from its analyzed body, reporting one that can finish
/// without returning its value.
///
/// The body runs on the engine it was written for: it is synthesized, and it is
/// the body the author wrote.
pub fn finish_extend_body(
    key: Symbol,
    family: EnumId,
    name: Symbol,
    method: &FamilyMethod,
    is_async: bool,
    locals: Vec<HirLocal>,
    body: Vec<HirStmtId>,
    definitely_returns: bool,
    log: &mut Log,
) -> (function: HirFunction)
    requires
        method.written@.len() < u32::MAX,
    ensures
        function.name == (FunctionName::Modifier { family: key, method: name }),
        function.param_count == 1 + method.written@.len(),
        function.return_type == method.result,
        function.locals == locals,
        function.body == body,
        !function.is_main,
        !function.is_main_thread,
        !function.is_async,
        function.execution == method.execution,
        function.mutates_self == method.mutates_self,
        function.name_span == method.name_span,
        function.signature.params@ == modifier_params(method),
        function.signature == (CallableSignature {
            receiver: Some(
                ReceiverSignature { ty: Type::Enum(family), mutable: method.mutates_self },
            ),
            params: function.signature.params,
            result: method.result,
            is_async,
            affinity: ThreadAffinity::Any,
            execution: method.execution,
        }),
        final(log).source == old(log).source,
        if method.result != Type::Void && method.result != Type::Error && !definitely_returns {
            final(log).reported(
                old(log),
                old(log).source,
                method.name_span,
                (Problem::ModifierMayNotReturn { family: key, method: name }),
            )
        } else {
            final(log).quiet(old(log))
        },
{
    if method.result != Type::Void && method.result != Type::Error && !definitely_returns {
        log.emit(
            method.name_span,
            Problem::ModifierMayNotReturn { family: key, method: name },
        );
    }
    let mut params: Vec<ParamSignature> = Vec::new();
    let mut i: usize = 0;
    while i < method.written.len() && i < method.params.len() && i < method.ownership.len()
        invariant
            i <= method.written@.len(),
            i <= method.params@.len(),
            i <= method.ownership@.len(),
            params@ == modifier_params(method).take(i as int),
        decreases method.written@.len() - i,
    {
        params.push(
            ParamSignature {
                label: method.written[i].name,
                ty: method.params[i],
                ownership: method.ownership[i],
                has_default: method.written[i].default.is_some(),
            },
        );
        i += 1;
        assert(params@ =~= modifier_params(method).take(i as int));
    }
    assert(params@ =~= modifier_params(method));
    HirFunction {
        name: FunctionName::Modifier { family: key, method: name },
        param_count: 1 + method.written.len() as u32,
        return_type: method.result,
        locals,
        body,
        is_main: false,
        is_main_thread: false,
        is_async: false,
        execution: method.execution,
        mutates_self: method.mutates_self,
        name_span: method.name_span,
        signature: CallableSignature {
            receiver: Some(
                ReceiverSignature { ty: Type::Enum(family), mutable: method.mutates_self },
            ),
            params,
            result: method.result,
            is_async,
            affinity: ThreadAffinity::Any,
            execution: method.execution,
        },
    }
}

/// No modifier takes a name away from a method the family already has.
pub proof fn a_modifier_never_shadows(
    before: &FamilyTable,
    after: &FamilyTable,
    key: Symbol,
    decl: FamilyMethodDecl,
    source: SourceId,
    name: Symbol,
)
    requires
        modifier_added(before, after, key, decl, source),
        before.families@.contains_key(key),
        before.families@[key].methods@.contains_key(name),
    ensures
        after.families@[key].methods@.contains_key(name),
        after.families@[key].methods@[name] == before.families@[key].methods@[name],
{
}

/// A modifier joins the family it extends under its name, with one shared body, exactly if
/// the family has no method of that name; what it takes, returns and mutates is what was
/// written. Where the name is taken nothing changes and it is reported.
pub proof fn a_free_modifier_joins_its_family(
    before: &FamilyTable,
    after: &FamilyTable,
    key: Symbol,
    modifier: &ModifierDecl,
    source: SourceId,
)
    requires
        modifier_added(before, after, key, modifier.method, source),
        before.methods@.len() < u32::MAX,
    ensures
        before.families@[key].methods@.contains_key(modifier.method.name) ==> *after == *before
            && modifier_said(before, key, modifier, source).len() > 0,
        !before.families@[key].methods@.contains_key(modifier.method.name) ==> {
            let held = after.families@[key].methods@;
            let method = after.methods@.last();
            &&& held.contains_key(modifier.method.name)
            &&& held[modifier.method.name].uniform
            &&& held[modifier.method.name].method == before.methods@.len()
            &&& after.methods@.len() == before.methods@.len() + 1
            &&& method.written@ == modifier.method.params@
            &&& method.written_result == modifier.method.result
            &&& method.mutates_self == modifier.method.mutates_self
            &&& !method.required
        },
        modifier_said(before, key, modifier, source).len() == 0 ==> !modifier.entrypoint
            && modifier.exported is None && modifier.foreign is None
            && !before.families@[key].methods@.contains_key(modifier.method.name),
{
}

/// A block that names no family and no class is reported; one that names a class, and one
/// that only claims a trait for something that is no family, change nothing here.
pub proof fn a_block_extends_what_it_names(
    before: ExtendState,
    after: ExtendState,
    block: ExtendDecl,
)
    requires
        block_read(before, after, block),
        !before.table.families@.contains_key(block.key),
    ensures
        after.table == before.table,
        block.conforms && !before.table.families@.contains_key(block.name) ==> after.said
            == before.said,
        !block.conforms && !block.class ==> after.said.len() == before.said.len() + 1,
        !block.conforms && block.class ==> after.said == before.said,
{
}

/// A modifier's body starts with its receiver, lent as the modifier mutates it or not, and
/// then every parameter under its written name, of its type and in its mode.
pub proof fn a_modifier_has_its_parameters(
    family: EnumId,
    method: FamilyMethod,
    receiver: Symbol,
    k: int,
)
    requires
        0 <= k < method.written@.len(),
        method.params@.len() == method.written@.len(),
        method.ownership@.len() == method.written@.len(),
    ensures
        ({
            let locals = modifier_locals(family, method, receiver, method.written@.len() as int);
            &&& locals.len() == method.written@.len() + 1
            &&& locals[0].ty == Type::Enum(family)
            &&& locals[0].mutable == method.mutates_self
            &&& locals[k + 1].ty == method.params@[k]
            &&& locals[k + 1].ownership == method.ownership@[k]
            &&& locals[k + 1].mutable <==> method.ownership@[k] == OwnershipMode::BorrowMut
        }),
{
}

/// A modifier is called with every parameter it was written with: its name as the label,
/// its type, its mode, and whether it has a default.
pub proof fn a_modifiers_signature_lists_its_parameters(method: &FamilyMethod, k: int)
    requires
        0 <= k < method.written@.len(),
        method.params@.len() == method.written@.len(),
        method.ownership@.len() == method.written@.len(),
    ensures
        modifier_params(method).len() == method.written@.len(),
        modifier_params(method)[k].label == method.written@[k].name,
        modifier_params(method)[k].ty == method.params@[k],
        modifier_params(method)[k].ownership == method.ownership@[k],
        modifier_params(method)[k].has_default <==> method.written@[k].default is Some,
{
}

proof fn lemma_modifiers_before(rows: Seq<(Symbol, MethodEntry)>, m: int, n: int)
    requires
        0 <= m < n <= rows.len(),
        rows[m].1.uniform,
    ensures
        modifiers_in(rows, m) < modifiers_in(rows, n),
    decreases n,
{
    if m < n - 1 {
        lemma_modifiers_before(rows, m, n - 1);
    }
}

proof fn lemma_modifiers_bounded(rows: Seq<(Symbol, MethodEntry)>, count: int)
    requires
        0 <= count <= rows.len(),
    ensures
        modifiers_in(rows, count) <= count,
    decreases count,
{
    if count > 0 {
        lemma_modifiers_bounded(rows, count - 1);
    }
}

/// Every modifier of a family gets a function of its own, no two the same one, and no
/// method that declarations implement gets any.
pub proof fn every_modifier_gets_its_own_function(
    before: Seq<(Symbol, MethodEntry)>,
    after: Seq<(Symbol, MethodEntry)>,
    from: int,
    m: int,
    n: int,
)
    requires
        bodies_given(before, after, from, before.len() as int),
        0 <= from,
        from + before.len() <= u32::MAX,
        0 <= m < n < before.len(),
    ensures
        before[m].1.uniform ==> after[m].1.dispatcher is Some,
        before[m].1.uniform && before[n].1.uniform ==> after[m].1.dispatcher
            != after[n].1.dispatcher,
        !before[m].1.uniform ==> after[m] == before[m],
        after[m].0 == before[m].0,
        after[m].1.method == before[m].1.method,
        after[m].1.uniform == before[m].1.uniform,
{
    assert(after[m].0 == before[m].0);
    assert(after[n].0 == before[n].0);
    lemma_modifiers_bounded(before, n);
    lemma_modifiers_bounded(before, m);
    if before[m].1.uniform {
        lemma_modifiers_before(before, m, n);
    }
}

/// A modifier is recorded as written: it has a body, is called and not read, and keeps its
/// file, its result, its parameters and whether it mutates its receiver; nothing of it is
/// resolved yet.
pub proof fn a_modifier_is_recorded_as_written(
    method: FamilyMethod,
    decl: FamilyMethodDecl,
    source: SourceId,
    k: int,
)
    requires
        modifier_read(method, decl, source),
    ensures
        !method.required,
        !method.computed,
        method.source == source,
        method.name_span == decl.name_span,
        method.written_result == decl.result,
        method.mutates_self == decl.mutates_self,
        method.execution == decl.execution,
        method.written@.len() == decl.params@.len(),
        0 <= k < decl.params@.len() ==> method.written@[k] == decl.params@[k],
        method.params@.len() == 0,
        method.defaults@.len() == 0,
{
}

proof fn lemma_families_before(families: Seq<(Symbol, FamilyInfo)>, f: int, g: int)
    requires
        0 <= f < g <= families.len(),
    ensures
        modifiers_of(families, f) + modifiers_in(
            families[f].1.methods.rows@,
            families[f].1.methods.rows@.len() as int,
        ) <= modifiers_of(families, g),
    decreases g,
{
    if f < g - 1 {
        lemma_families_before(families, f, g - 1);
    }
}

/// The modifiers of two families get different functions.
pub proof fn modifiers_of_two_families_differ(
    before: Seq<(Symbol, FamilyInfo)>,
    after: Seq<(Symbol, FamilyInfo)>,
    from: int,
    f: int,
    g: int,
    m: int,
    n: int,
)
    requires
        families_given(before, after, from, before.len() as int),
        0 <= f < g < before.len(),
        0 <= m < before[f].1.methods.rows@.len(),
        0 <= n < before[g].1.methods.rows@.len(),
        before[f].1.methods.rows@[m].1.uniform,
        before[g].1.methods.rows@[n].1.uniform,
        0 <= from,
        from + modifiers_of(before, before.len() as int) <= u32::MAX,
    ensures
        after[f].1.methods.rows@[m].1.dispatcher is Some,
        after[f].1.methods.rows@[m].1.dispatcher != after[g].1.methods.rows@[n].1.dispatcher,
        after[f].0 == before[f].0,
        after[f].1.variants == before[f].1.variants,
{
    assert(after[f].0 == before[f].0);
    assert(after[g].0 == before[g].0);
    let a = before[f].1.methods.rows@;
    let b = before[g].1.methods.rows@;
    assert(after[f].1.methods.rows@[m].0 == a[m].0);
    assert(after[g].1.methods.rows@[n].0 == b[n].0);
    lemma_modifiers_before(a, m, a.len() as int);
    lemma_modifiers_before(b, n, b.len() as int);
    lemma_families_before(before, f, g);
    lemma_families_before(before, g, before.len() as int);
}

/// A modifier changes its own family alone, and no method there was before.
pub proof fn a_modifier_changes_its_own_family(
    before: &FamilyTable,
    after: &FamilyTable,
    key: Symbol,
    decl: FamilyMethodDecl,
    source: SourceId,
    other: Symbol,
    name: Symbol,
    k: int,
)
    requires
        modifier_added(before, after, key, decl, source),
        before.families@.contains_key(key),
    ensures
        before.families@.contains_key(other) && other != key ==> after.families@.contains_pair(
            other,
            before.families@[other],
        ),
        before.families@[key].methods@.contains_key(name)
            ==> after.families@[key].methods@.contains_pair(
            name,
            before.families@[key].methods@[name],
        ),
        after.families@[key].variants == before.families@[key].variants,
        0 <= k < before.methods@.len() ==> after.methods@[k] == before.methods@[k],
{
    if 0 <= k < before.methods@.len() && after.methods@.len() > before.methods@.len() {
        assert(after.methods@.drop_last()[k] == after.methods@[k]);
    }
    if before.families@.contains_key(other) && other != key {
        assert(after.families@.dom().contains(other));
        assert(after.families@[other] == before.families@[other]);
    }
}

} // verus!

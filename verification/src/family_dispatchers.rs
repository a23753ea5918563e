//! Building every method dispatcher that calls on family values reserved.

use vstd::prelude::*;

use crate::default_values::tagged;
use crate::dispatch_body::{
    construct_dispatcher_body, describes, dispatch_of, dispatches_family, families_placed,
    family_dispatch_cost,
    lemma_dispatches_family_kept, rows_kept,
};
use crate::dispatch_tree::DispatchMethod;
use crate::families::{FamilyInfo, FamilyMethod, FamilyTable, MethodEntry};
use crate::hir::{FuncId, HirProgram};
use crate::jobs::{add_job, in_order, job_of, Job};
use crate::names::Symbol;
use crate::signatures::{FuncSig, SigTable};
use crate::symbol_map::lemma_row;
use crate::synth::SynthTable;
use crate::ty::TypeTable;
use crate::value_members::ReadTables;

verus! {

/// Whether row `m` among the methods of family row `f` exists.
pub open spec fn has_method_row(table: &FamilyTable, f: int, m: int) -> bool {
    0 <= f < table.families.rows@.len() && 0 <= m < table.families.rows@[f].1.methods.rows@.len()
}

/// A family's hold on one of its methods, by their rows.
pub open spec fn entry_at(table: &FamilyTable, f: int, m: int) -> MethodEntry {
    table.families.rows@[f].1.methods.rows@[m].1
}

/// The method one entry holds.
pub open spec fn method_at(table: &FamilyTable, f: int, m: int) -> FamilyMethod {
    table.methods@[entry_at(table, f, m).method as int]
}

/// The dispatcher of one method that was reserved and has no body yet. A
/// modifier's own body is no dispatcher.
pub open spec fn method_waits(table: &FamilyTable, synth: &SynthTable, f: int, m: int) -> Option<
    FuncId,
> {
    let entry = entry_at(table, f, m);
    match entry.dispatcher {
        Some(id) => if !entry.uniform && synth.reserved(id) && synth.row(id) is None {
            Some(id)
        } else {
            None
        },
        None => None,
    }
}

/// `jobs` are the dispatchers waiting for a body, in the order of their ids.
pub open spec fn lists_methods(jobs: Seq<Job>, table: &FamilyTable, synth: &SynthTable) -> bool {
    &&& in_order(jobs)
    &&& forall|k: int|
        0 <= k < jobs.len() ==> {
            let job = #[trigger] jobs[k];
            &&& has_method_row(table, job.family as int, job.member as int)
            &&& method_waits(table, synth, job.family as int, job.member as int) == Some(job.id)
        }
    &&& forall|f: int, m: int|
        has_method_row(table, f, m) && (#[trigger] method_waits(table, synth, f, m)) is Some
            ==> jobs.contains(
            Job {
                id: method_waits(table, synth, f, m)->0,
                family: f as usize,
                member: m as usize,
            },
        )
}

/// What one job may take.
pub open spec fn method_job_cost(types: &TypeTable, table: &FamilyTable, job: Job) -> int {
    let method = method_at(table, job.family as int, job.member as int);
    family_dispatch_cost(
        types,
        method.params@.len() as int,
        method.result,
        table.families.rows@[job.family as int].1.variants@.len() as int,
    )
}

/// What the jobs from `from` on may take.
pub open spec fn method_jobs_cost(
    types: &TypeTable,
    table: &FamilyTable,
    jobs: Seq<Job>,
    from: int,
) -> int
    decreases jobs.len() - from,
{
    if from < 0 || from >= jobs.len() {
        0
    } else {
        method_job_cost(types, table, jobs[from]) + method_jobs_cost(types, table, jobs, from + 1)
    }
}

/// Every dispatcher a method has was reserved, no two methods that wait share
/// one, and no method takes more than its frame can hold.
pub open spec fn methods_ready(table: &FamilyTable, synth: &SynthTable) -> bool {
    &&& forall|f: int, m: int|
        has_method_row(table, f, m) ==> ((#[trigger] entry_at(table, f, m)).dispatcher matches Some(
            id,
        ) ==> synth.base <= id.0)
    &&& forall|f: int, m: int, g: int, n: int|
        has_method_row(table, f, m) && has_method_row(table, g, n) && (#[trigger] method_waits(
            table,
            synth,
            f,
            m,
        )) is Some && method_waits(table, synth, f, m) == (#[trigger] method_waits(
            table,
            synth,
            g,
            n,
        )) ==> f == g && m == n
    &&& forall|f: int, m: int|
        has_method_row(table, f, m) ==> (#[trigger] method_at(table, f, m)).params@.len() < u32::MAX
            - 8
}

/// The dispatcher `id` of one method is built.
pub open spec fn method_built(
    program: &HirProgram,
    types: &TypeTable,
    synth: &SynthTable,
    tables: &ReadTables,
    sigs: Seq<FuncSig>,
    table: &FamilyTable,
    f: int,
    m: int,
    id: FuncId,
) -> bool {
    let (key, info) = table.families.rows@[f];
    &&& synth.filled(id)
    &&& exists|dispatch: DispatchMethod|
        #![trigger describes(&dispatch, key, info, info.methods.rows@[m].0, method_at(table, f, m))]
        {
            &&& describes(
                &dispatch,
                key,
                info,
                info.methods.rows@[m].0,
                method_at(table, f, m),
            )
            &&& dispatches_family(
                program,
                types,
                synth,
                tables,
                sigs,
                synth.row(id)->0,
                &dispatch,
                info.variants@,
            )
        }
}

/// A built dispatcher stays built.
pub proof fn lemma_method_built_kept(
    before: &HirProgram,
    after: &HirProgram,
    types: &TypeTable,
    synth: &SynthTable,
    grown: &SynthTable,
    tables: &ReadTables,
    sigs: Seq<FuncSig>,
    table: &FamilyTable,
    f: int,
    m: int,
    id: FuncId,
)
    requires
        after.built_on(before),
        rows_kept(synth, grown),
        method_built(before, types, synth, tables, sigs, table, f, m, id),
    ensures
        method_built(after, types, grown, tables, sigs, table, f, m, id),
{
    let (key, info) = table.families.rows@[f];
    let name = info.methods.rows@[m].0;
    let method = method_at(table, f, m);
    let dispatch = choose|dispatch: DispatchMethod|
        #![trigger describes(&dispatch, key, info, name, method)]
        {
            &&& describes(&dispatch, key, info, name, method)
            &&& dispatches_family(
                before,
                types,
                synth,
                tables,
                sigs,
                synth.row(id)->0,
                &dispatch,
                info.variants@,
            )
        };
    assert(synth.rows@[id.0 - synth.base] is Some);
    lemma_dispatches_family_kept(
        before,
        after,
        types,
        synth,
        grown,
        tables,
        sigs,
        synth.row(id)->0,
        &dispatch,
        info.variants@,
    );
    assert(describes(&dispatch, key, info, name, method));
}

proof fn lemma_entry_row(table: &FamilyTable, f: int, m: int)
    requires
        table.wf(),
        has_method_row(table, f, m),
    ensures
        entry_at(table, f, m).method < table.methods@.len(),
{
    lemma_row(table.families.rows@, f);
    let key = table.families.rows@[f].0;
    assert(table.families@[key].wf());
    lemma_row(table.families.rows@[f].1.methods.rows@, m);
    let name = table.families.rows@[f].1.methods.rows@[m].0;
    assert(table.families@[key].methods@[name].method < table.methods@.len());
}

/// The dispatchers waiting for a body among the first `fs` families and, of the
/// next one, the first `ms` methods.
spec fn lists_some(
    jobs: Seq<Job>,
    table: &FamilyTable,
    synth: &SynthTable,
    fs: int,
    ms: int,
) -> bool {
    &&& in_order(jobs)
    &&& forall|k: int|
        0 <= k < jobs.len() ==> {
            let job = #[trigger] jobs[k];
            &&& has_method_row(table, job.family as int, job.member as int)
            &&& method_waits(table, synth, job.family as int, job.member as int) == Some(job.id)
            &&& job.family < fs || (job.family == fs && job.member < ms)
        }
    &&& forall|f: int, m: int|
        has_method_row(table, f, m) && (f < fs || (f == fs && m < ms)) && (#[trigger] method_waits(
            table,
            synth,
            f,
            m,
        )) is Some ==> jobs.contains(
            Job {
                id: method_waits(table, synth, f, m)->0,
                family: f as usize,
                member: m as usize,
            },
        )
}

/// Lists the method dispatchers waiting for a body, in the order of their ids.
pub fn method_jobs(table: &FamilyTable, synth: &SynthTable) -> (jobs: Vec<Job>)
    requires
        methods_ready(table, synth),
    ensures
        lists_methods(jobs@, table, synth),
{
    let mut jobs: Vec<Job> = Vec::new();
    let mut f: usize = 0;
    while f < table.families.rows.len()
        invariant
            f <= table.families.rows@.len(),
            methods_ready(table, synth),
            lists_some(jobs@, table, synth, f as int, 0),
        decreases table.families.rows@.len() - f,
    {
        let info = &table.families.rows[f].1;
        let mut m: usize = 0;
        while m < info.methods.rows.len()
            invariant
                f < table.families.rows@.len(),
                *info == table.families.rows@[f as int].1,
                m <= info.methods.rows@.len(),
                methods_ready(table, synth),
                lists_some(jobs@, table, synth, f as int, m as int),
            decreases info.methods.rows@.len() - m,
        {
            let entry: MethodEntry = info.methods.rows[m].1;
            let ghost held = jobs@;
            assert(has_method_row(table, f as int, m as int));
            assert(entry_at(table, f as int, m as int) == entry);
            if let Some(id) = entry.dispatcher {
                if !entry.uniform && synth.synth_needs_body(id) {
                    proof {
                        if job_of(held, id) {
                            let k = choose|k: int| 0 <= k < held.len() && (#[trigger] held[k]).id
                                == id;
                            assert(method_waits(
                                table,
                                synth,
                                held[k].family as int,
                                held[k].member as int,
                            ) == method_waits(table, synth, f as int, m as int));
                        }
                    }
                    add_job(&mut jobs, Job { id, family: f, member: m });
                }
            }
            proof {
                let now = jobs@;
                assert forall|k: int| 0 <= k < now.len() implies {
                    let job = #[trigger] now[k];
                    &&& has_method_row(table, job.family as int, job.member as int)
                    &&& method_waits(table, synth, job.family as int, job.member as int) == Some(
                        job.id,
                    )
                    &&& job.family < f || (job.family == f && job.member < m + 1)
                } by {
                    if held.contains(now[k]) {
                        let i = choose|i: int| 0 <= i < held.len() && held[i] == now[k];
                        assert(held[i] == now[k]);
                    }
                }
                assert forall|g: int, n: int|
                    has_method_row(table, g, n) && (g < f || (g == f && n < m + 1)) && (
                    #[trigger] method_waits(table, synth, g, n)) is Some implies now.contains(
                    Job {
                        id: method_waits(table, synth, g, n)->0,
                        family: g as usize,
                        member: n as usize,
                    },
                ) by {
                    let job = Job {
                        id: method_waits(table, synth, g, n)->0,
                        family: g as usize,
                        member: n as usize,
                    };
                    if g < f || n < m {
                        assert(held.contains(job));
                        let i = choose|i: int| 0 <= i < held.len() && held[i] == job;
                        assert(now.contains(held[i]));
                    }
                }
            }
            m += 1;
        }
        f += 1;
    }
    jobs
}

proof fn lemma_cost_from(types: &TypeTable, table: &FamilyTable, jobs: Seq<Job>, from: int)
    ensures
        method_jobs_cost(types, table, jobs, from) >= 0,
    decreases jobs.len() - from,
{
    if 0 <= from < jobs.len() {
        lemma_cost_from(types, table, jobs, from + 1);
        let method = method_at(table, jobs[from].family as int, jobs[from].member as int);
        lemma_job_cost(
            method.params@.len() as int,
            table.families.rows@[jobs[from].family as int].1.variants@.len() as int,
        );
    }
}

proof fn lemma_job_cost(params: int, variants: int)
    requires
        params >= 0,
        variants >= 0,
    ensures
        variants * (5 * params + 24) >= 3 * variants,
{
    assert(variants * (5 * params + 24) >= 3 * variants) by (nonlinear_arith)
        requires
            params >= 0,
            variants >= 0,
    ;
}

/// Builds the body of every listed method dispatcher, in the order of their ids.
pub fn build_method_dispatchers(
    program: &mut HirProgram,
    synth: &mut SynthTable,
    tables: &ReadTables,
    sigs: &SigTable,
    table: &FamilyTable,
    jobs: &Vec<Job>,
)
    requires
        tagged(&old(program).types),
        table.wf(),
        families_placed(table),
        sigs.sigs@.len() <= u32::MAX,
        old(synth).wf(),
        methods_ready(table, old(synth)),
        lists_methods(jobs@, table, old(synth)),
        old(program).room(method_jobs_cost(&old(program).types, table, jobs@, 0)),
        old(synth).base + old(synth).rows@.len() + method_jobs_cost(
            &old(program).types,
            table,
            jobs@,
            0,
        ) <= u32::MAX,
    ensures
        final(program).built_on(old(program)),
        final(synth).wf(),
        rows_kept(old(synth), final(synth)),
        final(program).exprs@.len() <= old(program).exprs@.len() + method_jobs_cost(
            &old(program).types,
            table,
            jobs@,
            0,
        ),
        final(program).stmts@.len() <= old(program).stmts@.len() + method_jobs_cost(
            &old(program).types,
            table,
            jobs@,
            0,
        ),
        final(synth).rows@.len() <= old(synth).rows@.len() + method_jobs_cost(
            &old(program).types,
            table,
            jobs@,
            0,
        ),
        forall|id: FuncId|
            old(synth).reserved(id) && !job_of(jobs@, id) ==> #[trigger] final(synth).row(id)
                == old(synth).row(id),
        forall|k: int|
            0 <= k < jobs@.len() ==> method_built(
                final(program),
                &old(program).types,
                final(synth),
                tables,
                sigs.sigs@,
                table,
                (#[trigger] jobs@[k]).family as int,
                jobs@[k].member as int,
                jobs@[k].id,
            ),
{
    let ghost types = program.types;
    let ghost start = *program;
    let ghost synth_start = *synth;
    let ghost total = method_jobs_cost(&types, table, jobs@, 0);
    let mut i: usize = 0;
    while i < jobs.len()
        invariant
            i <= jobs@.len(),
            types == start.types,
            start == *old(program),
            synth_start == *old(synth),
            tagged(&types),
            table.wf(),
            families_placed(table),
            sigs.sigs@.len() <= u32::MAX,
            methods_ready(table, &synth_start),
            lists_methods(jobs@, table, &synth_start),
            total == method_jobs_cost(&types, table, jobs@, 0),
            start.exprs@.len() + total <= u32::MAX,
            start.stmts@.len() + total <= u32::MAX,
            synth_start.base + synth_start.rows@.len() + total <= u32::MAX,
            program.built_on(&start),
            program.exprs@.len() + method_jobs_cost(&types, table, jobs@, i as int)
                <= start.exprs@.len() + total,
            program.stmts@.len() + method_jobs_cost(&types, table, jobs@, i as int)
                <= start.stmts@.len() + total,
            synth.rows@.len() + method_jobs_cost(&types, table, jobs@, i as int)
                <= synth_start.rows@.len() + total,
            synth.wf(),
            rows_kept(&synth_start, synth),
            forall|id: FuncId|
                synth_start.reserved(id) && !job_of(jobs@, id) ==> #[trigger] synth.row(id)
                    == synth_start.row(id),
            forall|k: int|
                i <= k < jobs@.len() ==> synth.row((#[trigger] jobs@[k]).id) is None,
            forall|k: int|
                0 <= k < i ==> method_built(
                    program,
                    &types,
                    synth,
                    tables,
                    sigs.sigs@,
                    table,
                    (#[trigger] jobs@[k]).family as int,
                    jobs@[k].member as int,
                    jobs@[k].id,
                ),
        decreases jobs@.len() - i,
    {
        let job = jobs[i];
        let ghost f = job.family as int;
        let ghost m = job.member as int;
        let ghost before = *program;
        let ghost synth_before = *synth;
        proof {
            assert(jobs@[i as int] == job);
            lemma_entry_row(table, f, m);
            lemma_cost_from(&types, table, jobs@, i + 1);
            lemma_job_cost(
                method_at(table, f, m).params@.len() as int,
                table.families.rows@[f].1.variants@.len() as int,
            );
            assert(method_at(table, f, m).params@.len() < u32::MAX - 8);
        }
        let key: Symbol = table.families.rows[job.family].0;
        let info: &FamilyInfo = &table.families.rows[job.family].1;
        let (name, entry): (Symbol, MethodEntry) = info.methods.rows[job.member];
        let dispatch = dispatch_of(key, info, name, &table.methods[entry.method as usize]);
        let function = construct_dispatcher_body(
            program,
            synth,
            tables,
            sigs,
            &dispatch,
            &info.variants,
        );
        let ghost made = function;
        let ghost synth_middle = *synth;
        synth.fill_synth(job.id, function);
        proof {
            let id = job.id;
            assert(synth_start.reserved(id));
            assert(synth.row(id) == Some(made));
            assert(synth_before.row(id) is None);
            assert(synth_middle.row(id) is None);
            assert(rows_kept(&synth_middle, synth));
            assert forall|k: int| i + 1 <= k < jobs@.len() implies synth.row(
                (#[trigger] jobs@[k]).id,
            ) is None by {
                assert(jobs@[i as int].id.0 < jobs@[k].id.0);
                assert(synth_start.reserved(jobs@[k].id));
                assert(synth_before.row(jobs@[k].id) is None);
            }
            lemma_dispatches_family_kept(
                program,
                program,
                &types,
                &synth_middle,
                synth,
                tables,
                sigs.sigs@,
                made,
                &dispatch,
                info.variants@,
            );
            assert(describes(&dispatch, key, *info, name, method_at(table, f, m)));
            assert(rows_kept(&synth_before, synth));
            assert forall|other: FuncId|
                synth_start.reserved(other) && !job_of(jobs@, other) implies #[trigger] synth.row(
                other,
            ) == synth_start.row(other) by {
                assert(jobs@[i as int].id == id);
                assert(synth_before.row(other) == synth_start.row(other));
            }
            assert forall|k: int| 0 <= k < i + 1 implies method_built(
                program,
                &types,
                synth,
                tables,
                sigs.sigs@,
                table,
                (#[trigger] jobs@[k]).family as int,
                jobs@[k].member as int,
                jobs@[k].id,
            ) by {
                if k < i {
                    lemma_method_built_kept(
                        &before,
                        program,
                        &types,
                        &synth_before,
                        synth,
                        tables,
                        sigs.sigs@,
                        table,
                        jobs@[k].family as int,
                        jobs@[k].member as int,
                        jobs@[k].id,
                    );
                }
            }
        }
        i += 1;
    }
}

/// Every dispatcher that was asked for and has no body yet is built: each method that
/// every declaration implements itself, whose dispatcher was reserved, is listed once, and
/// nothing else is.
pub proof fn every_waiting_dispatcher_is_listed(
    jobs: Seq<Job>,
    table: &FamilyTable,
    synth: &SynthTable,
    f: int,
    m: int,
    id: FuncId,
    k: int,
)
    requires
        lists_methods(jobs, table, synth),
    ensures
        0 <= f < table.families.rows@.len() && 0 <= m
            < table.families.rows@[f].1.methods.rows@.len()
            && !table.families.rows@[f].1.methods.rows@[m].1.uniform
            && table.families.rows@[f].1.methods.rows@[m].1.dispatcher == Some(id)
            && synth.reserved(id) && synth.row(id) is None ==> jobs.contains(
            Job { id, family: f as usize, member: m as usize },
        ),
        0 <= k < jobs.len() ==> {
            let entry =
                table.families.rows@[jobs[k].family as int].1.methods.rows@[jobs[k].member as int].1;
            !entry.uniform && entry.dispatcher == Some(jobs[k].id) && synth.row(jobs[k].id) is None
        },
{
    if 0 <= k < jobs.len() {
        let job = jobs[k];
        assert(method_waits(table, synth, job.family as int, job.member as int) == Some(job.id));
    }
    if has_method_row(table, f, m) && method_waits(table, synth, f, m) == Some(id) {
        assert(method_waits(table, synth, f, m) is Some);
    }
}

/// A built dispatcher has a body: it is the dispatcher of its family's own method over all
/// the declarations of the family.
pub proof fn a_built_dispatcher_is_its_methods(
    program: &HirProgram,
    types: &TypeTable,
    synth: &SynthTable,
    tables: &ReadTables,
    sigs: Seq<FuncSig>,
    table: &FamilyTable,
    f: int,
    m: int,
    id: FuncId,
)
    requires
        method_built(program, types, synth, tables, sigs, table, f, m, id),
    ensures
        synth.filled(id),
        exists|dispatch: DispatchMethod|
            #![trigger dispatches_family(program, types, synth, tables, sigs, synth.row(id)->0, &dispatch, table.families.rows@[f].1.variants@)]
            dispatch.family == table.families.rows@[f].0 && dispatch.method
                == table.families.rows@[f].1.methods.rows@[m].0 && dispatch.family_id
                == table.families.rows@[f].1.enum_id && dispatch.result == method_at(
                table,
                f,
                m,
            ).result && dispatch.params@ == method_at(table, f, m).params@ && dispatches_family(
                program,
                types,
                synth,
                tables,
                sigs,
                synth.row(id)->0,
                &dispatch,
                table.families.rows@[f].1.variants@,
            ),
{
    let (key, info) = table.families.rows@[f];
    let dispatch = choose|dispatch: DispatchMethod|
        #![trigger describes(&dispatch, key, info, info.methods.rows@[m].0, method_at(table, f, m))]
        {
            &&& describes(
                &dispatch,
                key,
                info,
                info.methods.rows@[m].0,
                method_at(table, f, m),
            )
            &&& dispatches_family(
                program,
                types,
                synth,
                tables,
                sigs,
                synth.row(id)->0,
                &dispatch,
                info.variants@,
            )
        };
    assert(dispatches_family(
        program,
        types,
        synth,
        tables,
        sigs,
        synth.row(id)->0,
        &dispatch,
        info.variants@,
    ));
}

} // verus!

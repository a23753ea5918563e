//! Building every value-member reader that reads of family values reserved, and
//! with the method dispatchers everything family values are reached through.

use vstd::prelude::*;

use crate::default_values::tagged;
use crate::dispatch_body::rows_kept;
use crate::families::{FamilyField, FamilyInfo, FamilyTable};
use crate::family_dispatchers::{
    build_method_dispatchers, has_method_row, lemma_method_built_kept, lists_methods, method_built,
    method_jobs, method_jobs_cost, method_waits, methods_ready,
};
use crate::hir::{FuncId, HirProgram};
use crate::jobs::{add_job, in_order, job_of, Job};
use crate::names::Symbol;
use crate::synth::SynthTable;
use crate::ty::TypeTable;
use crate::value_members::{
    construct_field_dispatcher_body, is_reader, lemma_reader_kept, read_cost, reader_cost,
    ReadTables,
};

verus! {

/// Whether row `m` among the value members of family row `f` exists.
pub open spec fn has_member_row(table: &FamilyTable, f: int, m: int) -> bool {
    0 <= f < table.families.rows@.len() && 0 <= m
        < table.families.rows@[f].1.field_members.rows@.len()
}

/// One value member, by the rows of its family and itself.
pub open spec fn member_at(table: &FamilyTable, f: int, m: int) -> FamilyField {
    table.families.rows@[f].1.field_members.rows@[m].1
}

/// The reader of one value member that was reserved and has no body yet.
pub open spec fn member_waits(table: &FamilyTable, synth: &SynthTable, f: int, m: int) -> Option<
    FuncId,
> {
    match member_at(table, f, m).dispatcher {
        Some(id) => if synth.reserved(id) && synth.row(id) is None {
            Some(id)
        } else {
            None
        },
        None => None,
    }
}

/// `jobs` are the readers waiting for a body, in the order of their ids.
pub open spec fn lists_members(jobs: Seq<Job>, table: &FamilyTable, synth: &SynthTable) -> bool {
    &&& in_order(jobs)
    &&& forall|k: int|
        0 <= k < jobs.len() ==> {
            let job = #[trigger] jobs[k];
            &&& has_member_row(table, job.family as int, job.member as int)
            &&& member_waits(table, synth, job.family as int, job.member as int) == Some(job.id)
        }
    &&& forall|f: int, m: int|
        has_member_row(table, f, m) && (#[trigger] member_waits(table, synth, f, m)) is Some
            ==> jobs.contains(
            Job {
                id: member_waits(table, synth, f, m)->0,
                family: f as usize,
                member: m as usize,
            },
        )
}

/// What one job may take.
pub open spec fn member_job_cost(types: &TypeTable, table: &FamilyTable, job: Job) -> int {
    reader_cost(
        types,
        member_at(table, job.family as int, job.member as int).result,
        table.families.rows@[job.family as int].1.variants@.len() as int,
    )
}

/// What the jobs from `from` on may take.
pub open spec fn member_jobs_cost(
    types: &TypeTable,
    table: &FamilyTable,
    jobs: Seq<Job>,
    from: int,
) -> int
    decreases jobs.len() - from,
{
    if from < 0 || from >= jobs.len() {
        0
    } else {
        member_job_cost(types, table, jobs[from]) + member_jobs_cost(types, table, jobs, from + 1)
    }
}

/// Every reader a value member has was reserved, and no two that wait are one.
pub open spec fn members_ready(table: &FamilyTable, synth: &SynthTable) -> bool {
    &&& forall|f: int, m: int|
        has_member_row(table, f, m) ==> ((#[trigger] member_at(
            table,
            f,
            m,
        )).dispatcher matches Some(id) ==> synth.reserved(id))
    &&& forall|f: int, m: int, g: int, n: int|
        has_member_row(table, f, m) && has_member_row(table, g, n) && (#[trigger] member_waits(
            table,
            synth,
            f,
            m,
        )) is Some && member_waits(table, synth, f, m) == (#[trigger] member_waits(
            table,
            synth,
            g,
            n,
        )) ==> f == g && m == n
}

/// The reader `id` of one value member is built.
pub open spec fn member_built(
    program: &HirProgram,
    types: &TypeTable,
    synth: &SynthTable,
    tables: &ReadTables,
    table: &FamilyTable,
    f: int,
    m: int,
    id: FuncId,
) -> bool {
    let (key, info) = table.families.rows@[f];
    &&& synth.filled(id)
    &&& is_reader(
        program,
        types,
        tables,
        synth.row(id)->0,
        key,
        info.enum_id,
        info.variants@,
        info.field_members.rows@[m].0,
        info.field_members.rows@[m].1.result,
    )
}

/// The readers waiting for a body among the first `fs` families and, of the next
/// one, the first `ms` members.
spec fn lists_some(
    jobs: Seq<Job>,
    table: &FamilyTable,
    synth: &SynthTable,
    fs: int,
    ms: int,
) -> bool {
    &&& in_order(jobs)
    &&& forall|k: int|
        0 <= k < jobs.len() ==> {
            let job = #[trigger] jobs[k];
            &&& has_member_row(table, job.family as int, job.member as int)
            &&& member_waits(table, synth, job.family as int, job.member as int) == Some(job.id)
            &&& job.family < fs || (job.family == fs && job.member < ms)
        }
    &&& forall|f: int, m: int|
        has_member_row(table, f, m) && (f < fs || (f == fs && m < ms)) && (#[trigger] member_waits(
            table,
            synth,
            f,
            m,
        )) is Some ==> jobs.contains(
            Job {
                id: member_waits(table, synth, f, m)->0,
                family: f as usize,
                member: m as usize,
            },
        )
}

/// Lists the readers waiting for a body, in the order of their ids.
pub fn member_jobs(table: &FamilyTable, synth: &SynthTable) -> (jobs: Vec<Job>)
    requires
        members_ready(table, synth),
    ensures
        lists_members(jobs@, table, synth),
{
    let mut jobs: Vec<Job> = Vec::new();
    let mut f: usize = 0;
    while f < table.families.rows.len()
        invariant
            f <= table.families.rows@.len(),
            members_ready(table, synth),
            lists_some(jobs@, table, synth, f as int, 0),
        decreases table.families.rows@.len() - f,
    {
        let info = &table.families.rows[f].1;
        let mut m: usize = 0;
        while m < info.field_members.rows.len()
            invariant
                f < table.families.rows@.len(),
                *info == table.families.rows@[f as int].1,
                m <= info.field_members.rows@.len(),
                members_ready(table, synth),
                lists_some(jobs@, table, synth, f as int, m as int),
            decreases info.field_members.rows@.len() - m,
        {
            let member: FamilyField = info.field_members.rows[m].1;
            let ghost held = jobs@;
            assert(has_member_row(table, f as int, m as int));
            assert(member_at(table, f as int, m as int) == member);
            if let Some(id) = member.dispatcher {
                if synth.synth_needs_body(id) {
                    proof {
                        if job_of(held, id) {
                            let k = choose|k: int| 0 <= k < held.len() && (#[trigger] held[k]).id
                                == id;
                            assert(member_waits(
                                table,
                                synth,
                                held[k].family as int,
                                held[k].member as int,
                            ) == member_waits(table, synth, f as int, m as int));
                        }
                    }
                    add_job(&mut jobs, Job { id, family: f, member: m });
                }
            }
            proof {
                let now = jobs@;
                assert forall|k: int| 0 <= k < now.len() implies {
                    let job = #[trigger] now[k];
                    &&& has_member_row(table, job.family as int, job.member as int)
                    &&& member_waits(table, synth, job.family as int, job.member as int) == Some(
                        job.id,
                    )
                    &&& job.family < f || (job.family == f && job.member < m + 1)
                } by {
                    if held.contains(now[k]) {
                        let i = choose|i: int| 0 <= i < held.len() && held[i] == now[k];
                        assert(held[i] == now[k]);
                    }
                }
                assert forall|g: int, n: int|
                    has_member_row(table, g, n) && (g < f || (g == f && n < m + 1)) && (
                    #[trigger] member_waits(table, synth, g, n)) is Some implies now.contains(
                    Job {
                        id: member_waits(table, synth, g, n)->0,
                        family: g as usize,
                        member: n as usize,
                    },
                ) by {
                    let job = Job {
                        id: member_waits(table, synth, g, n)->0,
                        family: g as usize,
                        member: n as usize,
                    };
                    if g < f || n < m {
                        assert(held.contains(job));
                        let i = choose|i: int| 0 <= i < held.len() && held[i] == job;
                        assert(now.contains(held[i]));
                    }
                }
            }
            m += 1;
        }
        f += 1;
    }
    jobs
}

proof fn lemma_cost_from(types: &TypeTable, table: &FamilyTable, jobs: Seq<Job>, from: int)
    ensures
        member_jobs_cost(types, table, jobs, from) >= 0,
    decreases jobs.len() - from,
{
    if 0 <= from < jobs.len() {
        lemma_cost_from(types, table, jobs, from + 1);
        let job = jobs[from];
        let cost = read_cost(types, member_at(table, job.family as int, job.member as int).result);
        let variants = table.families.rows@[job.family as int].1.variants@.len() as int;
        assert((variants + 1) * cost >= 0) by (nonlinear_arith)
            requires
                variants >= 0,
                cost >= 0,
        ;
    }
}

/// Builds the body of every listed reader, in the order of their ids.
pub fn build_family_field_dispatchers(
    program: &mut HirProgram,
    synth: &mut SynthTable,
    tables: &ReadTables,
    jobs: &Vec<Job>,
)
    requires
        tagged(&old(program).types),
        tables.sigs.sigs@.len() <= u32::MAX,
        lists_members(jobs@, tables.families, old(synth)),
        old(program).room(
            member_jobs_cost(&old(program).types, tables.families, jobs@, 0),
        ),
    ensures
        final(program).built_on(old(program)),
        rows_kept(old(synth), final(synth)),
        final(synth).rows@.len() == old(synth).rows@.len(),
        forall|id: FuncId|
            old(synth).reserved(id) && !job_of(jobs@, id) ==> #[trigger] final(synth).row(id)
                == old(synth).row(id),
        forall|k: int|
            0 <= k < jobs@.len() ==> member_built(
                final(program),
                &old(program).types,
                final(synth),
                tables,
                tables.families,
                (#[trigger] jobs@[k]).family as int,
                jobs@[k].member as int,
                jobs@[k].id,
            ),
{
    let table: &FamilyTable = tables.families;
    let ghost types = program.types;
    let ghost start = *program;
    let ghost synth_start = *synth;
    let ghost total = member_jobs_cost(&types, table, jobs@, 0);
    let mut i: usize = 0;
    while i < jobs.len()
        invariant
            i <= jobs@.len(),
            types == start.types,
            *table == *tables.families,
            synth_start == *old(synth),
            tagged(&types),
            tables.sigs.sigs@.len() <= u32::MAX,
            lists_members(jobs@, table, &synth_start),
            start.exprs@.len() + total <= u32::MAX,
            start.stmts@.len() + total <= u32::MAX,
            program.built_on(&start),
            program.exprs@.len() + member_jobs_cost(&types, table, jobs@, i as int)
                <= start.exprs@.len() + total,
            program.stmts@.len() + member_jobs_cost(&types, table, jobs@, i as int)
                <= start.stmts@.len() + total,
            rows_kept(&synth_start, synth),
            synth.rows@.len() == synth_start.rows@.len(),
            forall|id: FuncId|
                synth_start.reserved(id) && !job_of(jobs@, id) ==> #[trigger] synth.row(id)
                    == synth_start.row(id),
            forall|k: int|
                i <= k < jobs@.len() ==> synth.row((#[trigger] jobs@[k]).id) is None,
            forall|k: int|
                0 <= k < i ==> member_built(
                    program,
                    &types,
                    synth,
                    tables,
                    table,
                    (#[trigger] jobs@[k]).family as int,
                    jobs@[k].member as int,
                    jobs@[k].id,
                ),
        decreases jobs@.len() - i,
    {
        let job = jobs[i];
        let ghost before = *program;
        let ghost synth_before = *synth;
        proof {
            assert(jobs@[i as int] == job);
            lemma_cost_from(&types, table, jobs@, i + 1);
        }
        let key: Symbol = table.families.rows[job.family].0;
        let info: &FamilyInfo = &table.families.rows[job.family].1;
        let (name, member): (Symbol, FamilyField) = info.field_members.rows[job.member];
        let function = construct_field_dispatcher_body(
            program,
            tables,
            key,
            info.enum_id,
            &info.variants,
            name,
            member.result,
        );
        let ghost made = function;
        synth.fill_synth(job.id, function);
        proof {
            let id = job.id;
            assert(synth_start.reserved(id));
            assert(synth.row(id) == Some(made));
            assert(synth_before.row(id) is None);
            assert(rows_kept(&synth_before, synth));
            assert forall|k: int| i + 1 <= k < jobs@.len() implies synth.row(
                (#[trigger] jobs@[k]).id,
            ) is None by {
                assert(jobs@[i as int].id.0 < jobs@[k].id.0);
                assert(synth_start.reserved(jobs@[k].id));
                assert(synth_before.row(jobs@[k].id) is None);
            }
            assert forall|other: FuncId|
                synth_start.reserved(other) && !job_of(jobs@, other) implies #[trigger] synth.row(
                other,
            ) == synth_start.row(other) by {
                assert(jobs@[i as int].id == id);
                assert(synth_before.row(other) == synth_start.row(other));
            }
            assert forall|k: int| 0 <= k < i + 1 implies member_built(
                program,
                &types,
                synth,
                tables,
                table,
                (#[trigger] jobs@[k]).family as int,
                jobs@[k].member as int,
                jobs@[k].id,
            ) by {
                if k < i {
                    let other = jobs@[k];
                    let (okey, oinfo) = table.families.rows@[other.family as int];
                    assert(synth_before.rows@[other.id.0 - synth_before.base] is Some);
                    lemma_reader_kept(
                        &before,
                        program,
                        &types,
                        tables,
                        synth_before.row(other.id)->0,
                        okey,
                        oinfo.enum_id,
                        oinfo.variants@,
                        oinfo.field_members.rows@[other.member as int].0,
                        oinfo.field_members.rows@[other.member as int].1.result,
                    );
                }
            }
        }
        i += 1;
    }
}

/// Room for every body that waits, however the waiting dispatchers are listed.
pub open spec fn dispatcher_room(
    program: &HirProgram,
    synth: &SynthTable,
    table: &FamilyTable,
) -> bool {
    forall|methods: Seq<Job>, members: Seq<Job>| #[trigger]
        lists_methods(methods, table, synth) && #[trigger] lists_members(members, table, synth) ==> {
            let first = method_jobs_cost(&program.types, table, methods, 0);
            let second = member_jobs_cost(&program.types, table, members, 0);
            &&& program.room(first + second)
            &&& synth.base + synth.rows@.len() + first <= u32::MAX
        }
}

/// No method dispatcher that waits is also a reader that waits.
pub open spec fn waits_apart(table: &FamilyTable, synth: &SynthTable) -> bool {
    forall|f: int, m: int, g: int, n: int|
        has_method_row(table, f, m) && has_member_row(table, g, n) && (#[trigger] method_waits(
            table,
            synth,
            f,
            m,
        )) is Some ==> method_waits(table, synth, f, m) != (#[trigger] member_waits(
            table,
            synth,
            g,
            n,
        ))
}

/// Fills every dispatcher a call or a read through a family value reserved: the
/// methods' first, then the value members' readers.
pub fn build_construct_dispatchers(
    program: &mut HirProgram,
    synth: &mut SynthTable,
    tables: &ReadTables,
)
    requires
        tagged(&old(program).types),
        tables.families.wf(),
        crate::dispatch_body::families_placed(tables.families),
        tables.sigs.sigs@.len() <= u32::MAX,
        old(synth).wf(),
        methods_ready(tables.families, old(synth)),
        members_ready(tables.families, old(synth)),
        waits_apart(tables.families, old(synth)),
        dispatcher_room(old(program), old(synth), tables.families),
    ensures
        final(program).built_on(old(program)),
        rows_kept(old(synth), final(synth)),
        forall|f: int, m: int|
            has_method_row(tables.families, f, m) && (#[trigger] method_waits(
                tables.families,
                old(synth),
                f,
                m,
            )) is Some ==> method_built(
                final(program),
                &old(program).types,
                final(synth),
                tables,
                tables.sigs.sigs@,
                tables.families,
                f,
                m,
                method_waits(tables.families, old(synth), f, m)->0,
            ),
        forall|f: int, m: int|
            has_member_row(tables.families, f, m) && (#[trigger] member_waits(
                tables.families,
                old(synth),
                f,
                m,
            )) is Some ==> member_built(
                final(program),
                &old(program).types,
                final(synth),
                tables,
                tables.families,
                f,
                m,
                member_waits(tables.families, old(synth), f, m)->0,
            ),
        forall|id: FuncId|
            old(synth).reserved(id) && !waited_for(tables.families, old(synth), id)
                ==> #[trigger] final(synth).row(id) == old(synth).row(id),
{
    let table: &FamilyTable = tables.families;
    let ghost start = *program;
    let ghost synth_start = *synth;
    let methods = method_jobs(table, synth);
    let members = member_jobs(table, synth);
    assert(lists_methods(methods@, table, synth) && lists_members(members@, table, synth));
    proof {
        lemma_cost_from(&program.types, table, members@, 0);
    }
    build_method_dispatchers(
        program,
        synth,
        tables,
        tables.sigs,
        table,
        &methods,
    );
    let ghost middle = *program;
    let ghost synth_middle = *synth;
    proof {
        lemma_members_still_wait(table, &synth_start, &synth_middle, methods@, members@);
    }
    build_family_field_dispatchers(program, synth, tables, &members);
    proof {
        assert forall|f: int, m: int|
            has_method_row(table, f, m) && (#[trigger] method_waits(
                table,
                &synth_start,
                f,
                m,
            )) is Some implies method_built(
            program,
            &start.types,
            synth,
            tables,
            tables.sigs.sigs@,
            table,
            f,
            m,
            method_waits(table, &synth_start, f, m)->0,
        ) by {
            let job = Job {
                id: method_waits(table, &synth_start, f, m)->0,
                family: f as usize,
                member: m as usize,
            };
            assert(methods@.contains(job));
            let k = choose|k: int| 0 <= k < methods@.len() && methods@[k] == job;
            lemma_method_built_kept(
                &middle,
                program,
                &start.types,
                &synth_middle,
                synth,
                tables,
                tables.sigs.sigs@,
                table,
                f,
                m,
                job.id,
            );
        }
        assert forall|f: int, m: int|
            has_member_row(table, f, m) && (#[trigger] member_waits(
                table,
                &synth_start,
                f,
                m,
            )) is Some implies member_built(
            program,
            &start.types,
            synth,
            tables,
            table,
            f,
            m,
            member_waits(table, &synth_start, f, m)->0,
        ) by {
            let job = Job {
                id: member_waits(table, &synth_start, f, m)->0,
                family: f as usize,
                member: m as usize,
            };
            assert(members@.contains(job));
            let k = choose|k: int| 0 <= k < members@.len() && members@[k] == job;
            assert(members@[k].family == f && members@[k].member == m);
        }
        assert forall|id: FuncId|
            synth_start.reserved(id) && !waited_for(
                table,
                &synth_start,
                id,
            ) implies #[trigger] synth.row(id) == synth_start.row(id) by {
            if job_of(methods@, id) {
                let k = choose|k: int| 0 <= k < methods@.len() && (#[trigger] methods@[k]).id == id;
                assert(method_waits(
                    table,
                    &synth_start,
                    methods@[k].family as int,
                    methods@[k].member as int,
                ) == Some(id));
            }
            if job_of(members@, id) {
                let k = choose|k: int| 0 <= k < members@.len() && (#[trigger] members@[k]).id == id;
                assert(member_waits(
                    table,
                    &synth_start,
                    members@[k].family as int,
                    members@[k].member as int,
                ) == Some(id));
            }
            assert(synth_middle.row(id) == synth_start.row(id));
            assert(synth_middle.reserved(id));
        }
    }
}

/// Whether some method's dispatcher or some member's reader that waits is `id`.
pub open spec fn waited_for(table: &FamilyTable, synth: &SynthTable, id: FuncId) -> bool {
    ||| exists|f: int, m: int|
        has_method_row(table, f, m) && #[trigger] method_waits(table, synth, f, m) == Some(id)
    ||| exists|f: int, m: int|
        has_member_row(table, f, m) && #[trigger] member_waits(table, synth, f, m) == Some(id)
}

/// Building the methods' dispatchers leaves every reader waiting.
proof fn lemma_members_still_wait(
    table: &FamilyTable,
    before: &SynthTable,
    after: &SynthTable,
    methods: Seq<Job>,
    members: Seq<Job>,
)
    requires
        rows_kept(before, after),
        waits_apart(table, before),
        members_ready(table, before),
        lists_methods(methods, table, before),
        lists_members(members, table, before),
        forall|id: FuncId|
            before.reserved(id) && !job_of(methods, id) ==> #[trigger] after.row(id) == before.row(
                id,
            ),
    ensures
        lists_members(members, table, after),
{
    assert forall|f: int, m: int| has_member_row(table, f, m) implies #[trigger] member_waits(
        table,
        after,
        f,
        m,
    ) == member_waits(table, before, f, m) by {
        let member = member_at(table, f, m);
        if let Some(id) = member.dispatcher {
            assert(before.reserved(id));
            if before.row(id) is None {
                assert(member_waits(table, before, f, m) == Some(id));
                if job_of(methods, id) {
                    let k = choose|k: int|
                        0 <= k < methods.len() && (#[trigger] methods[k]).id == id;
                    assert(method_waits(
                        table,
                        before,
                        methods[k].family as int,
                        methods[k].member as int,
                    ) == Some(id));
                }
                assert(after.row(id) == before.row(id));
            } else {
                assert(before.rows@[id.0 - before.base] is Some);
            }
        }
    }
    assert forall|k: int| 0 <= k < members.len() implies {
        let job = #[trigger] members[k];
        &&& has_member_row(table, job.family as int, job.member as int)
        &&& member_waits(table, after, job.family as int, job.member as int) == Some(job.id)
    } by {
        assert(member_waits(
            table,
            before,
            members[k].family as int,
            members[k].member as int,
        ) == Some(members[k].id));
    }
}

/// Every reader that was asked for and has no body yet is built: each value member whose
/// reader was reserved is listed once, and nothing else is.
pub proof fn every_waiting_reader_is_listed(
    jobs: Seq<Job>,
    table: &FamilyTable,
    synth: &SynthTable,
    f: int,
    m: int,
    id: FuncId,
    k: int,
)
    requires
        lists_members(jobs, table, synth),
    ensures
        0 <= f < table.families.rows@.len() && 0 <= m
            < table.families.rows@[f].1.field_members.rows@.len()
            && table.families.rows@[f].1.field_members.rows@[m].1.dispatcher == Some(id)
            && synth.reserved(id) && synth.row(id) is None ==> jobs.contains(
            Job { id, family: f as usize, member: m as usize },
        ),
        0 <= k < jobs.len() ==> table.families.rows@[jobs[k].family as int].1.field_members.rows@[
        jobs[k].member as int].1.dispatcher == Some(jobs[k].id) && synth.row(jobs[k].id) is None,
{
    if 0 <= k < jobs.len() {
        let job = jobs[k];
        assert(member_waits(table, synth, job.family as int, job.member as int) == Some(job.id));
    }
    if has_member_row(table, f, m) && member_waits(table, synth, f, m) == Some(id) {
        assert(member_waits(table, synth, f, m) is Some);
    }
}

} // verus!

//! The order families inherit in: a parent before its children.

use vstd::prelude::*;

use crate::diagnostics::{
    blamed, lemma_noted_none, lemma_noted_one, noted, read_last, Diagnostic, Log, Problem,
};
use crate::families::FamilyTable;
use crate::family_headers::FamilyDecl;
use crate::graph::{lemma_no_exit_cycles, on_cycle, reaches, reaches_cycle, Edges};
use crate::names::Symbol;
use crate::source::{SourceId, Span};
use crate::symbol_map::{keyed, lemma_row, ordered, value_of, SymbolMap};

verus! {

/// One family's `extends` clause, each parent once and a family.
#[derive(Debug)]
pub struct FamilyParents {
    pub child: Symbol,
    pub parents: Vec<(Symbol, Span)>,
    pub source: SourceId,
}

/// Whether one of `parents` is called `name`.
pub open spec fn names_parent(parents: Seq<(Symbol, Span)>, name: Symbol) -> bool {
    exists|i: int| 0 <= i < parents.len() && (#[trigger] parents[i]).0 == name
}

/// The parents a clause really names, and what it is refused for.
pub open spec fn parents_read(
    table: &FamilyTable,
    child: Symbol,
    extends: Seq<(Symbol, Span)>,
) -> (Seq<(Symbol, Span)>, Seq<(Span, Problem)>)
    decreases extends.len(),
{
    if extends.len() == 0 {
        (Seq::empty(), Seq::empty())
    } else {
        let (parents, problems) = parents_read(table, child, extends.drop_last());
        let (name, span) = extends.last();
        if name == child {
            (parents, problems.push((span, Problem::FamilyExtendsItself { family: child })))
        } else if !table.families@.contains_key(name) {
            (
                parents,
                problems.push((span, Problem::ExtendsNoFamily { family: child, parent: name })),
            )
        } else if names_parent(parents, name) {
            (
                parents,
                problems.push((span, Problem::FamilyExtendsTwice { family: child, parent: name })),
            )
        } else {
            (parents.push((name, span)), problems)
        }
    }
}

fn parent_listed(parents: &Vec<(Symbol, Span)>, name: Symbol) -> (res: bool)
    ensures
        res == names_parent(parents@, name),
{
    let mut i: usize = 0;
    while i < parents.len()
        invariant
            i <= parents@.len(),
            forall|k: int| 0 <= k < i ==> (#[trigger] parents@[k]).0 != name,
        decreases parents@.len() - i,
    {
        if parents[i].0 == name {
            return true;
        }
        i += 1;
    }
    false
}

fn read_parents(table: &FamilyTable, decl: &FamilyDecl, log: &mut Log) -> (parents: Vec<
    (Symbol, Span),
>)
    requires
        table.wf(),
    ensures
        parents@ == parents_read(table, decl.name, decl.extends@).0,
        final(log).source == old(log).source,
        final(log).diagnostics@ == old(log).diagnostics@ + noted(
            old(log).source,
            parents_read(table, decl.name, decl.extends@).1,
        ),
{
    let ghost said = log.diagnostics@;
    let ghost source = log.source;
    let mut parents: Vec<(Symbol, Span)> = Vec::new();
    let mut i: usize = 0;
    proof {
        assert(decl.extends@.take(0) =~= Seq::empty());
        lemma_noted_none(said, source);
    }
    while i < decl.extends.len()
        invariant
            i <= decl.extends@.len(),
            table.wf(),
            log.source == source,
            parents@ == parents_read(table, decl.name, decl.extends@.take(i as int)).0,
            log.diagnostics@ == said + noted(
                source,
                parents_read(table, decl.name, decl.extends@.take(i as int)).1,
            ),
        decreases decl.extends@.len() - i,
    {
        let (name, span): (Symbol, Span) = decl.extends[i];
        let ghost before = parents_read(table, decl.name, decl.extends@.take(i as int)).1;
        proof {
            assert(decl.extends@.take(i + 1).drop_last() =~= decl.extends@.take(i as int));
            assert(decl.extends@.take(i + 1).last() == decl.extends@[i as int]);
        }
        if name == decl.name {
            proof {
                lemma_noted_one(
                    said,
                    source,
                    before,
                    span,
                    Problem::FamilyExtendsItself { family: decl.name },
                );
            }
            log.emit(span, Problem::FamilyExtendsItself { family: decl.name });
        } else if !table.families.contains(name) {
            proof {
                lemma_noted_one(
                    said,
                    source,
                    before,
                    span,
                    Problem::ExtendsNoFamily { family: decl.name, parent: name },
                );
            }
            log.emit(span, Problem::ExtendsNoFamily { family: decl.name, parent: name });
        } else if parent_listed(&parents, name) {
            proof {
                lemma_noted_one(
                    said,
                    source,
                    before,
                    span,
                    Problem::FamilyExtendsTwice { family: decl.name, parent: name },
                );
            }
            log.emit(span, Problem::FamilyExtendsTwice { family: decl.name, parent: name });
        } else {
            parents.push((name, span));
        }
        i += 1;
    }
    assert(decl.extends@.take(i as int) =~= decl.extends@);
    parents
}

/// What reading the clauses of the first `count` families reports, each blamed in
/// its own file.
pub open spec fn clause_problems(
    table: &FamilyTable,
    decls: Seq<FamilyDecl>,
    count: int,
) -> Seq<Diagnostic>
    decreases count,
{
    if count <= 0 {
        Seq::empty()
    } else {
        let decl = decls[count - 1];
        clause_problems(table, decls, count - 1) + if decl.extends@.len() == 0 {
            Seq::empty()
        } else {
            noted(decl.source, parents_read(table, decl.name, decl.extends@).1)
        }
    }
}

/// The families among the first `count` that write an `extends` clause.
pub open spec fn extending(decls: Seq<FamilyDecl>, count: int) -> Seq<int>
    decreases count,
{
    if count <= 0 {
        Seq::empty()
    } else if decls[count - 1].extends@.len() == 0 {
        extending(decls, count - 1)
    } else {
        extending(decls, count - 1).push(count - 1)
    }
}

/// The file being read once the clauses of the families at `indices` were: the
/// last one's, or `source` where there was none.
pub open spec fn read_of(
    decls: Seq<FamilyDecl>,
    indices: Seq<int>,
    source: SourceId,
) -> SourceId {
    if indices.len() == 0 {
        source
    } else {
        decls[indices.last()].source
    }
}

/// `row` is what the clause of `decl` says.
pub open spec fn clause_of(table: &FamilyTable, row: FamilyParents, decl: FamilyDecl) -> bool {
    &&& row.child == decl.name
    &&& row.source == decl.source
    &&& row.parents@ == parents_read(table, decl.name, decl.extends@).0
}

/// Reads each family's `extends` clause, refusing a parent that is no family, a
/// family that extends itself, and a parent named twice.
pub fn collect_family_parents(
    table: &FamilyTable,
    decls: &Vec<FamilyDecl>,
    log: &mut Log,
) -> (rows: Vec<FamilyParents>)
    requires
        table.wf(),
    ensures
        rows@.len() == extending(decls@, decls@.len() as int).len(),
        forall|k: int|
            0 <= k < rows@.len() ==> clause_of(
                table,
                #[trigger] rows@[k],
                decls@[extending(decls@, decls@.len() as int)[k]],
            ),
        final(log).diagnostics@ == old(log).diagnostics@ + clause_problems(
            table,
            decls@,
            decls@.len() as int,
        ),
        final(log).source == read_of(
            decls@,
            extending(decls@, decls@.len() as int),
            old(log).source,
        ),
{
    let ghost said = log.diagnostics@;
    let mut rows: Vec<FamilyParents> = Vec::new();
    let mut i: usize = 0;
    assert(said + Seq::<Diagnostic>::empty() =~= said);
    while i < decls.len()
        invariant
            i <= decls@.len(),
            table.wf(),
            rows@.len() == extending(decls@, i as int).len(),
            forall|k: int|
                0 <= k < rows@.len() ==> clause_of(
                    table,
                    #[trigger] rows@[k],
                    decls@[extending(decls@, i as int)[k]],
                ),
            log.diagnostics@ == said + clause_problems(table, decls@, i as int),
            log.source == read_of(decls@, extending(decls@, i as int), old(log).source),
        decreases decls@.len() - i,
    {
        let decl = &decls[i];
        let ghost before = clause_problems(table, decls@, i as int);
        let ghost held = rows@;
        if decl.extends.len() > 0 {
            log.source = decl.source;
            let parents = read_parents(table, decl, log);
            rows.push(FamilyParents { child: decl.name, parents, source: decl.source });
            proof {
                assert(log.diagnostics@ =~= said + clause_problems(table, decls@, i + 1));
                assert forall|k: int| 0 <= k < rows@.len() implies clause_of(
                    table,
                    #[trigger] rows@[k],
                    decls@[extending(decls@, i + 1)[k]],
                ) by {
                    if k < held.len() {
                        assert(rows@[k] == held[k]);
                    }
                }
            }
        } else {
            assert(clause_problems(table, decls@, i + 1) =~= before);
        }
        i += 1;
    }
    rows
}

/// Families still to be placed, by name, each with its row.
pub open spec fn waiting_rows(rows: Seq<FamilyParents>, pending: Seq<(Symbol, usize)>) -> bool {
    &&& ordered(pending)
    &&& forall|k: int|
        0 <= k < pending.len() ==> (#[trigger] pending[k]).1 < rows.len()
            && rows[pending[k].1 as int].child == pending[k].0
}

/// Whether a family waits for a parent that is still to be placed.
pub open spec fn held_up(
    rows: Seq<FamilyParents>,
    pending: Seq<(Symbol, usize)>,
    row: usize,
) -> bool {
    exists|p: int|
        0 <= p < rows[row as int].parents@.len() && keyed(
            pending,
            (#[trigger] rows[row as int].parents@[p]).0,
        )
}

/// The families among the first `count` that wait for no parent.
pub open spec fn free_of(
    rows: Seq<FamilyParents>,
    pending: Seq<(Symbol, usize)>,
    count: int,
) -> Seq<(Symbol, usize)>
    decreases count,
{
    if count <= 0 {
        Seq::empty()
    } else if held_up(rows, pending, pending[count - 1].1) {
        free_of(rows, pending, count - 1)
    } else {
        free_of(rows, pending, count - 1).push(pending[count - 1])
    }
}

/// The families among the first `count` that wait for one.
pub open spec fn stuck_of(
    rows: Seq<FamilyParents>,
    pending: Seq<(Symbol, usize)>,
    count: int,
) -> Seq<(Symbol, usize)>
    decreases count,
{
    if count <= 0 {
        Seq::empty()
    } else if held_up(rows, pending, pending[count - 1].1) {
        stuck_of(rows, pending, count - 1).push(pending[count - 1])
    } else {
        stuck_of(rows, pending, count - 1)
    }
}

proof fn lemma_split(rows: Seq<FamilyParents>, pending: Seq<(Symbol, usize)>, count: int)
    requires
        0 <= count <= pending.len(),
    ensures
        free_of(rows, pending, count).len() + stuck_of(rows, pending, count).len() == count,
        forall|k: int|
            0 <= k < free_of(rows, pending, count).len() ==> exists|j: int|
                0 <= j < count && #[trigger] pending[j] == #[trigger] free_of(
                    rows,
                    pending,
                    count,
                )[k] && !held_up(rows, pending, pending[j].1),
        forall|k: int|
            0 <= k < stuck_of(rows, pending, count).len() ==> exists|j: int|
                0 <= j < count && #[trigger] pending[j] == #[trigger] stuck_of(
                    rows,
                    pending,
                    count,
                )[k] && held_up(rows, pending, pending[j].1),
        forall|j: int|
            0 <= j < count ==> if held_up(rows, pending, (#[trigger] pending[j]).1) {
                stuck_of(rows, pending, count).contains(pending[j])
            } else {
                free_of(rows, pending, count).contains(pending[j])
            },
        ordered(pending) ==> ordered(stuck_of(rows, pending, count)),
        count > 0 && ordered(pending) ==> forall|k: int|
            0 <= k < stuck_of(rows, pending, count).len() ==> (#[trigger] stuck_of(
                rows,
                pending,
                count,
            )[k]).0.0 <= pending[count - 1].0.0,
    decreases count,
{
    if count > 0 {
        lemma_split(rows, pending, count - 1);
        let free = free_of(rows, pending, count);
        let stuck = stuck_of(rows, pending, count);
        let free_before = free_of(rows, pending, count - 1);
        let stuck_before = stuck_of(rows, pending, count - 1);
        assert forall|k: int| 0 <= k < free.len() implies exists|j: int|
            0 <= j < count && #[trigger] pending[j] == #[trigger] free[k] && !held_up(
                rows,
                pending,
                pending[j].1,
            ) by {
            if k < free_before.len() {
                assert(free[k] == free_before[k]);
                let j = choose|j: int|
                    0 <= j < count - 1 && #[trigger] pending[j] == free_before[k] && !held_up(
                        rows,
                        pending,
                        pending[j].1,
                    );
                assert(pending[j] == free[k]);
            } else {
                assert(pending[count - 1] == free[k]);
            }
        }
        assert forall|k: int| 0 <= k < stuck.len() implies exists|j: int|
            0 <= j < count && #[trigger] pending[j] == #[trigger] stuck[k] && held_up(
                rows,
                pending,
                pending[j].1,
            ) by {
            if k < stuck_before.len() {
                assert(stuck[k] == stuck_before[k]);
                let j = choose|j: int|
                    0 <= j < count - 1 && #[trigger] pending[j] == stuck_before[k] && held_up(
                        rows,
                        pending,
                        pending[j].1,
                    );
                assert(pending[j] == stuck[k]);
            } else {
                assert(pending[count - 1] == stuck[k]);
            }
        }
        assert forall|j: int| 0 <= j < count implies if held_up(
            rows,
            pending,
            (#[trigger] pending[j]).1,
        ) {
            stuck.contains(pending[j])
        } else {
            free.contains(pending[j])
        } by {
            if j < count - 1 {
                if held_up(rows, pending, pending[j].1) {
                    let k = choose|k: int|
                        0 <= k < stuck_before.len() && stuck_before[k] == pending[j];
                    assert(stuck[k] == pending[j]);
                } else {
                    let k = choose|k: int|
                        0 <= k < free_before.len() && free_before[k] == pending[j];
                    assert(free[k] == pending[j]);
                }
            } else if held_up(rows, pending, pending[j].1) {
                assert(stuck[stuck.len() - 1] == pending[j]);
            } else {
                assert(free[free.len() - 1] == pending[j]);
            }
        }
        if ordered(pending) {
            assert forall|a: int, b: int| 0 <= a < b < stuck.len() implies (
            #[trigger] stuck[a]).0.0 < (#[trigger] stuck[b]).0.0 by {
                if b < stuck_before.len() {
                    assert(stuck[a] == stuck_before[a] && stuck[b] == stuck_before[b]);
                } else {
                    assert(stuck[a] == stuck_before[a]);
                    assert(stuck_before[a].0.0 <= pending[count - 2].0.0);
                    assert(pending[count - 2].0.0 < pending[count - 1].0.0);
                }
            }
            assert forall|k: int| 0 <= k < stuck.len() implies (#[trigger] stuck[k]).0.0
                <= pending[count - 1].0.0 by {
                if k < stuck_before.len() {
                    assert(stuck[k] == stuck_before[k]);
                    assert(pending[count - 2].0.0 < pending[count - 1].0.0);
                }
            }
        }
    }
}

/// The families placed from `pending`, round by round: every family of a round
/// waits for no parent that is still to be placed, and a round is in name order.
pub open spec fn placed_from(rows: Seq<FamilyParents>, pending: Seq<(Symbol, usize)>) -> Seq<
    (Symbol, usize),
>
    decreases pending.len(),
{
    let stuck = stuck_of(rows, pending, pending.len() as int);
    if stuck.len() < pending.len() {
        free_of(rows, pending, pending.len() as int) + placed_from(rows, stuck)
    } else {
        Seq::empty()
    }
}

/// The families that are never placed.
pub open spec fn never_placed(rows: Seq<FamilyParents>, pending: Seq<(Symbol, usize)>) -> Seq<
    (Symbol, usize),
>
    decreases pending.len(),
{
    let stuck = stuck_of(rows, pending, pending.len() as int);
    if stuck.len() < pending.len() {
        never_placed(rows, stuck)
    } else {
        pending
    }
}

/// The last row of each child among the first `count`.
pub open spec fn last_rows(rows: Seq<FamilyParents>, count: int) -> Map<Symbol, usize>
    decreases count,
{
    if count <= 0 {
        Map::empty()
    } else {
        last_rows(rows, count - 1).insert(rows[count - 1].child, (count - 1) as usize)
    }
}

/// `pending` lists `map` in name order.
pub open spec fn lists(pending: Seq<(Symbol, usize)>, map: Map<Symbol, usize>) -> bool {
    &&& ordered(pending)
    &&& forall|key: Symbol| #[trigger] keyed(pending, key) <==> map.contains_key(key)
    &&& forall|key: Symbol| keyed(pending, key) ==> #[trigger] value_of(pending, key) == map[key]
}

/// What is reported of families that are never placed.
pub open spec fn cycle_reports(rows: Seq<FamilyParents>, stuck: Seq<(Symbol, usize)>) -> Seq<
    Diagnostic,
>
    decreases stuck.len(),
{
    if stuck.len() == 0 {
        Seq::empty()
    } else {
        let row = rows[stuck.last().1 as int];
        let before = cycle_reports(rows, stuck.drop_last());
        if row.parents@.len() == 0 {
            before
        } else {
            before.push(
                blamed(
                    row.source,
                    row.parents@[0].1,
                    Problem::FamilyCycle { family: row.child },
                ),
            )
        }
    }
}

fn waits(rows: &Vec<FamilyParents>, pending: &SymbolMap<usize>, row: usize) -> (res: bool)
    requires
        pending.wf(),
        row < rows@.len(),
    ensures
        res == held_up(rows@, pending.rows@, row),
{
    let parents = &rows[row].parents;
    let mut p: usize = 0;
    while p < parents.len()
        invariant
            p <= parents@.len(),
            row < rows@.len(),
            parents@ == rows@[row as int].parents@,
            pending.wf(),
            forall|k: int|
                0 <= k < p ==> !keyed(pending.rows@, (#[trigger] rows@[row as int].parents@[k]).0),
        decreases parents@.len() - p,
    {
        if pending.contains(parents[p].0) {
            assert(keyed(pending.rows@, rows@[row as int].parents@[p as int].0));
            return true;
        }
        p += 1;
    }
    false
}

/// Orders families so that a parent comes before its children, reporting every
/// family that inherits from itself or from one that does.
///
/// A cycle is refused rather than broken somewhere: what a declaration must
/// satisfy would otherwise depend on which family was reached first.
pub fn family_inheritance_order(rows: &Vec<FamilyParents>, log: &mut Log) -> (order: Vec<Symbol>)
    ensures
        exists|pending: Seq<(Symbol, usize)>|
            {
                &&& #[trigger] lists(pending, last_rows(rows@, rows@.len() as int))
                &&& waiting_rows(rows@, pending)
                &&& order@ == placed_from(rows@, pending).map_values(
                    |entry: (Symbol, usize)| entry.0,
                )
                &&& final(log).diagnostics@ == old(log).diagnostics@ + cycle_reports(
                    rows@,
                    never_placed(rows@, pending),
                )
                &&& final(log).source == read_last(
                    old(log).source,
                    cycle_reports(rows@, never_placed(rows@, pending)),
                )
            },
{
    let mut pending: SymbolMap<usize> = SymbolMap::new();
    let mut i: usize = 0;
    while i < rows.len()
        invariant
            i <= rows@.len(),
            pending.wf(),
            pending@ == last_rows(rows@, i as int),
            forall|key: Symbol| #[trigger]
                pending@.contains_key(key) ==> pending@[key] < rows@.len()
                    && rows@[pending@[key] as int].child == key,
        decreases rows@.len() - i,
    {
        pending.insert(rows[i].child, i);
        i += 1;
    }
    let ghost start = pending.rows@;
    proof {
        assert(lists(start, last_rows(rows@, rows@.len() as int))) by {
            assert forall|key: Symbol| #[trigger] keyed(start, key) <==> last_rows(
                rows@,
                rows@.len() as int,
            ).contains_key(key) by {
                assert(pending@.contains_key(key) <==> keyed(start, key));
            }
            assert forall|key: Symbol| keyed(start, key) implies #[trigger] value_of(start, key)
                == last_rows(rows@, rows@.len() as int)[key] by {
                assert(pending@[key] == value_of(start, key));
            }
        }
        assert forall|k: int| 0 <= k < start.len() implies (#[trigger] start[k]).1 < rows@.len()
            && rows@[start[k].1 as int].child == start[k].0 by {
            lemma_row(start, k);
            assert(pending@.contains_key(start[k].0));
        }
    }
    let mut order: Vec<Symbol> = Vec::new();
    let mut running: bool = true;
    proof {
        assert(order@ + placed_from(rows@, start).map_values(|entry: (Symbol, usize)| entry.0)
            =~= placed_from(rows@, start).map_values(|entry: (Symbol, usize)| entry.0));
    }
    while running
        invariant
            waiting_rows(rows@, pending.rows@),
            placed_from(rows@, start).map_values(|entry: (Symbol, usize)| entry.0) == order@
                + placed_from(rows@, pending.rows@).map_values(|entry: (Symbol, usize)| entry.0),
            never_placed(rows@, start) == never_placed(rows@, pending.rows@),
            !running ==> stuck_of(rows@, pending.rows@, pending.rows@.len() as int).len()
                == pending.rows@.len(),
        decreases pending.rows@.len(), running as int,
    {
        let ghost before = pending.rows@;
        let ghost placed_before = order@;
        proof {
            lemma_split(rows@, before, before.len() as int);
        }
        let rest = one_round(rows, &pending, &mut order);
        proof {
            lemma_stuck_waits(rows@, before);
            let free = free_of(rows@, before, before.len() as int);
            let key = |entry: (Symbol, usize)| entry.0;
            if rest.rows@.len() < before.len() {
                assert((free + placed_from(rows@, rest.rows@)).map_values(key) =~= free.map_values(
                    key,
                ) + placed_from(rows@, rest.rows@).map_values(key));
                assert(order@ + placed_from(rows@, rest.rows@).map_values(key) =~= placed_before
                    + placed_from(rows@, before).map_values(key));
            } else {
                assert(free =~= Seq::empty());
                assert(order@ =~= placed_before);
                lemma_all_stuck(rows@, before);
            }
        }
        running = rest.rows.len() < pending.rows.len();
        pending = rest;
    }
    proof {
        assert(placed_from(rows@, pending.rows@) =~= Seq::empty());
        assert(order@ =~= placed_from(rows@, start).map_values(
            |entry: (Symbol, usize)| entry.0,
        ));
    }
    report_cycles(rows, &pending, log);
    order
}

/// Where every family is held up, those that are held up are all of them.
proof fn lemma_all_stuck(rows: Seq<FamilyParents>, pending: Seq<(Symbol, usize)>)
    requires
        stuck_of(rows, pending, pending.len() as int).len() == pending.len(),
    ensures
        stuck_of(rows, pending, pending.len() as int) == pending,
{
    lemma_stuck_prefix(rows, pending, pending.len() as int);
    assert(pending.take(pending.len() as int) =~= pending);
}

proof fn lemma_stuck_prefix(rows: Seq<FamilyParents>, pending: Seq<(Symbol, usize)>, count: int)
    requires
        0 <= count <= pending.len(),
        stuck_of(rows, pending, count).len() == count,
    ensures
        stuck_of(rows, pending, count) == pending.take(count),
    decreases count,
{
    if count > 0 {
        lemma_split(rows, pending, count - 1);
        lemma_stuck_prefix(rows, pending, count - 1);
        assert(pending.take(count) =~= pending.take(count - 1).push(pending[count - 1]));
    } else {
        assert(pending.take(0) =~= Seq::empty());
    }
}

/// Places every family that waits for no parent, returning those that do.
fn one_round(
    rows: &Vec<FamilyParents>,
    pending: &SymbolMap<usize>,
    order: &mut Vec<Symbol>,
) -> (rest: SymbolMap<usize>)
    requires
        waiting_rows(rows@, pending.rows@),
    ensures
        rest.wf(),
        rest.rows@ == stuck_of(rows@, pending.rows@, pending.rows@.len() as int),
        final(order)@ == old(order)@ + free_of(
            rows@,
            pending.rows@,
            pending.rows@.len() as int,
        ).map_values(|entry: (Symbol, usize)| entry.0),
{
    let ghost all = pending.rows@;
    let mut kept: Vec<(Symbol, usize)> = Vec::new();
    let mut k: usize = 0;
    assert(order@ + Seq::<(Symbol, usize)>::empty().map_values(
        |entry: (Symbol, usize)| entry.0,
    ) =~= order@);
    while k < pending.rows.len()
        invariant
            k <= all.len(),
            all == pending.rows@,
            waiting_rows(rows@, all),
            kept@ == stuck_of(rows@, all, k as int),
            order@ == old(order)@ + free_of(rows@, all, k as int).map_values(
                |entry: (Symbol, usize)| entry.0,
            ),
        decreases all.len() - k,
    {
        let (child, row): (Symbol, usize) = pending.rows[k];
        let ghost placed_before = order@;
        if waits(rows, pending, row) {
            kept.push((child, row));
        } else {
            order.push(child);
            assert(order@ =~= old(order)@ + free_of(rows@, all, k + 1).map_values(
                |entry: (Symbol, usize)| entry.0,
            ));
        }
        k += 1;
    }
    proof {
        lemma_split(rows@, all, all.len() as int);
    }
    SymbolMap { rows: kept }
}

fn report_cycles(rows: &Vec<FamilyParents>, stuck: &SymbolMap<usize>, log: &mut Log)
    requires
        waiting_rows(rows@, stuck.rows@),
    ensures
        final(log).diagnostics@ == old(log).diagnostics@ + cycle_reports(rows@, stuck.rows@),
        final(log).source == read_last(old(log).source, cycle_reports(rows@, stuck.rows@)),
{
    let ghost all = stuck.rows@;
    let ghost said = log.diagnostics@;
    let mut k: usize = 0;
    proof {
        assert(all.take(0) =~= Seq::empty());
        assert(said + Seq::<Diagnostic>::empty() =~= said);
    }
    while k < stuck.rows.len()
        invariant
            k <= all.len(),
            all == stuck.rows@,
            waiting_rows(rows@, all),
            log.diagnostics@ == said + cycle_reports(rows@, all.take(k as int)),
            log.source == read_last(old(log).source, cycle_reports(rows@, all.take(k as int))),
        decreases all.len() - k,
    {
        let row = &rows[stuck.rows[k].1];
        proof {
            assert(all.take(k + 1).drop_last() =~= all.take(k as int));
            assert(all.take(k + 1).last() == all[k as int]);
        }
        if row.parents.len() > 0 {
            log.source = row.source;
            log.emit(row.parents[0].1, Problem::FamilyCycle { family: row.child });
            assert(log.diagnostics@ =~= said + cycle_reports(rows@, all.take(k + 1)));
        }
        k += 1;
    }
    assert(all.take(k as int) =~= all);
}

/// Every parent a placed family waited for was placed before it.
pub proof fn parents_are_placed_first(
    rows: Seq<FamilyParents>,
    pending: Seq<(Symbol, usize)>,
    i: int,
    p: int,
) -> (j: int)
    requires
        waiting_rows(rows, pending),
        0 <= i < placed_from(rows, pending).len(),
        0 <= p < rows[placed_from(rows, pending)[i].1 as int].parents@.len(),
        keyed(pending, rows[placed_from(rows, pending)[i].1 as int].parents@[p].0),
    ensures
        0 <= j < i,
        placed_from(rows, pending)[j].0 == rows[placed_from(
            rows,
            pending,
        )[i].1 as int].parents@[p].0,
    decreases pending.len(),
{
    let all = placed_from(rows, pending);
    let free = free_of(rows, pending, pending.len() as int);
    let stuck = stuck_of(rows, pending, pending.len() as int);
    let parent = rows[all[i].1 as int].parents@[p].0;
    lemma_split(rows, pending, pending.len() as int);
    if i < free.len() {
        assert(all[i] == free[i]);
        let k = choose|k: int|
            0 <= k < pending.len() && #[trigger] pending[k] == free[i] && !held_up(
                rows,
                pending,
                pending[k].1,
            );
        assert(keyed(pending, rows[pending[k].1 as int].parents@[p].0));
        0
    } else {
        let later = placed_from(rows, stuck);
        assert(all[i] == later[i - free.len()]);
        let at = choose|at: int| 0 <= at < pending.len() && (#[trigger] pending[at]).0 == parent;
        if held_up(rows, pending, pending[at].1) {
            assert(stuck.contains(pending[at]));
            let s = choose|s: int| 0 <= s < stuck.len() && stuck[s] == pending[at];
            assert(stuck[s].0 == parent);
            assert(keyed(stuck, parent));
            lemma_stuck_waits(rows, pending);
            let j = parents_are_placed_first(rows, stuck, i - free.len(), p);
            assert(all[free.len() + j] == later[j]);
            free.len() + j
        } else {
            assert(free.contains(pending[at]));
            let f = choose|f: int| 0 <= f < free.len() && free[f] == pending[at];
            assert(all[f] == free[f]);
            f
        }
    }
}

/// Extending, as a relation between rows of families still to be placed.
pub open spec fn extends_edges(rows: Seq<FamilyParents>, pending: Seq<(Symbol, usize)>) -> Edges {
    |a: int, b: int|
        0 <= a < rows.len() && keyed(pending, rows[b].child) && b == value_of(
            pending,
            rows[b].child,
        ) && names_parent(rows[a].parents@, rows[b].child)
}

/// A family that is never placed extends its way into a cycle: nothing is refused
/// that could have been ordered.
#[verifier::spinoff_prover]
#[verifier::rlimit(50)]
pub proof fn unplaced_families_reach_a_cycle(
    rows: Seq<FamilyParents>,
    pending: Seq<(Symbol, usize)>,
    k: int,
)
    requires
        waiting_rows(rows, pending),
        0 <= k < never_placed(rows, pending).len(),
    ensures
        reaches_cycle(
            extends_edges(rows, never_placed(rows, pending)),
            never_placed(rows, pending)[k].1 as int,
        ),
    decreases pending.len(),
{
    let stuck = stuck_of(rows, pending, pending.len() as int);
    if stuck.len() < pending.len() {
        lemma_stuck_waits(rows, pending);
        unplaced_families_reach_a_cycle(rows, stuck, k);
    } else {
        assert(stuck.len() == pending.len()) by {
            lemma_split(rows, pending, pending.len() as int);
        }
        let edge = extends_edges(rows, pending);
        let inside = |x: int| is_waiting(rows, pending, x);
        lemma_row(pending, k);
        assert(inside(pending[k].1 as int));
        assert forall|x: int| #[trigger] inside(x) implies exists|y: int| #[trigger]
            edge(x, y) && inside(y) by {
            let y = lemma_waiting_parent(rows, pending, x);
            assert(edge(x, y) && inside(y));
        }
        lemma_no_exit_cycles(edge, inside, rows.len() as int, pending[k].1 as int);
        let b = choose|b: int| #[trigger]
            reaches(edge, pending[k].1 as int, b) && on_cycle(edge, b) && inside(b);
        assert(reaches(edge, pending[k].1 as int, b) && on_cycle(edge, b));
    }
}

/// Row `x` is the waiting row of its family.
pub open spec fn is_waiting(rows: Seq<FamilyParents>, pending: Seq<(Symbol, usize)>, x: int) -> bool {
    0 <= x < rows.len() && keyed(pending, rows[x].child) && value_of(pending, rows[x].child) == x
}

/// What is held up is still a list of waiting rows.
proof fn lemma_stuck_waits(rows: Seq<FamilyParents>, pending: Seq<(Symbol, usize)>)
    requires
        waiting_rows(rows, pending),
    ensures
        waiting_rows(rows, stuck_of(rows, pending, pending.len() as int)),
{
    let stuck = stuck_of(rows, pending, pending.len() as int);
    lemma_split(rows, pending, pending.len() as int);
    assert forall|m: int| 0 <= m < stuck.len() implies (#[trigger] stuck[m]).1 < rows.len()
        && rows[stuck[m].1 as int].child == stuck[m].0 by {
        let j = choose|j: int|
            0 <= j < pending.len() && #[trigger] pending[j] == stuck[m] && held_up(
                rows,
                pending,
                pending[j].1,
            );
    }
}

/// Where every family is held up, each has a parent that is too.
proof fn lemma_waiting_parent(
    rows: Seq<FamilyParents>,
    pending: Seq<(Symbol, usize)>,
    x: int,
) -> (y: int)
    requires
        waiting_rows(rows, pending),
        stuck_of(rows, pending, pending.len() as int).len() == pending.len(),
        is_waiting(rows, pending, x),
    ensures
        is_waiting(rows, pending, y),
        names_parent(rows[x].parents@, rows[y].child),
{
    let at = choose|at: int| 0 <= at < pending.len() && (#[trigger] pending[at]).0 == rows[x].child;
    lemma_row(pending, at);
    assert(pending[at].1 == x);
    lemma_all_held_up(rows, pending, pending.len() as int, at);
    let p = choose|p: int|
        0 <= p < rows[x].parents@.len() && keyed(pending, (#[trigger] rows[x].parents@[p]).0);
    let parent = rows[x].parents@[p].0;
    let q = choose|q: int| 0 <= q < pending.len() && (#[trigger] pending[q]).0 == parent;
    lemma_row(pending, q);
    let y = pending[q].1 as int;
    assert(rows[y].child == parent);
    y
}

proof fn lemma_all_held_up(
    rows: Seq<FamilyParents>,
    pending: Seq<(Symbol, usize)>,
    count: int,
    at: int,
)
    requires
        0 <= at < count <= pending.len(),
        stuck_of(rows, pending, count).len() == count,
    ensures
        held_up(rows, pending, pending[at].1),
    decreases count,
{
    lemma_split(rows, pending, count - 1);
    if at < count - 1 {
        lemma_all_held_up(rows, pending, count - 1, at);
    }
}

proof fn lemma_parents_read(table: &FamilyTable, child: Symbol, extends: Seq<(Symbol, Span)>)
    ensures
        ({
            let (parents, problems) = parents_read(table, child, extends);
            &&& parents.len() + problems.len() == extends.len()
            &&& forall|k: int|
                0 <= k < parents.len() ==> extends.contains(#[trigger] parents[k])
                    && table.families@.contains_key(parents[k].0) && parents[k].0 != child
            &&& forall|i: int, j: int|
                0 <= i < j < parents.len() ==> (#[trigger] parents[i]).0 != (#[trigger] parents[j]).0
            &&& forall|i: int|
                0 <= i < extends.len() && (#[trigger] extends[i]).0 != child
                    && table.families@.contains_key(extends[i].0) ==> names_parent(
                    parents,
                    extends[i].0,
                )
        }),
    decreases extends.len(),
{
    if extends.len() > 0 {
        let rest = extends.drop_last();
        lemma_parents_read(table, child, rest);
        let before = parents_read(table, child, rest).0;
        let parents = parents_read(table, child, extends).0;
        assert forall|k: int| 0 <= k < parents.len() implies extends.contains(#[trigger] parents[k])
            && table.families@.contains_key(parents[k].0) && parents[k].0 != child by {
            if k < before.len() {
                assert(rest.contains(before[k]));
                let j = choose|j: int| 0 <= j < rest.len() && rest[j] == before[k];
                assert(extends[j] == parents[k]);
            } else {
                assert(extends[extends.len() - 1] == parents[k]);
            }
        }
        assert forall|i: int|
            0 <= i < extends.len() && (#[trigger] extends[i]).0 != child
                && table.families@.contains_key(extends[i].0) implies names_parent(
            parents,
            extends[i].0,
        ) by {
            if i < rest.len() {
                assert(rest[i] == extends[i]);
                let k = choose|k: int| 0 <= k < before.len() && (#[trigger] before[k]).0
                    == extends[i].0;
                assert(parents[k].0 == extends[i].0);
            } else if names_parent(before, extends[i].0) {
                let k = choose|k: int| 0 <= k < before.len() && (#[trigger] before[k]).0
                    == extends[i].0;
                assert(parents[k].0 == extends[i].0);
            } else {
                assert(parents[parents.len() - 1].0 == extends[i].0);
            }
        }
    }
}

/// An `extends` clause keeps every family it names but itself, each once, and only those;
/// everything else it names is refused, one report each.
pub proof fn a_clause_keeps_the_families_it_names(
    table: &FamilyTable,
    child: Symbol,
    extends: Seq<(Symbol, Span)>,
    i: int,
)
    ensures
        ({
            let (parents, problems) = parents_read(table, child, extends);
            &&& parents.len() + problems.len() == extends.len()
            &&& 0 <= i < parents.len() ==> extends.contains(parents[i])
                && table.families@.contains_key(parents[i].0) && parents[i].0 != child
            &&& forall|a: int, b: int|
                0 <= a < b < parents.len() ==> (#[trigger] parents[a]).0 != (#[trigger] parents[b]).0
            &&& 0 <= i < extends.len() && extends[i].0 != child && table.families@.contains_key(
                extends[i].0,
            ) ==> exists|k: int| 0 <= k < parents.len() && (#[trigger] parents[k]).0 == extends[i].0
        }),
{
    lemma_parents_read(table, child, extends);
    if 0 <= i < extends.len() && extends[i].0 != child && table.families@.contains_key(
        extends[i].0,
    ) {
        assert(extends[i].0 != child);
    }
}

proof fn lemma_placed_or_never(rows: Seq<FamilyParents>, pending: Seq<(Symbol, usize)>)
    ensures
        placed_from(rows, pending).len() + never_placed(rows, pending).len() == pending.len(),
        forall|k: int|
            0 <= k < pending.len() ==> placed_from(rows, pending).contains(#[trigger] pending[k])
                || never_placed(rows, pending).contains(pending[k]),
    decreases pending.len(),
{
    let n = pending.len() as int;
    lemma_free_or_stuck(rows, pending, n);
    let stuck = stuck_of(rows, pending, n);
    let free = free_of(rows, pending, n);
    if stuck.len() < pending.len() {
        lemma_placed_or_never(rows, stuck);
        let placed = placed_from(rows, pending);
        assert(placed == free + placed_from(rows, stuck));
        assert forall|k: int| 0 <= k < pending.len() implies placed.contains(#[trigger] pending[k])
            || never_placed(rows, pending).contains(pending[k]) by {
            if free.contains(pending[k]) {
                let i = choose|i: int| 0 <= i < free.len() && free[i] == pending[k];
                assert(placed[i] == pending[k]);
            } else {
                let j = choose|j: int| 0 <= j < stuck.len() && stuck[j] == pending[k];
                assert(stuck[j] == pending[k]);
                if placed_from(rows, stuck).contains(stuck[j]) {
                    let later = placed_from(rows, stuck);
                    let i = choose|i: int| 0 <= i < later.len() && later[i] == pending[k];
                    assert(placed[free.len() + i] == pending[k]);
                }
            }
        }
    }
}

proof fn lemma_free_or_stuck(rows: Seq<FamilyParents>, pending: Seq<(Symbol, usize)>, count: int)
    requires
        0 <= count <= pending.len(),
    ensures
        free_of(rows, pending, count).len() + stuck_of(rows, pending, count).len() == count,
        forall|k: int|
            0 <= k < count ==> free_of(rows, pending, count).contains(#[trigger] pending[k])
                || stuck_of(rows, pending, count).contains(pending[k]),
    decreases count,
{
    if count > 0 {
        lemma_free_or_stuck(rows, pending, count - 1);
        let f = free_of(rows, pending, count - 1);
        let s = stuck_of(rows, pending, count - 1);
        let free = free_of(rows, pending, count);
        let stuck = stuck_of(rows, pending, count);
        assert forall|k: int| 0 <= k < count implies free.contains(#[trigger] pending[k])
            || stuck.contains(pending[k]) by {
            if k < count - 1 {
                if f.contains(pending[k]) {
                    let i = choose|i: int| 0 <= i < f.len() && f[i] == pending[k];
                    assert(free[i] == pending[k]);
                } else {
                    let i = choose|i: int| 0 <= i < s.len() && s[i] == pending[k];
                    assert(stuck[i] == pending[k]);
                }
            } else if held_up(rows, pending, pending[count - 1].1) {
                assert(stuck[stuck.len() - 1] == pending[k]);
            } else {
                assert(free[free.len() - 1] == pending[k]);
            }
        }
    }
}

/// Every family that extends another is placed, or reported as part of a cycle: none is
/// dropped in silence.
pub proof fn a_family_is_placed_or_reported(
    rows: Seq<FamilyParents>,
    pending: Seq<(Symbol, usize)>,
    k: int,
)
    requires
        waiting_rows(rows, pending),
        0 <= k < pending.len(),
    ensures
        placed_from(rows, pending).contains(pending[k]) || cycle_reports(
            rows,
            never_placed(rows, pending),
        ).len() > 0,
{
    lemma_placed_or_never(rows, pending);
    let stuck = never_placed(rows, pending);
    if !placed_from(rows, pending).contains(pending[k]) {
        let j = choose|j: int| 0 <= j < stuck.len() && stuck[j] == pending[k];
        lemma_never_waits(rows, pending, j);
        lemma_reported(rows, stuck, stuck.len() as int, j);
    }
}

proof fn lemma_never_waits(rows: Seq<FamilyParents>, pending: Seq<(Symbol, usize)>, j: int)
    requires
        0 <= j < never_placed(rows, pending).len(),
    ensures
        rows[never_placed(rows, pending)[j].1 as int].parents@.len() > 0,
    decreases pending.len(),
{
    let n = pending.len() as int;
    let stuck = stuck_of(rows, pending, n);
    lemma_free_or_stuck(rows, pending, n);
    if stuck.len() < pending.len() {
        lemma_never_waits(rows, stuck, j);
    } else {
        lemma_each_stuck(rows, pending, n, j);
    }
}

proof fn lemma_each_stuck(
    rows: Seq<FamilyParents>,
    pending: Seq<(Symbol, usize)>,
    count: int,
    j: int,
)
    requires
        0 <= j < count <= pending.len(),
        free_of(rows, pending, count).len() == 0,
    ensures
        held_up(rows, pending, pending[j].1),
    decreases count,
{
    if j < count - 1 {
        lemma_each_stuck(rows, pending, count - 1, j);
    }
}

proof fn lemma_reported(
    rows: Seq<FamilyParents>,
    stuck: Seq<(Symbol, usize)>,
    count: int,
    j: int,
)
    requires
        0 <= j < count <= stuck.len(),
        rows[stuck[j].1 as int].parents@.len() > 0,
    ensures
        cycle_reports(rows, stuck.take(count)).len() > 0,
        cycle_reports(rows, stuck).len() >= cycle_reports(rows, stuck.take(count)).len(),
    decreases stuck.len() - count, count,
{
    if count < stuck.len() {
        lemma_reported(rows, stuck, count + 1, j);
        assert(stuck.take(count + 1).drop_last() =~= stuck.take(count));
        lemma_reported_within(rows, stuck.take(count), j);
    } else {
        assert(stuck.take(count) =~= stuck);
        lemma_reported_within(rows, stuck, j);
    }
}

proof fn lemma_reported_within(rows: Seq<FamilyParents>, stuck: Seq<(Symbol, usize)>, j: int)
    requires
        0 <= j < stuck.len(),
        rows[stuck[j].1 as int].parents@.len() > 0,
    ensures
        cycle_reports(rows, stuck).len() > 0,
    decreases stuck.len(),
{
    if j < stuck.len() - 1 {
        assert(stuck.drop_last()[j] == stuck[j]);
        lemma_reported_within(rows, stuck.drop_last(), j);
    }
}

proof fn lemma_extending(decls: Seq<FamilyDecl>, count: int, k: int)
    requires
        0 <= count <= decls.len(),
        0 <= k < decls.len(),
    ensures
        extending(decls, count).contains(k) <==> k < count && decls[k].extends@.len() > 0,
        forall|i: int|
            0 <= i < extending(decls, count).len() ==> (#[trigger] extending(decls, count)[i])
                < count,
    decreases count,
{
    if count > 0 {
        lemma_extending(decls, count - 1, k);
        let before = extending(decls, count - 1);
        let all = extending(decls, count);
        if before.contains(k) {
            let i = choose|i: int| 0 <= i < before.len() && before[i] == k;
            assert(all[i] == k);
        }
        if all.contains(k) && !before.contains(k) {
            let i = choose|i: int| 0 <= i < all.len() && all[i] == k;
            if i < before.len() {
                assert(before[i] == k);
            }
        }
        if k == count - 1 && decls[k].extends@.len() > 0 {
            assert(all[all.len() - 1] == k);
        }
    }
}

proof fn lemma_clauses_silent(table: &FamilyTable, decls: Seq<FamilyDecl>, count: int, k: int)
    requires
        0 <= k < count <= decls.len(),
        clause_problems(table, decls, count).len() == 0,
    ensures
        parents_read(table, decls[k].name, decls[k].extends@).1.len() == 0,
    decreases count,
{
    let before = clause_problems(table, decls, count - 1);
    let decl = decls[count - 1];
    let own = if decl.extends@.len() == 0 {
        Seq::empty()
    } else {
        noted(decl.source, parents_read(table, decl.name, decl.extends@).1)
    };
    assert(clause_problems(table, decls, count).len() == before.len() + own.len());
    if k < count - 1 {
        lemma_clauses_silent(table, decls, count - 1, k);
    } else if decl.extends@.len() > 0 {
        assert(own.len() == parents_read(table, decl.name, decl.extends@).1.len());
    } else {
        lemma_parents_read(table, decl.name, decl.extends@);
    }
}

/// A family has a clause exactly if it extends something, under its own name and file; and
/// where no clause is refused, everything each clause names is a family other than the one
/// it stands in, and all of it is kept.
pub proof fn a_silent_clause_keeps_all_it_names(
    table: &FamilyTable,
    decls: Seq<FamilyDecl>,
    row: FamilyParents,
    k: int,
    i: int,
)
    requires
        0 <= k < decls.len(),
    ensures
        extending(decls, decls.len() as int).contains(k) <==> decls[k].extends@.len() > 0,
        clause_of(table, row, decls[k]) ==> row.child == decls[k].name && row.source
            == decls[k].source,
        clause_problems(table, decls, decls.len() as int).len() == 0 && clause_of(
            table,
            row,
            decls[k],
        ) ==> row.parents@.len() == decls[k].extends@.len() && (0 <= i < row.parents@.len()
            ==> table.families@.contains_key(row.parents@[i].0) && row.parents@[i].0
            != decls[k].name),
{
    lemma_extending(decls, decls.len() as int, k);
    lemma_parents_read(table, decls[k].name, decls[k].extends@);
    if clause_problems(table, decls, decls.len() as int).len() == 0 {
        lemma_clauses_silent(table, decls, decls.len() as int, k);
    }
}

} // verus!

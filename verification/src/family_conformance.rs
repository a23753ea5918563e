//! Whether every concrete declaration presents each family method with one
//! dispatch-compatible signature.

use vstd::prelude::*;

use crate::diagnostics::{blamed, Diagnostic, Log, Problem};
use crate::dispatch_tree::ConstructVariant;
use crate::families::{ConstructTable, FamilyInfo, FamilyMethod, FamilyTable, MethodEntry};
use crate::method_lookup::{find_method, method_of, mutates_self};
use crate::names::Symbol;
use crate::signatures::{FuncSig, SigTable};
use crate::source::SourceId;
use crate::symbol_map::lemma_row;
use crate::ty::{EnumId, Type};

verus! {

/// Whether the declaration `variant` is was written for the family `id` stands
/// for, rather than reached through one that extends it.
pub open spec fn declared_here(
    constructs: &ConstructTable,
    variant: ConstructVariant,
    id: EnumId,
) -> bool {
    match variant.ty {
        Type::Struct(of) => match constructs.info(of) {
            Some(info) => info.families@.len() > 0 && info.families@[0].0 == id,
            None => false,
        },
        _ => false,
    }
}

/// Whether `sig` takes, after its receiver, what the method promises, and gives
/// back what it promises.
pub open spec fn keeps_signature(sig: FuncSig, method: FamilyMethod) -> bool {
    &&& sig.params@.len() > 0
    &&& sig.params@.skip(1) == method.params@
    &&& method.promised_result() matches Some(result) ==> sig.return_type == result
}

/// What one declaration is refused for against one method.
pub open spec fn variant_refusals(
    constructs: &ConstructTable,
    sigs: Seq<FuncSig>,
    key: Symbol,
    id: EnumId,
    name: Symbol,
    method: FamilyMethod,
    variant: ConstructVariant,
) -> Seq<Diagnostic> {
    if !declared_here(constructs, variant, id) {
        Seq::empty()
    } else {
        match method_of(sigs, variant.ty, variant.name, name) {
            None => seq![
                blamed(
                    method.source,
                    method.name_span,
                    Problem::VariantLacksMethod {
                        declaration: variant.name,
                        family: key,
                        method: name,
                    },
                ),
            ],
            Some(found) => {
                let sig = sigs[found.0 as int];
                (if keeps_signature(sig, method) {
                    Seq::empty()
                } else {
                    seq![
                        blamed(
                            method.source,
                            method.name_span,
                            Problem::VariantSignature {
                                declaration: variant.name,
                                family: key,
                                method: name,
                            },
                        ),
                    ]
                }) + (if sig.mutates_self == method.mutates_self {
                    Seq::empty()
                } else {
                    seq![
                        blamed(
                            method.source,
                            sig.name_span,
                            Problem::VariantReceiver {
                                declaration: variant.name,
                                family: key,
                                method: name,
                            },
                        ),
                    ]
                })
            },
        }
    }
}

/// What the first `count` declarations are refused for against one method.
pub open spec fn method_refusals(
    constructs: &ConstructTable,
    sigs: Seq<FuncSig>,
    key: Symbol,
    info: FamilyInfo,
    name: Symbol,
    method: FamilyMethod,
    count: int,
) -> Seq<Diagnostic>
    decreases count,
{
    if count <= 0 {
        Seq::empty()
    } else {
        method_refusals(constructs, sigs, key, info, name, method, count - 1) + variant_refusals(
            constructs,
            sigs,
            key,
            info.enum_id,
            name,
            method,
            info.variants@[count - 1],
        )
    }
}

/// What a family's declarations are refused for against its first `count`
/// methods. A modifier has one shared body, so it asks nothing of them.
pub open spec fn family_refusals(
    constructs: &ConstructTable,
    sigs: Seq<FuncSig>,
    methods: Seq<FamilyMethod>,
    key: Symbol,
    info: FamilyInfo,
    count: int,
) -> Seq<Diagnostic>
    decreases count,
{
    if count <= 0 {
        Seq::empty()
    } else {
        let (name, entry) = info.methods.rows@[count - 1];
        family_refusals(constructs, sigs, methods, key, info, count - 1) + if entry.uniform {
            Seq::empty()
        } else {
            method_refusals(
                constructs,
                sigs,
                key,
                info,
                name,
                methods[entry.method as int],
                info.variants@.len() as int,
            )
        }
    }
}

/// What the first `count` families' declarations are refused for.
pub open spec fn conformance_refusals(
    constructs: &ConstructTable,
    sigs: Seq<FuncSig>,
    table: &FamilyTable,
    count: int,
) -> Seq<Diagnostic>
    decreases count,
{
    if count <= 0 {
        Seq::empty()
    } else {
        let (key, info) = table.families.rows@[count - 1];
        conformance_refusals(constructs, sigs, table, count - 1) + family_refusals(
            constructs,
            sigs,
            table.methods@,
            key,
            info,
            info.methods.rows@.len() as int,
        )
    }
}

/// The file being read once one method was checked against the first `count`
/// declarations: its own, where one of them was written for the family.
pub open spec fn method_read(
    constructs: &ConstructTable,
    info: FamilyInfo,
    method: FamilyMethod,
    count: int,
    source: SourceId,
) -> SourceId
    decreases count,
{
    if count <= 0 {
        source
    } else if declared_here(constructs, info.variants@[count - 1], info.enum_id) {
        method.source
    } else {
        method_read(constructs, info, method, count - 1, source)
    }
}

/// The file being read once a family's first `count` methods were checked.
pub open spec fn family_read(
    constructs: &ConstructTable,
    methods: Seq<FamilyMethod>,
    info: FamilyInfo,
    count: int,
    source: SourceId,
) -> SourceId
    decreases count,
{
    if count <= 0 {
        source
    } else {
        let entry = info.methods.rows@[count - 1].1;
        let before = family_read(constructs, methods, info, count - 1, source);
        if entry.uniform {
            before
        } else {
            method_read(
                constructs,
                info,
                methods[entry.method as int],
                info.variants@.len() as int,
                before,
            )
        }
    }
}

/// The file being read once the first `count` families were checked: that of the last
/// method checked against a declaration.
pub open spec fn conformance_read(
    constructs: &ConstructTable,
    table: &FamilyTable,
    count: int,
    source: SourceId,
) -> SourceId
    decreases count,
{
    if count <= 0 {
        source
    } else {
        let info = table.families.rows@[count - 1].1;
        family_read(
            constructs,
            table.methods@,
            info,
            info.methods.rows@.len() as int,
            conformance_read(constructs, table, count - 1, source),
        )
    }
}

fn is_declared_here(constructs: &ConstructTable, variant: ConstructVariant, id: EnumId) -> (res:
    bool)
    ensures
        res == declared_here(constructs, variant, id),
{
    match variant.ty {
        Type::Struct(of) => match constructs.find(of) {
            Some(at) => {
                let families = &constructs.rows[at].1.families;
                families.len() > 0 && families[0].0 == id
            },
            None => false,
        },
        _ => false,
    }
}

fn signature_kept(sig: &FuncSig, method: &FamilyMethod) -> (res: bool)
    ensures
        res == keeps_signature(*sig, *method),
{
    if sig.params.len() == 0 || sig.params.len() - 1 != method.params.len() {
        assert(sig.params@.len() > 0 ==> sig.params@.skip(1).len() == sig.params@.len() - 1);
        return false;
    }
    let mut i: usize = 0;
    while i < method.params.len()
        invariant
            i <= method.params@.len(),
            sig.params@.len() == method.params@.len() + 1,
            forall|k: int| 0 <= k < i ==> sig.params@[k + 1] == #[trigger] method.params@[k],
        decreases method.params@.len() - i,
    {
        if sig.params[i + 1] != method.params[i] {
            assert(sig.params@.skip(1)[i as int] != method.params@[i as int]);
            return false;
        }
        i += 1;
    }
    assert(sig.params@.skip(1) =~= method.params@);
    match method.constrained_result() {
        Some(result) => sig.return_type == result,
        None => true,
    }
}

fn check_variant(
    constructs: &ConstructTable,
    sigs: &SigTable,
    key: Symbol,
    id: EnumId,
    name: Symbol,
    method: &FamilyMethod,
    variant: ConstructVariant,
    log: &mut Log,
)
    requires
        sigs.sigs@.len() <= u32::MAX,
    ensures
        final(log).source == if declared_here(constructs, variant, id) {
            method.source
        } else {
            old(log).source
        },
        final(log).diagnostics@ == old(log).diagnostics@ + variant_refusals(
            constructs,
            sigs.sigs@,
            key,
            id,
            name,
            *method,
            variant,
        ),
{
    let ghost said = log.diagnostics@;
    let ghost refusals = variant_refusals(
        constructs,
        sigs.sigs@,
        key,
        id,
        name,
        *method,
        variant,
    );
    if !is_declared_here(constructs, variant, id) {
        assert(log.diagnostics@ =~= said + refusals);
        return ;
    }
    log.source = method.source;
    match find_method(sigs, variant.ty, variant.name, name) {
        None => {
            log.emit(
                method.name_span,
                Problem::VariantLacksMethod {
                    declaration: variant.name,
                    family: key,
                    method: name,
                },
            );
        },
        Some(found) => {
            let sig = &sigs.sigs[found.0 as usize];
            if !signature_kept(sig, method) {
                log.emit(
                    method.name_span,
                    Problem::VariantSignature {
                        declaration: variant.name,
                        family: key,
                        method: name,
                    },
                );
            }
            if mutates_self(sigs, found) != method.mutates_self {
                log.emit(
                    sig.name_span,
                    Problem::VariantReceiver {
                        declaration: variant.name,
                        family: key,
                        method: name,
                    },
                );
            }
        },
    }
    assert(log.diagnostics@ =~= said + refusals);
}

fn check_method(
    constructs: &ConstructTable,
    sigs: &SigTable,
    key: Symbol,
    info: &FamilyInfo,
    name: Symbol,
    method: &FamilyMethod,
    log: &mut Log,
)
    requires
        sigs.sigs@.len() <= u32::MAX,
    ensures
        final(log).source == method_read(
            constructs,
            *info,
            *method,
            info.variants@.len() as int,
            old(log).source,
        ),
        final(log).diagnostics@ == old(log).diagnostics@ + method_refusals(
            constructs,
            sigs.sigs@,
            key,
            *info,
            name,
            *method,
            info.variants@.len() as int,
        ),
{
    let ghost said = log.diagnostics@;
    let mut i: usize = 0;
    assert(said + Seq::<Diagnostic>::empty() =~= said);
    while i < info.variants.len()
        invariant
            i <= info.variants@.len(),
            sigs.sigs@.len() <= u32::MAX,
            log.source == method_read(constructs, *info, *method, i as int, old(log).source),
            log.diagnostics@ == said + method_refusals(
                constructs,
                sigs.sigs@,
                key,
                *info,
                name,
                *method,
                i as int,
            ),
        decreases info.variants@.len() - i,
    {
        check_variant(
            constructs,
            sigs,
            key,
            info.enum_id,
            name,
            method,
            info.variants[i],
            log,
        );
        i += 1;
        assert(log.diagnostics@ =~= said + method_refusals(
            constructs,
            sigs.sigs@,
            key,
            *info,
            name,
            *method,
            i as int,
        ));
    }
}

fn check_family(
    constructs: &ConstructTable,
    sigs: &SigTable,
    table: &FamilyTable,
    at: usize,
    log: &mut Log,
)
    requires
        table.wf(),
        at < table.families.rows@.len(),
        sigs.sigs@.len() <= u32::MAX,
    ensures
        final(log).source == family_read(
            constructs,
            table.methods@,
            table.families.rows@[at as int].1,
            table.families.rows@[at as int].1.methods.rows@.len() as int,
            old(log).source,
        ),
        final(log).diagnostics@ == old(log).diagnostics@ + family_refusals(
            constructs,
            sigs.sigs@,
            table.methods@,
            table.families.rows@[at as int].0,
            table.families.rows@[at as int].1,
            table.families.rows@[at as int].1.methods.rows@.len() as int,
        ),
{
    let ghost said = log.diagnostics@;
    let key = table.families.rows[at].0;
    let info = &table.families.rows[at].1;
    proof {
        lemma_row(table.families.rows@, at as int);
        assert(table.families@[key].wf());
    }
    let mut i: usize = 0;
    assert(said + Seq::<Diagnostic>::empty() =~= said);
    while i < info.methods.rows.len()
        invariant
            i <= info.methods.rows@.len(),
            sigs.sigs@.len() <= u32::MAX,
            table.wf(),
            table.families@.contains_key(key),
            table.families@[key] == *info,
            info.wf(),
            log.source == family_read(
                constructs,
                table.methods@,
                *info,
                i as int,
                old(log).source,
            ),
            log.diagnostics@ == said + family_refusals(
                constructs,
                sigs.sigs@,
                table.methods@,
                key,
                *info,
                i as int,
            ),
        decreases info.methods.rows@.len() - i,
    {
        let (name, entry): (Symbol, MethodEntry) = info.methods.rows[i];
        proof {
            lemma_row(info.methods.rows@, i as int);
            assert(table.families@[key].methods@[name].method < table.methods@.len());
        }
        if !entry.uniform {
            check_method(
                constructs,
                sigs,
                key,
                info,
                name,
                &table.methods[entry.method as usize],
                log,
            );
        }
        i += 1;
        assert(log.diagnostics@ =~= said + family_refusals(
            constructs,
            sigs.sigs@,
            table.methods@,
            key,
            *info,
            i as int,
        ));
    }
}

/// Reports every concrete declaration that does not present a method of the
/// family it was written for the way the family promises it.
///
/// A declaration a family only reached through another that extends it was
/// checked against the family it was written for.
pub fn check_construct_method_signatures(
    constructs: &ConstructTable,
    sigs: &SigTable,
    table: &FamilyTable,
    log: &mut Log,
)
    requires
        table.wf(),
        sigs.sigs@.len() <= u32::MAX,
    ensures
        final(log).source == conformance_read(
            constructs,
            table,
            table.families.rows@.len() as int,
            old(log).source,
        ),
        final(log).diagnostics@ == old(log).diagnostics@ + conformance_refusals(
            constructs,
            sigs.sigs@,
            table,
            table.families.rows@.len() as int,
        ),
{
    let ghost said = log.diagnostics@;
    let mut i: usize = 0;
    assert(said + Seq::<Diagnostic>::empty() =~= said);
    while i < table.families.rows.len()
        invariant
            i <= table.families.rows@.len(),
            table.wf(),
            sigs.sigs@.len() <= u32::MAX,
            log.source == conformance_read(constructs, table, i as int, old(log).source),
            log.diagnostics@ == said + conformance_refusals(
                constructs,
                sigs.sigs@,
                table,
                i as int,
            ),
        decreases table.families.rows@.len() - i,
    {
        check_family(constructs, sigs, table, i, log);
        i += 1;
        assert(log.diagnostics@ =~= said + conformance_refusals(
            constructs,
            sigs.sigs@,
            table,
            i as int,
        ));
    }
}

/// A program the check says nothing of conforms: every declaration written for a
/// family has, for each of its per-variant methods, a method of that name that
/// takes and gives back what the family promises, with the same receiver mode.
pub proof fn a_silent_check_means_conformance(
    constructs: &ConstructTable,
    sigs: Seq<FuncSig>,
    table: &FamilyTable,
    f: int,
    m: int,
    v: int,
)
    requires
        conformance_refusals(
            constructs,
            sigs,
            table,
            table.families.rows@.len() as int,
        ).len() == 0,
        0 <= f < table.families.rows@.len(),
        ({
            let info = table.families.rows@[f].1;
            &&& 0 <= m < info.methods.rows@.len()
            &&& !info.methods.rows@[m].1.uniform
            &&& 0 <= v < info.variants@.len()
            &&& declared_here(constructs, info.variants@[v], info.enum_id)
        }),
    ensures
        ({
            let info = table.families.rows@[f].1;
            let (name, entry) = info.methods.rows@[m];
            let method = table.methods@[entry.method as int];
            &&& method_of(sigs, info.variants@[v].ty, info.variants@[v].name, name) matches Some(found)
            &&& keeps_signature(sigs[found.0 as int], method)
            &&& sigs[found.0 as int].mutates_self == method.mutates_self
        }),
{
    let (key, info) = table.families.rows@[f];
    let (name, entry) = info.methods.rows@[m];
    let method = table.methods@[entry.method as int];
    lemma_families_silent(
        constructs,
        sigs,
        table,
        table.families.rows@.len() as int,
        f,
    );
    lemma_methods_silent(
        constructs,
        sigs,
        table.methods@,
        key,
        info,
        info.methods.rows@.len() as int,
        m,
    );
    lemma_variants_silent(
        constructs,
        sigs,
        key,
        info,
        name,
        method,
        info.variants@.len() as int,
        v,
    );
}

proof fn lemma_families_silent(
    constructs: &ConstructTable,
    sigs: Seq<FuncSig>,
    table: &FamilyTable,
    count: int,
    f: int,
)
    requires
        conformance_refusals(constructs, sigs, table, count).len() == 0,
        0 <= f < count,
    ensures
        family_refusals(
            constructs,
            sigs,
            table.methods@,
            table.families.rows@[f].0,
            table.families.rows@[f].1,
            table.families.rows@[f].1.methods.rows@.len() as int,
        ).len() == 0,
    decreases count,
{
    if f < count - 1 {
        lemma_families_silent(constructs, sigs, table, count - 1, f);
    }
}

proof fn lemma_methods_silent(
    constructs: &ConstructTable,
    sigs: Seq<FuncSig>,
    methods: Seq<FamilyMethod>,
    key: Symbol,
    info: FamilyInfo,
    count: int,
    m: int,
)
    requires
        family_refusals(constructs, sigs, methods, key, info, count).len() == 0,
        0 <= m < count,
        !info.methods.rows@[m].1.uniform,
    ensures
        method_refusals(
            constructs,
            sigs,
            key,
            info,
            info.methods.rows@[m].0,
            methods[info.methods.rows@[m].1.method as int],
            info.variants@.len() as int,
        ).len() == 0,
    decreases count,
{
    if m < count - 1 {
        lemma_methods_silent(constructs, sigs, methods, key, info, count - 1, m);
    }
}

proof fn lemma_variants_silent(
    constructs: &ConstructTable,
    sigs: Seq<FuncSig>,
    key: Symbol,
    info: FamilyInfo,
    name: Symbol,
    method: FamilyMethod,
    count: int,
    v: int,
)
    requires
        method_refusals(constructs, sigs, key, info, name, method, count).len() == 0,
        0 <= v < count,
    ensures
        variant_refusals(
            constructs,
            sigs,
            key,
            info.enum_id,
            name,
            method,
            info.variants@[v],
        ).len() == 0,
    decreases count,
{
    if v < count - 1 {
        lemma_variants_silent(constructs, sigs, key, info, name, method, count - 1, v);
    }
}

/// Where the check says nothing, every declaration written for a family has, for each of
/// its per-variant methods, a method whose parameters after the receiver are the
/// family's, one for one, whose result is the one the family promises, if it promises
/// one, and which mutates its receiver exactly if the family's method does.
pub proof fn a_silent_check_means_equal_signatures(
    constructs: &ConstructTable,
    sigs: Seq<FuncSig>,
    table: &FamilyTable,
    f: int,
    m: int,
    v: int,
    of: crate::ty::StructId,
)
    requires
        conformance_refusals(
            constructs,
            sigs,
            table,
            table.families.rows@.len() as int,
        ).len() == 0,
        0 <= f < table.families.rows@.len(),
        0 <= m < table.families.rows@[f].1.methods.rows@.len(),
        !table.families.rows@[f].1.methods.rows@[m].1.uniform,
        0 <= v < table.families.rows@[f].1.variants@.len(),
        table.families.rows@[f].1.variants@[v].ty == Type::Struct(of),
        constructs.info(of) is Some,
        constructs.info(of)->0.families@.len() > 0,
        constructs.info(of)->0.families@[0].0 == table.families.rows@[f].1.enum_id,
    ensures
        ({
            let info = table.families.rows@[f].1;
            let (name, entry) = info.methods.rows@[m];
            let method = table.methods@[entry.method as int];
            let found = method_of(sigs, info.variants@[v].ty, info.variants@[v].name, name);
            let id = found->0;
            let sig = sigs[id.0 as int];
            &&& found is Some
            &&& sig.params@.len() == method.params@.len() + 1
            &&& forall|k: int|
                0 <= k < method.params@.len() ==> sig.params@[k + 1] == #[trigger] method.params@[k]
            &&& method.written_result is Some ==> sig.return_type == method.result
            &&& !method.required ==> sig.return_type == method.result
            &&& sig.mutates_self == method.mutates_self
        }),
{
    a_silent_check_means_conformance(constructs, sigs, table, f, m, v);
    let info = table.families.rows@[f].1;
    let (name, entry) = info.methods.rows@[m];
    let method = table.methods@[entry.method as int];
    let found = method_of(sigs, info.variants@[v].ty, info.variants@[v].name, name);
    let id = found->0;
    let sig = sigs[id.0 as int];
    assert(sig.params@.skip(1).len() == method.params@.len());
    assert forall|k: int| 0 <= k < method.params@.len() implies sig.params@[k + 1]
        == #[trigger] method.params@[k] by {
        assert(sig.params@.skip(1)[k] == sig.params@[k + 1]);
    }
}

/// A declaration that keeps what its family asks is not refused: the check reports
/// nothing of a method whose parameters after the receiver, result and receiver mode are
/// the family's.
pub proof fn a_conforming_variant_is_not_refused(
    constructs: &ConstructTable,
    sigs: Seq<FuncSig>,
    key: Symbol,
    id: EnumId,
    name: Symbol,
    method: FamilyMethod,
    variant: ConstructVariant,
)
    requires
        ({
            let found = method_of(sigs, variant.ty, variant.name, name);
            let at = found->0;
            let sig = sigs[at.0 as int];
            &&& found is Some
            &&& sig.params@.len() == method.params@.len() + 1
            &&& forall|k: int|
                0 <= k < method.params@.len() ==> sig.params@[k + 1] == #[trigger] method.params@[k]
            &&& sig.return_type == method.result
            &&& sig.mutates_self == method.mutates_self
        }),
    ensures
        variant_refusals(constructs, sigs, key, id, name, method, variant).len() == 0,
{
    let found = method_of(sigs, variant.ty, variant.name, name);
    let at = found->0;
    let sig = sigs[at.0 as int];
    assert(sig.params@.skip(1) =~= method.params@) by {
        assert forall|k: int| 0 <= k < method.params@.len() implies sig.params@.skip(1)[k]
            == #[trigger] method.params@[k] by {
            assert(sig.params@[k + 1] == method.params@[k]);
        }
    }
}

} // verus!
